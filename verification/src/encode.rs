//! Rendering a workload as a C test program against the harness ABI.
//!
//! The output is pinned character for character by `encode_chars`: an
//! include line, the descriptor declarations (or the fixed comment when
//! there are none), and one `do_*` call per operation, in order.

use vstd::prelude::*;
use vstd::string::StringExecFns;
use crate::flags::{flag_chars, flag_name, Mode, ModeFlag};
use crate::node::FileDescriptor;
use crate::operation::Operation;
use crate::text::{dec_digits, decimal_string, push_decimal};
use crate::workload::Workload;

verus! {

/// The variable name for a descriptor index.
pub open spec fn descriptor_chars(des: int) -> Seq<char> {
    "fd_"@ + dec_digits(des)
}

/// Generates the name of the C variable for the descriptor.
pub fn descriptor_to_var(des: &FileDescriptor) -> (r: String)
    ensures
        r@ == descriptor_chars(des.0 as int),
{
    let mut s = String::from_str("fd_");
    push_decimal(&mut s, des.0 as u64);
    s
}

/// The rendering of a mode: `0` for the empty set, else the flag names
/// joined by ` | ` in the order given.
pub open spec fn mode_chars(m: Seq<ModeFlag>) -> Seq<char>
    decreases m.len(),
{
    if m.len() == 0 {
        "0"@
    } else if m.len() == 1 {
        flag_chars(m[0])
    } else {
        flag_chars(m[0]) + " | "@ + mode_chars(m.skip(1))
    }
}

/// Renders a mode for the C call.
pub fn encode_mode(mode: &Mode) -> (r: String)
    ensures
        r@ == mode_chars(mode@),
{
    if mode.len() == 0 {
        return String::from_str("0");
    }
    let mut s = String::from_str(flag_name(mode[0]));
    let ghost m = mode@;
    let mut i: usize = 1;
    proof {
        lemma_mode_chars_take(m, 1);
    }
    while i < mode.len()
        invariant
            1 <= i <= m.len(),
            m == mode@,
            m.len() >= 1,
            s@ == mode_chars(m.take(i as int)),
        decreases m.len() - i,
    {
        s.append(" | ");
        s.append(flag_name(mode[i]));
        proof {
            lemma_mode_chars_take(m, i as int + 1);
            assert(s@ =~= mode_chars(m.take(i as int)) + " | "@ + flag_chars(m[i as int]));
        }
        i += 1;
    }
    proof {
        assert(m.take(m.len() as int) =~= m);
    }
    s
}

/// Extending the rendered prefix by one more flag.
proof fn lemma_mode_chars_take(m: Seq<ModeFlag>, i: int)
    requires
        1 <= i <= m.len(),
    ensures
        i == 1 ==> mode_chars(m.take(i)) == flag_chars(m[0]),
        i > 1 ==> mode_chars(m.take(i)) == mode_chars(m.take(i - 1)) + " | "@ + flag_chars(
            m[i - 1],
        ),
{
    lemma_mode_chars_snoc(m.take(i));
    assert(m.take(i).len() == i);
    if i == 1 {
        assert(m.take(1)[0] == m[0]);
    } else {
        assert(m.take(i).drop_last() =~= m.take(i - 1));
        assert(m.take(i).last() == m[i - 1]);
    }
}

/// `mode_chars` grows at the right end.
proof fn lemma_mode_chars_snoc(m: Seq<ModeFlag>)
    requires
        m.len() >= 1,
    ensures
        m.len() == 1 ==> mode_chars(m) == flag_chars(m[0]),
        m.len() > 1 ==> mode_chars(m) == mode_chars(m.drop_last()) + " | "@ + flag_chars(
            m.last(),
        ),
    decreases m.len(),
{
    if m.len() > 1 {
        lemma_mode_chars_snoc(m.skip(1));
        assert(m.skip(1).drop_last() =~= m.drop_last().skip(1));
        assert(m.drop_last()[0] == m[0]);
        if m.len() == 2 {
            assert(m.drop_last() =~= m.take(1));
            assert(mode_chars(m) =~= mode_chars(m.drop_last()) + " | "@ + flag_chars(m.last()));
        } else {
            assert(mode_chars(m) == flag_chars(m[0]) + " | "@ + mode_chars(m.skip(1)));
            assert(mode_chars(m.skip(1)) == mode_chars(m.skip(1).drop_last()) + " | "@
                + flag_chars(m.skip(1).last()));
            assert(m.skip(1).last() == m.last());
            assert(mode_chars(m.drop_last()) == flag_chars(m[0]) + " | "@ + mode_chars(
                m.drop_last().skip(1),
            ));
            assert(mode_chars(m) =~= mode_chars(m.drop_last()) + " | "@ + flag_chars(m.last()));
        }
    }
}

/// The one C line an operation renders to.
pub open spec fn op_line(op: Operation) -> Seq<char> {
    match op {
        Operation::Create { path, mode } => "do_create(\""@ + path@ + "\", "@ + mode_chars(mode@)
            + ");\n"@,
        Operation::MkDir { path, mode } => "do_mkdir(\""@ + path@ + "\", "@ + mode_chars(mode@)
            + ");\n"@,
        Operation::Remove { path } => "do_remove(\""@ + path@ + "\");\n"@,
        Operation::Hardlink { old_path, new_path } => "do_hardlink(\""@ + old_path@ + "\", \""@
            + new_path@ + "\");\n"@,
        Operation::Rename { old_path, new_path } => "do_rename(\""@ + old_path@ + "\", \""@
            + new_path@ + "\");\n"@,
        Operation::Open { path, des } => descriptor_chars(des.0 as int) + " = do_open(\""@ + path@
            + "\");\n"@,
        Operation::Close { des } => "do_close("@ + descriptor_chars(des.0 as int) + ");\n"@,
        Operation::Read { des, size } => "do_read("@ + descriptor_chars(des.0 as int) + ", "@
            + dec_digits(size as int) + ");\n"@,
        Operation::Write { des, src_offset, size } => "do_write("@ + descriptor_chars(
            des.0 as int,
        ) + ", "@ + dec_digits(src_offset as int) + ", "@ + dec_digits(size as int) + ");\n"@,
        Operation::FSync { des } => "do_fsync("@ + descriptor_chars(des.0 as int) + ");\n"@,
        Operation::Symlink { target, linkpath } => "do_symlink(\""@ + target@ + "\", \""@
            + linkpath@ + "\");\n"@,
    }
}

/// The body of the test function: one line per operation, in order.
pub open spec fn body_chars(ops: Seq<Operation>) -> Seq<char>
    decreases ops.len(),
{
    if ops.len() == 0 {
        Seq::empty()
    } else {
        body_chars(ops.drop_last()) + op_line(ops.last())
    }
}

/// One more than the greatest descriptor index any `Open` uses, or zero.
pub open spec fn descriptors_n(ops: Seq<Operation>) -> int
    decreases ops.len(),
{
    if ops.len() == 0 {
        0
    } else {
        let rest = descriptors_n(ops.drop_last());
        match ops.last() {
            Operation::Open { path: _, des } => {
                if des.0 + 1 > rest {
                    des.0 + 1
                } else {
                    rest
                }
            },
            _ => rest,
        }
    }
}

/// The comma-separated descriptor variable list `fd_0, …, fd_{n-1}`.
pub open spec fn var_list_chars(n: int) -> Seq<char>
    decreases n,
{
    if n <= 1 {
        descriptor_chars(0)
    } else {
        var_list_chars(n - 1) + ", "@ + descriptor_chars(n - 1)
    }
}

/// The declaration block: the variable declarations, or the fixed
/// comment when no descriptor is used.
pub open spec fn decl_chars(n: int) -> Seq<char> {
    if n > 0 {
        "\nint "@ + var_list_chars(n) + ";\n\n"@
    } else {
        "\n// no descriptors\n\n"@
    }
}

/// The whole C translation unit for a workload.
pub open spec fn encode_chars(ops: Seq<Operation>) -> Seq<char> {
    "#include \"executor.h\"\n"@ + decl_chars(descriptors_n(ops)) + "void test_workload()\n{\n"@
        + body_chars(ops) + "}"@
}

impl Workload {
    /// Renders the workload as a C test program for the harness: paths
    /// and free strings are emitted verbatim between double quotes.
    #[verifier::rlimit(50)]
    pub fn encode_c(&self) -> (r: String)
        requires
            forall|i: int|
                0 <= i < self.ops@.len() ==> ((#[trigger] self.ops@[i]) matches Operation::Open {
                    path,
                    des,
                } ==> des.0 < usize::MAX),
        ensures
            r@ == encode_chars(self.ops@),
    {
        let ghost ops = self.ops@;
        let mut result = String::from_str("#include \"executor.h\"\n");
        let mut descriptors_count: usize = 0;
        let mut i: usize = 0;
        proof {
            assert(ops.take(0) =~= Seq::<Operation>::empty());
        }
        while i < self.ops.len()
            invariant
                0 <= i <= ops.len(),
                ops == self.ops@,
                forall|k: int|
                    0 <= k < self.ops@.len() ==> ((#[trigger] self.ops@[k])
                        matches Operation::Open { path, des } ==> des.0 < usize::MAX),
                descriptors_count as int == descriptors_n(ops.take(i as int)),
            decreases ops.len() - i,
        {
            proof {
                assert(ops.take(i as int + 1).drop_last() =~= ops.take(i as int));
                assert(ops.take(i as int + 1).last() == ops[i as int]);
            }
            match &self.ops[i] {
                Operation::Open { path: _, des } => {
                    proof {
                        assert(self.ops@[i as int] matches Operation::Open { path: p2, des: d2 }
                            ==> d2.0 < usize::MAX);
                        assert(des.0 < usize::MAX);
                    }
                    if des.0 + 1 > descriptors_count {
                        descriptors_count = des.0 + 1;
                    }
                },
                _ => {},
            }
            i += 1;
        }
        proof {
            assert(ops.take(ops.len() as int) =~= ops);
        }
        if descriptors_count > 0 {
            result.append("\nint ");
            let mut vars = String::from_str("fd_0");
            proof {
                reveal_strlit("fd_0");
                reveal_strlit("fd_");
                reveal_strlit("0");
                assert(dec_digits(0) =~= "0"@);
                assert(vars@ =~= descriptor_chars(0));
            }
            let mut v: usize = 1;
            while v < descriptors_count
                invariant
                    1 <= v <= descriptors_count,
                    vars@ == var_list_chars(v as int),
                decreases descriptors_count - v,
            {
                vars.append(", ");
                vars.append(descriptor_to_var(&FileDescriptor(v)).as_str());
                proof {
                    assert(vars@ =~= var_list_chars(v as int) + ", "@ + descriptor_chars(
                        v as int,
                    ));
                }
                v += 1;
            }
            result.append(vars.as_str());
            result.append(";\n\n");
            proof {
                assert(result@ =~= "#include \"executor.h\"\n"@ + decl_chars(
                    descriptors_n(ops),
                ));
            }
        } else {
            result.append("\n// no descriptors\n\n");
        }
        result.append("void test_workload()\n{\n");
        let ghost header = result@;
        let mut i2: usize = 0;
        proof {
            assert(body_chars(ops.take(0)) =~= Seq::<char>::empty());
            assert(result@ =~= header + body_chars(ops.take(0)));
        }
        while i2 < self.ops.len()
            invariant
                0 <= i2 <= ops.len(),
                ops == self.ops@,
                result@ == header + body_chars(ops.take(i2 as int)),
            decreases ops.len() - i2,
        {
            proof {
                assert(ops.take(i2 as int + 1).drop_last() =~= ops.take(i2 as int));
                assert(ops.take(i2 as int + 1).last() == ops[i2 as int]);
            }
            match &self.ops[i2] {
                Operation::Create { path, mode } => {
                    result.append("do_create(\"");
                    result.append(path.as_str());
                    result.append("\", ");
                    result.append(encode_mode(mode).as_str());
                    result.append(");\n");
                },
                Operation::MkDir { path, mode } => {
                    result.append("do_mkdir(\"");
                    result.append(path.as_str());
                    result.append("\", ");
                    result.append(encode_mode(mode).as_str());
                    result.append(");\n");
                },
                Operation::Remove { path } => {
                    result.append("do_remove(\"");
                    result.append(path.as_str());
                    result.append("\");\n");
                },
                Operation::Hardlink { old_path, new_path } => {
                    result.append("do_hardlink(\"");
                    result.append(old_path.as_str());
                    result.append("\", \"");
                    result.append(new_path.as_str());
                    result.append("\");\n");
                },
                Operation::Rename { old_path, new_path } => {
                    result.append("do_rename(\"");
                    result.append(old_path.as_str());
                    result.append("\", \"");
                    result.append(new_path.as_str());
                    result.append("\");\n");
                },
                Operation::Open { path, des } => {
                    result.append(descriptor_to_var(des).as_str());
                    result.append(" = do_open(\"");
                    result.append(path.as_str());
                    result.append("\");\n");
                },
                Operation::Close { des } => {
                    result.append("do_close(");
                    result.append(descriptor_to_var(des).as_str());
                    result.append(");\n");
                },
                Operation::Read { des, size } => {
                    result.append("do_read(");
                    result.append(descriptor_to_var(des).as_str());
                    result.append(", ");
                    result.append(decimal_string(*size).as_str());
                    result.append(");\n");
                },
                Operation::Write { des, src_offset, size } => {
                    result.append("do_write(");
                    result.append(descriptor_to_var(des).as_str());
                    result.append(", ");
                    result.append(decimal_string(*src_offset).as_str());
                    result.append(", ");
                    result.append(decimal_string(*size).as_str());
                    result.append(");\n");
                },
                Operation::FSync { des } => {
                    result.append("do_fsync(");
                    result.append(descriptor_to_var(des).as_str());
                    result.append(");\n");
                },
                Operation::Symlink { target, linkpath } => {
                    result.append("do_symlink(\"");
                    result.append(target.as_str());
                    result.append("\", \"");
                    result.append(linkpath.as_str());
                    result.append("\");\n");
                },
            }
            proof {
                assert(result@ =~= header + (body_chars(ops.take(i2 as int)) + op_line(
                    ops[i2 as int],
                )));
            }
            i2 += 1;
        }
        proof {
            assert(ops.take(ops.len() as int) =~= ops);
        }
        result.append("}");
        proof {
            assert(result@ =~= encode_chars(ops));
        }
        result
    }
}

/// How many line breaks a text holds.
pub open spec fn newline_count(s: Seq<char>) -> int
    decreases s.len(),
{
    if s.len() == 0 {
        0
    } else {
        newline_count(s.drop_last()) + (if s.last() == '\n' {
            1int
        } else {
            0int
        })
    }
}

proof fn lemma_newline_count_cat(a: Seq<char>, b: Seq<char>)
    ensures
        newline_count(a + b) == newline_count(a) + newline_count(b),
    decreases b.len(),
{
    if b.len() == 0 {
        assert(a + b =~= a);
    } else {
        lemma_newline_count_cat(a, b.drop_last());
        assert((a + b).drop_last() =~= a + b.drop_last());
        assert((a + b).last() == b.last());
    }
}

proof fn lemma_newline_count_zero(s: Seq<char>)
    requires
        forall|i: int| 0 <= i < s.len() ==> s[i] != '\n',
    ensures
        newline_count(s) == 0,
    decreases s.len(),
{
    if s.len() > 0 {
        assert(forall|i: int| 0 <= i < s.drop_last().len() ==> s.drop_last()[i] == s[i]);
        lemma_newline_count_zero(s.drop_last());
    }
}

/// Text free of line breaks.
pub open spec fn line_free(s: Seq<char>) -> bool {
    forall|i: int| 0 <= i < s.len() ==> s[i] != '\n'
}

/// The operation's strings hold no line break, so its rendering is one
/// line.
pub open spec fn op_text_line_free(op: Operation) -> bool {
    match op {
        Operation::Create { path, mode } => line_free(path@),
        Operation::MkDir { path, mode } => line_free(path@),
        Operation::Remove { path } => line_free(path@),
        Operation::Hardlink { old_path, new_path } => line_free(old_path@) && line_free(
            new_path@,
        ),
        Operation::Rename { old_path, new_path } => line_free(old_path@) && line_free(new_path@),
        Operation::Open { path, des } => line_free(path@),
        Operation::Close { des } => true,
        Operation::Read { des, size } => true,
        Operation::Write { des, src_offset, size } => true,
        Operation::FSync { des } => true,
        Operation::Symlink { target, linkpath } => line_free(target@) && line_free(linkpath@),
    }
}

proof fn lemma_digits_line_free(n: int)
    ensures
        line_free(crate::text::dec_digits(n)),
    decreases n,
{
    if n >= 10 {
        lemma_digits_line_free(n / 10);
        let d = crate::text::dec_digits(n);
        assert(forall|i: int|
            0 <= i < d.len() - 1 ==> d[i] == crate::text::dec_digits(n / 10)[i]);
    }
}

proof fn lemma_flag_line_free(f: ModeFlag)
    ensures
        line_free(flag_chars(f)),
{
    reveal_strlit("S_IRWXU");
    reveal_strlit("S_IRUSR");
    reveal_strlit("S_IWUSR");
    reveal_strlit("S_IXUSR");
    reveal_strlit("S_IRWXG");
    reveal_strlit("S_IRGRP");
    reveal_strlit("S_IWGRP");
    reveal_strlit("S_IXGRP");
    reveal_strlit("S_IRWXO");
    reveal_strlit("S_IROTH");
    reveal_strlit("S_IWOTH");
    reveal_strlit("S_IXOTH");
    reveal_strlit("S_ISUID");
    reveal_strlit("S_ISGID");
    reveal_strlit("S_ISVTX");
}

proof fn lemma_mode_line_free(m: Seq<ModeFlag>)
    ensures
        line_free(mode_chars(m)),
    decreases m.len(),
{
    reveal_strlit("0");
    reveal_strlit(" | ");
    if m.len() == 0 {
    } else if m.len() == 1 {
        lemma_flag_line_free(m[0]);
    } else {
        lemma_flag_line_free(m[0]);
        lemma_mode_line_free(m.skip(1));
        let s = mode_chars(m);
        assert forall|i: int| 0 <= i < s.len() implies s[i] != '\n' by {
            let a = flag_chars(m[0]) + " | "@;
            if i < a.len() {
                if i < flag_chars(m[0]).len() {
                    assert(s[i] == flag_chars(m[0])[i]);
                } else {
                    assert(s[i] == " | "@[i - flag_chars(m[0]).len()]);
                }
            } else {
                assert(s[i] == mode_chars(m.skip(1))[i - a.len()]);
            }
        }
    }
}

proof fn lemma_descriptor_line_free(des: int)
    ensures
        line_free(descriptor_chars(des)),
{
    reveal_strlit("fd_");
    lemma_digits_line_free(des);
    let s = descriptor_chars(des);
    assert forall|i: int| 0 <= i < s.len() implies s[i] != '\n' by {
        if i < "fd_"@.len() {
            assert(s[i] == "fd_"@[i]);
        } else {
            assert(s[i] == crate::text::dec_digits(des)[i - "fd_"@.len()]);
        }
    }
}

/// Every operation renders to exactly one line: its text ends with the
/// one and only line break.
pub proof fn lemma_op_line_single(op: Operation)
    requires
        op_text_line_free(op),
    ensures
        newline_count(op_line(op)) == 1,
        op_line(op).len() > 0,
        op_line(op).last() == '\n',
{
    reveal_strlit("do_create(\"");
    reveal_strlit("do_mkdir(\"");
    reveal_strlit("do_remove(\"");
    reveal_strlit("do_hardlink(\"");
    reveal_strlit("do_rename(\"");
    reveal_strlit("do_close(");
    reveal_strlit("do_read(");
    reveal_strlit("do_write(");
    reveal_strlit("do_fsync(");
    reveal_strlit("do_symlink(\"");
    reveal_strlit(" = do_open(\"");
    reveal_strlit("\", ");
    reveal_strlit("\", \"");
    reveal_strlit(", ");
    reveal_strlit(");\n");
    reveal_strlit("\");\n");
    assert(newline_count(");\n"@) == 1) by {
        reveal_strlit(");");
        reveal_strlit("\n");
        lemma_newline_count_zero(");"@);
        lemma_newline_count_cat(");"@, "\n"@);
        assert(");"@ + "\n"@ =~= ");\n"@);
        assert(newline_count("\n"@) == 1) by {
            reveal_strlit("\n");
            assert("\n"@.drop_last().len() == 0);
            assert(newline_count("\n"@.drop_last()) == 0);
            assert("\n"@.last() == '\n');
        }
    }
    assert(newline_count("\");\n"@) == 1) by {
        reveal_strlit("\")");
        reveal_strlit(";\n");
        lemma_newline_count_zero("\")"@);
        lemma_newline_count_cat("\")"@, ";\n"@);
        assert("\")"@ + ";\n"@ =~= "\");\n"@);
        assert(newline_count(";\n"@) == 1) by {
            reveal_strlit(";");
            reveal_strlit("\n");
            reveal_strlit(";\n");
            lemma_newline_count_zero(";"@);
            lemma_newline_count_cat(";"@, "\n"@);
            assert(";"@ + "\n"@ =~= ";\n"@);
            assert(newline_count("\n"@) == 1) by {
                reveal_strlit("\n");
                assert("\n"@.drop_last().len() == 0);
                assert(newline_count("\n"@.drop_last()) == 0);
                assert("\n"@.last() == '\n');
            }
        }
    }
    match op {
        Operation::Create { path, mode } => {
            lemma_mode_line_free(mode@);
            lemma_newline_count_zero("do_create(\""@);
            lemma_newline_count_zero(path@);
            lemma_newline_count_zero("\", "@);
            lemma_newline_count_zero(mode_chars(mode@));
            lemma_newline_count_cat("do_create(\""@, path@);
            lemma_newline_count_cat("do_create(\""@ + path@, "\", "@);
            lemma_newline_count_cat("do_create(\""@ + path@ + "\", "@, mode_chars(mode@));
            lemma_newline_count_cat(
                "do_create(\""@ + path@ + "\", "@ + mode_chars(mode@),
                ");\n"@,
            );
        },
        Operation::MkDir { path, mode } => {
            lemma_mode_line_free(mode@);
            lemma_newline_count_zero("do_mkdir(\""@);
            lemma_newline_count_zero(path@);
            lemma_newline_count_zero("\", "@);
            lemma_newline_count_zero(mode_chars(mode@));
            lemma_newline_count_cat("do_mkdir(\""@, path@);
            lemma_newline_count_cat("do_mkdir(\""@ + path@, "\", "@);
            lemma_newline_count_cat("do_mkdir(\""@ + path@ + "\", "@, mode_chars(mode@));
            lemma_newline_count_cat(
                "do_mkdir(\""@ + path@ + "\", "@ + mode_chars(mode@),
                ");\n"@,
            );
        },
        Operation::Remove { path } => {
            lemma_newline_count_zero("do_remove(\""@);
            lemma_newline_count_zero(path@);
            lemma_newline_count_cat("do_remove(\""@, path@);
            lemma_newline_count_cat("do_remove(\""@ + path@, "\");\n"@);
        },
        Operation::Hardlink { old_path, new_path } => {
            lemma_newline_count_zero("do_hardlink(\""@);
            lemma_newline_count_zero(old_path@);
            lemma_newline_count_zero("\", \""@);
            lemma_newline_count_zero(new_path@);
            lemma_newline_count_cat("do_hardlink(\""@, old_path@);
            lemma_newline_count_cat("do_hardlink(\""@ + old_path@, "\", \""@);
            lemma_newline_count_cat("do_hardlink(\""@ + old_path@ + "\", \""@, new_path@);
            lemma_newline_count_cat(
                "do_hardlink(\""@ + old_path@ + "\", \""@ + new_path@,
                "\");\n"@,
            );
        },
        Operation::Rename { old_path, new_path } => {
            lemma_newline_count_zero("do_rename(\""@);
            lemma_newline_count_zero(old_path@);
            lemma_newline_count_zero("\", \""@);
            lemma_newline_count_zero(new_path@);
            lemma_newline_count_cat("do_rename(\""@, old_path@);
            lemma_newline_count_cat("do_rename(\""@ + old_path@, "\", \""@);
            lemma_newline_count_cat("do_rename(\""@ + old_path@ + "\", \""@, new_path@);
            lemma_newline_count_cat(
                "do_rename(\""@ + old_path@ + "\", \""@ + new_path@,
                "\");\n"@,
            );
        },
        Operation::Open { path, des } => {
            lemma_descriptor_line_free(des.0 as int);
            lemma_newline_count_zero(descriptor_chars(des.0 as int));
            lemma_newline_count_zero(" = do_open(\""@);
            lemma_newline_count_zero(path@);
            lemma_newline_count_cat(descriptor_chars(des.0 as int), " = do_open(\""@);
            lemma_newline_count_cat(
                descriptor_chars(des.0 as int) + " = do_open(\""@,
                path@,
            );
            lemma_newline_count_cat(
                descriptor_chars(des.0 as int) + " = do_open(\""@ + path@,
                "\");\n"@,
            );
        },
        Operation::Close { des } => {
            lemma_descriptor_line_free(des.0 as int);
            lemma_newline_count_zero("do_close("@);
            lemma_newline_count_zero(descriptor_chars(des.0 as int));
            lemma_newline_count_cat("do_close("@, descriptor_chars(des.0 as int));
            lemma_newline_count_cat(
                "do_close("@ + descriptor_chars(des.0 as int),
                ");\n"@,
            );
        },
        Operation::Read { des, size } => {
            lemma_descriptor_line_free(des.0 as int);
            lemma_digits_line_free(size as int);
            lemma_newline_count_zero("do_read("@);
            lemma_newline_count_zero(descriptor_chars(des.0 as int));
            lemma_newline_count_zero(", "@);
            lemma_newline_count_zero(crate::text::dec_digits(size as int));
            lemma_newline_count_cat("do_read("@, descriptor_chars(des.0 as int));
            lemma_newline_count_cat("do_read("@ + descriptor_chars(des.0 as int), ", "@);
            lemma_newline_count_cat(
                "do_read("@ + descriptor_chars(des.0 as int) + ", "@,
                crate::text::dec_digits(size as int),
            );
            lemma_newline_count_cat(
                "do_read("@ + descriptor_chars(des.0 as int) + ", "@ + crate::text::dec_digits(
                    size as int,
                ),
                ");\n"@,
            );
        },
        Operation::Write { des, src_offset, size } => {
            lemma_descriptor_line_free(des.0 as int);
            lemma_digits_line_free(src_offset as int);
            lemma_digits_line_free(size as int);
            lemma_newline_count_zero("do_write("@);
            lemma_newline_count_zero(descriptor_chars(des.0 as int));
            lemma_newline_count_zero(", "@);
            lemma_newline_count_zero(crate::text::dec_digits(src_offset as int));
            lemma_newline_count_zero(crate::text::dec_digits(size as int));
            lemma_newline_count_cat("do_write("@, descriptor_chars(des.0 as int));
            lemma_newline_count_cat("do_write("@ + descriptor_chars(des.0 as int), ", "@);
            lemma_newline_count_cat(
                "do_write("@ + descriptor_chars(des.0 as int) + ", "@,
                crate::text::dec_digits(src_offset as int),
            );
            lemma_newline_count_cat(
                "do_write("@ + descriptor_chars(des.0 as int) + ", "@ + crate::text::dec_digits(
                    src_offset as int,
                ),
                ", "@,
            );
            lemma_newline_count_cat(
                "do_write("@ + descriptor_chars(des.0 as int) + ", "@ + crate::text::dec_digits(
                    src_offset as int,
                ) + ", "@,
                crate::text::dec_digits(size as int),
            );
            lemma_newline_count_cat(
                "do_write("@ + descriptor_chars(des.0 as int) + ", "@ + crate::text::dec_digits(
                    src_offset as int,
                ) + ", "@ + crate::text::dec_digits(size as int),
                ");\n"@,
            );
        },
        Operation::FSync { des } => {
            lemma_descriptor_line_free(des.0 as int);
            lemma_newline_count_zero("do_fsync("@);
            lemma_newline_count_zero(descriptor_chars(des.0 as int));
            lemma_newline_count_cat("do_fsync("@, descriptor_chars(des.0 as int));
            lemma_newline_count_cat(
                "do_fsync("@ + descriptor_chars(des.0 as int),
                ");\n"@,
            );
        },
        Operation::Symlink { target, linkpath } => {
            lemma_newline_count_zero("do_symlink(\""@);
            lemma_newline_count_zero(target@);
            lemma_newline_count_zero("\", \""@);
            lemma_newline_count_zero(linkpath@);
            lemma_newline_count_cat("do_symlink(\""@, target@);
            lemma_newline_count_cat("do_symlink(\""@ + target@, "\", \""@);
            lemma_newline_count_cat("do_symlink(\""@ + target@ + "\", \""@, linkpath@);
            lemma_newline_count_cat(
                "do_symlink(\""@ + target@ + "\", \""@ + linkpath@,
                "\");\n"@,
            );
        },
    }
}

/// The rendered body holds exactly one line per operation, in workload
/// order: it is the in-order concatenation of each operation's single
/// line.
pub proof fn lemma_one_line_per_op(ops: Seq<Operation>)
    requires
        forall|i: int| 0 <= i < ops.len() ==> op_text_line_free(#[trigger] ops[i]),
    ensures
        newline_count(body_chars(ops)) == ops.len(),
        ops.len() > 0 ==> body_chars(ops) == body_chars(ops.drop_last()) + op_line(ops.last()),
    decreases ops.len(),
{
    if ops.len() > 0 {
        assert(forall|i: int|
            0 <= i < ops.drop_last().len() ==> op_text_line_free(#[trigger] ops.drop_last()[i]));
        lemma_one_line_per_op(ops.drop_last());
        lemma_op_line_single(ops.last());
        lemma_newline_count_cat(body_chars(ops.drop_last()), op_line(ops.last()));
    }
}

} // verus!
