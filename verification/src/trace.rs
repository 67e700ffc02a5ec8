//! The per-call CSV trace the harness emits, and its parser.
//!
//! A trace is a header line `Index,Command,ReturnCode,Errno` followed by
//! one row per syscall. Empty input is an error; a header alone is an
//! empty but valid trace; a row stops the parse at the first blank line.

use vstd::prelude::*;
use vstd::string::StrSliceExecFns;
use vstd::string::StringExecFns;
use crate::text::{all_digits, dec_val, is_signed_numeral, signed_val};

verus! {

/// One parsed row of the trace.
#[derive(Debug, Clone, PartialEq, Eq)]
pub struct TraceRow {
    pub index: u32,
    pub command: String,
    pub return_code: i32,
    pub errno: String,
}

/// Ghost mirror of a row.
pub ghost struct RowG {
    pub index: int,
    pub command: Seq<char>,
    pub return_code: int,
    pub errno: Seq<char>,
}

pub open spec fn row_abs(r: TraceRow) -> RowG {
    RowG {
        index: r.index as int,
        command: r.command@,
        return_code: r.return_code as int,
        errno: r.errno@,
    }
}

/// A parsed trace.
#[derive(Debug, Clone, PartialEq, Eq)]
pub struct Trace {
    pub rows: Vec<TraceRow>,
}

/// A parse failure.
#[derive(Debug, Clone, Copy, PartialEq, Eq, Structural)]
pub enum TraceError {
    /// The input has no line beyond a possible header.
    EmptyTrace,
    /// A row does not have exactly four columns.
    InvalidColumnsCount,
    /// An integer column does not parse.
    IntParse,
}

/// Index of the first `c` in `s`, or `s.len()`.
pub open spec fn first_ch(s: Seq<char>, c: char) -> int
    decreases s.len(),
{
    if s.len() == 0 {
        0
    } else if s[0] == c {
        0
    } else {
        1 + first_ch(s.skip(1), c)
    }
}

pub proof fn lemma_first_ch(s: Seq<char>, c: char)
    ensures
        0 <= first_ch(s, c) <= s.len(),
        forall|i: int| 0 <= i < first_ch(s, c) ==> s[i] != c,
        first_ch(s, c) < s.len() ==> s[first_ch(s, c)] == c,
    decreases s.len(),
{
    if s.len() == 0 {
    } else if s[0] == c {
    } else {
        lemma_first_ch(s.skip(1), c);
        assert forall|i: int| 0 <= i < first_ch(s, c) implies s[i] != c by {
            if i > 0 {
                assert(s.skip(1)[i - 1] == s[i]);
            }
        }
        if first_ch(s, c) < s.len() {
            assert(s.skip(1)[first_ch(s, c) - 1] == s[first_ch(s, c)]);
        }
    }
}

/// Splits on `c`, keeping empty fields; a string without `c` is one
/// field, so the result is never empty.
pub open spec fn split_on(s: Seq<char>, c: char) -> Seq<Seq<char>>
    decreases s.len(),
{
    let k = first_ch(s, c);
    if k == s.len() {
        seq![s]
    } else {
        proof {
            lemma_first_ch(s, c);
        }
        seq![s.take(k)] + split_on(s.skip(k + 1), c)
    }
}

/// Whether the character counts as blank space.
pub open spec fn is_ws(ch: char) -> bool {
    ch == ' ' || ch == '\t' || ch == '\r' || ch == '\n'
}

pub open spec fn trim_start_chars(s: Seq<char>) -> Seq<char>
    decreases s.len(),
{
    if s.len() > 0 && is_ws(s[0]) {
        trim_start_chars(s.skip(1))
    } else {
        s
    }
}

pub open spec fn trim_end_chars(s: Seq<char>) -> Seq<char>
    decreases s.len(),
{
    if s.len() > 0 && is_ws(s.last()) {
        trim_end_chars(s.drop_last())
    } else {
        s
    }
}

/// The string with blank space removed at both ends.
pub open spec fn trim_chars(s: Seq<char>) -> Seq<char> {
    trim_end_chars(trim_start_chars(s))
}

proof fn lemma_trim_start_skip(s: Seq<char>, a: int)
    requires
        0 <= a <= s.len(),
        forall|i: int| 0 <= i < a ==> is_ws(#[trigger] s[i]),
        a < s.len() ==> !is_ws(s[a]),
    ensures
        trim_start_chars(s) == s.skip(a),
    decreases a,
{
    if a == 0 {
        assert(s.skip(0) =~= s);
    } else {
        assert(is_ws(s[0]));
        assert(forall|i: int| 0 <= i < a - 1 ==> is_ws(#[trigger] s.skip(1)[i]));
        if a - 1 < s.skip(1).len() {
            assert(s.skip(1)[a - 1] == s[a]);
        }
        lemma_trim_start_skip(s.skip(1), a - 1);
        assert(s.skip(1).skip(a - 1) =~= s.skip(a));
    }
}

proof fn lemma_trim_end_take(s: Seq<char>, b: int)
    requires
        0 <= b <= s.len(),
        forall|i: int| b <= i < s.len() ==> is_ws(#[trigger] s[i]),
        b > 0 ==> !is_ws(s[b - 1]),
    ensures
        trim_end_chars(s) == s.take(b),
    decreases s.len() - b,
{
    if b == s.len() {
        assert(s.take(b) =~= s);
    } else {
        assert(is_ws(s.last()));
        assert(forall|i: int| b <= i < s.drop_last().len() ==> is_ws(#[trigger] s.drop_last()[i]));
        if b > 0 {
            assert(s.drop_last()[b - 1] == s[b - 1]);
        }
        lemma_trim_end_take(s.drop_last(), b);
        assert(s.drop_last().take(b) =~= s.take(b));
    }
}

/// Whether the character counts as blank space.
fn is_blank(ch: char) -> (r: bool)
    ensures
        r == is_ws(ch),
{
    ch == ' ' || ch == '\t' || ch == '\r' || ch == '\n'
}

/// Removes blank space at both ends of the string.
pub fn trim(s: &str) -> (r: &str)
    ensures
        r@ == trim_chars(s@),
{
    let n = s.unicode_len();
    let mut a: usize = 0;
    while a < n && is_blank(s.get_char(a))
        invariant
            0 <= a <= n,
            n == s@.len(),
            forall|i: int| 0 <= i < a ==> is_ws(#[trigger] s@[i]),
        decreases n - a,
    {
        a += 1;
    }
    proof {
        lemma_trim_start_skip(s@, a as int);
    }
    let mut b: usize = n;
    while b > a && is_blank(s.get_char(b - 1))
        invariant
            a <= b <= n,
            n == s@.len(),
            forall|i: int| b <= i < n ==> is_ws(#[trigger] s@[i]),
        decreases b,
    {
        b -= 1;
    }
    let r = s.substring_char(a, b);
    proof {
        let t = s@.skip(a as int);
        assert(forall|i: int|
            (b - a) <= i < t.len() ==> is_ws(#[trigger] t[i])) by {
            assert(forall|i: int| 0 <= i < t.len() ==> #[trigger] t[i] == s@[a + i]);
        }
        if b > a {
            assert(t[b - a - 1] == s@[b as int - 1]);
        }
        lemma_trim_end_take(t, b - a as int);
        assert(t.take(b - a as int) =~= s@.subrange(a as int, b as int));
    }
    r
}

/// Splits the string on `sep`, keeping empty fields.
pub fn split_text(s: &str, sep: char) -> (r: Vec<String>)
    ensures
        r@.map_values(|t: String| t@) == split_on(s@, sep),
{
    let n = s.unicode_len();
    let mut r: Vec<String> = Vec::new();
    let mut start: usize = 0;
    let mut i: usize = 0;
    proof {
        assert(s@.skip(0) =~= s@);
        assert(r@.map_values(|t: String| t@) =~= Seq::<Seq<char>>::empty());
    }
    while i < n
        invariant
            0 <= start <= i <= n,
            n == s@.len(),
            forall|k: int| start <= k < i ==> s@[k] != sep,
            split_on(s@, sep) == r@.map_values(|t: String| t@) + split_on(
                s@.skip(start as int),
                sep,
            ),
        decreases n - i,
    {
        if s.get_char(i) == sep {
            let piece = String::from_str(s.substring_char(start, i));
            proof {
                let t = s@.skip(start as int);
                lemma_first_ch(t, sep);
                assert(forall|k: int| 0 <= k < t.len() ==> #[trigger] t[k] == s@[start + k]);
                let k = i - start;
                assert(t[k as int] == sep);
                if first_ch(t, sep) < k {
                    assert(t[first_ch(t, sep)] != sep);
                }
                if first_ch(t, sep) > k {
                    assert(t[k as int] != sep);
                }
                assert(first_ch(t, sep) == k);
                assert(t.take(k as int) =~= piece@);
                assert(t.skip(k + 1) =~= s@.skip(i as int + 1));
                assert(split_on(t, sep) == seq![piece@] + split_on(s@.skip(i as int + 1), sep));
                assert(r@.push(piece).map_values(|t2: String| t2@) =~= r@.map_values(
                    |t2: String| t2@,
                ).push(piece@));
                assert(r@.map_values(|t2: String| t2@).push(piece@) + split_on(
                    s@.skip(i as int + 1),
                    sep,
                ) =~= r@.map_values(|t2: String| t2@) + (seq![piece@] + split_on(
                    s@.skip(i as int + 1),
                    sep,
                )));
            }
            r.push(piece);
            start = i + 1;
        }
        i += 1;
    }
    let piece = String::from_str(s.substring_char(start, n));
    proof {
        let t = s@.skip(start as int);
        lemma_first_ch(t, sep);
        assert(forall|k: int| 0 <= k < t.len() ==> #[trigger] t[k] == s@[start + k]);
        if first_ch(t, sep) < t.len() {
            assert(t[first_ch(t, sep)] != sep);
        }
        assert(first_ch(t, sep) == t.len());
        assert(split_on(t, sep) == seq![t]);
        assert(t =~= piece@);
        assert(r@.push(piece).map_values(|t2: String| t2@) =~= r@.map_values(
            |t2: String| t2@,
        ).push(piece@));
        assert(r@.map_values(|t2: String| t2@).push(piece@) =~= r@.map_values(|t2: String| t2@)
            + seq![piece@]);
    }
    let mut r = r;
    r.push(piece);
    r
}

/// The value a row's four columns parse to, if they all parse.
pub open spec fn parse_row_g(line: Seq<char>) -> Result<RowG, TraceError> {
    let cols = split_on(line, ',');
    if cols.len() != 4 {
        Err(TraceError::InvalidColumnsCount)
    } else {
        let ix = trim_chars(cols[0]);
        let rc = trim_chars(cols[2]);
        if !(all_digits(ix) && dec_val(ix) <= u32::MAX as int) {
            Err(TraceError::IntParse)
        } else if !(is_signed_numeral(rc) && i32::MIN as int <= signed_val(rc) <= i32::MAX
            as int) {
            Err(TraceError::IntParse)
        } else {
            Ok(
                RowG {
                    index: dec_val(ix),
                    command: trim_chars(cols[1]),
                    return_code: signed_val(rc),
                    errno: trim_chars(cols[3]),
                },
            )
        }
    }
}

/// Parses the lines after the header: rows until a blank line.
pub open spec fn parse_rows_g(lines: Seq<Seq<char>>) -> Result<Seq<RowG>, TraceError>
    decreases lines.len(),
{
    if lines.len() == 0 {
        Ok(Seq::empty())
    } else if trim_chars(lines[0]).len() == 0 {
        Ok(Seq::empty())
    } else {
        match parse_row_g(lines[0]) {
            Err(e) => Err(e),
            Ok(row) => match parse_rows_g(lines.skip(1)) {
                Err(e) => Err(e),
                Ok(rest) => Ok(seq![row] + rest),
            },
        }
    }
}

/// What a whole trace text parses to.
pub open spec fn parse_trace_g(s: Seq<char>) -> Result<Seq<RowG>, TraceError> {
    let lines = split_on(s, '\n');
    if lines.len() <= 1 {
        Err(TraceError::EmptyTrace)
    } else {
        parse_rows_g(lines.skip(1))
    }
}

/// Parses the CSV text of a trace: a header line, then one row of four
/// columns per syscall; parsing stops at the first blank line.
pub fn parse_trace(trace: String) -> (r: Result<Trace, TraceError>)
    ensures
        match r {
            Ok(t) => parse_trace_g(trace@) == Ok::<Seq<RowG>, TraceError>(
                t.rows@.map_values(|row: TraceRow| row_abs(row)),
            ),
            Err(e) => parse_trace_g(trace@) == Err::<Seq<RowG>, TraceError>(e),
        },
{
    let lines = split_text(trace.as_str(), '\n');
    let ghost linesg = split_on(trace@, '\n');
    if lines.len() <= 1 {
        return Err(TraceError::EmptyTrace);
    }
    let mut rows: Vec<TraceRow> = Vec::new();
    let mut i: usize = 1;
    proof {
        assert(linesg.skip(1).skip(0) =~= linesg.skip(1));
        assert(rows@.map_values(|row: TraceRow| row_abs(row)) =~= Seq::<RowG>::empty());
    }
    while i < lines.len()
        invariant
            1 <= i <= lines@.len(),
            lines@.map_values(|t: String| t@) == linesg,
            linesg == split_on(trace@, '\n'),
            linesg.len() == lines@.len(),
            linesg.len() > 1,
            parse_rows_g(linesg.skip(1)) matches Ok(all) ==> all == rows@.map_values(
                |row: TraceRow| row_abs(row),
            ) + (match parse_rows_g(linesg.skip(i as int)) {
                Ok(rest) => rest,
                Err(_) => Seq::empty(),
            }),
            parse_rows_g(linesg.skip(1)) is Err <==> parse_rows_g(linesg.skip(i as int)) is Err,
            parse_rows_g(linesg.skip(1)) matches Err(e) ==> parse_rows_g(linesg.skip(i as int))
                == Err::<Seq<RowG>, TraceError>(e),
        decreases lines@.len() - i,
    {
        proof {
            assert(linesg.skip(i as int)[0] == linesg[i as int]);
            assert(linesg[i as int] == lines@.map_values(|t: String| t@)[i as int]);
            assert(linesg.skip(i as int).skip(1) =~= linesg.skip(i as int + 1));
        }
        let line = trim(lines[i].as_str());
        if line.unicode_len() == 0 {
            proof {
                assert(trim_chars(linesg[i as int]).len() == 0);
                assert(parse_rows_g(linesg.skip(i as int)) == Ok::<Seq<RowG>, TraceError>(
                    Seq::empty(),
                ));
                assert(rows@.map_values(|row: TraceRow| row_abs(row)) + Seq::<RowG>::empty()
                    =~= rows@.map_values(|row: TraceRow| row_abs(row)));
            }
            return Ok(Trace { rows });
        }
        let columns = split_text(lines[i].as_str(), ',');
        let ghost colsg = split_on(linesg[i as int], ',');
        if columns.len() != 4 {
            return Err(TraceError::InvalidColumnsCount);
        }
        proof {
            assert(colsg[0] == columns@.map_values(|t: String| t@)[0]);
            assert(colsg[1] == columns@.map_values(|t: String| t@)[1]);
            assert(colsg[2] == columns@.map_values(|t: String| t@)[2]);
            assert(colsg[3] == columns@.map_values(|t: String| t@)[3]);
        }
        let ix_str = trim(columns[0].as_str());
        let index = match crate::text::parse_u64(ix_str) {
            Some(v) => {
                if v <= u32::MAX as u64 {
                    v as u32
                } else {
                    return Err(TraceError::IntParse);
                }
            },
            None => {
                return Err(TraceError::IntParse);
            },
        };
        let command = String::from_str(trim(columns[1].as_str()));
        let rc_str = trim(columns[2].as_str());
        let return_code = match crate::text::parse_i64(rc_str) {
            Some(v) => {
                if i32::MIN as i64 <= v && v <= i32::MAX as i64 {
                    v as i32
                } else {
                    return Err(TraceError::IntParse);
                }
            },
            None => {
                return Err(TraceError::IntParse);
            },
        };
        let errno = String::from_str(trim(columns[3].as_str()));
        let row = TraceRow { index, command, return_code, errno };
        proof {
            assert(parse_row_g(linesg[i as int]) == Ok::<RowG, TraceError>(row_abs(row)));
            assert(rows@.push(row).map_values(|r2: TraceRow| row_abs(r2)) =~= rows@.map_values(
                |r2: TraceRow| row_abs(r2),
            ).push(row_abs(row)));
            match parse_rows_g(linesg.skip(i as int + 1)) {
                Ok(rest) => {
                    assert(parse_rows_g(linesg.skip(i as int)) == Ok::<Seq<RowG>, TraceError>(
                        seq![row_abs(row)] + rest,
                    ));
                    assert(rows@.map_values(|r2: TraceRow| row_abs(r2)).push(row_abs(row)) + rest
                        =~= rows@.map_values(|r2: TraceRow| row_abs(r2)) + (seq![row_abs(row)]
                        + rest));
                },
                Err(_) => {},
            }
        }
        rows.push(row);
        i += 1;
    }
    proof {
        assert(linesg.skip(linesg.len() as int).len() == 0);
        assert(parse_rows_g(linesg.skip(linesg.len() as int)) == Ok::<Seq<RowG>, TraceError>(
            Seq::empty(),
        ));
        assert(rows@.map_values(|row: TraceRow| row_abs(row)) + Seq::<RowG>::empty()
            =~= rows@.map_values(|row: TraceRow| row_abs(row)));
    }
    Ok(Trace { rows })
}

impl Trace {
    /// The rows whose errno is not `Success(0)`.
    pub fn errors(&self) -> (r: Vec<TraceRow>)
        ensures
            r@.map_values(|row: TraceRow| row_abs(row)) == self.rows@.map_values(
                |row: TraceRow| row_abs(row),
            ).filter(|g: RowG| g.errno != "Success(0)"@),
    {
        let ghost pred = |g: RowG| g.errno != "Success(0)"@;
        let ghost all = self.rows@.map_values(|row: TraceRow| row_abs(row));
        let mut r: Vec<TraceRow> = Vec::new();
        let mut i: usize = 0;
        proof {
            reveal(Seq::filter);
            assert(all.take(0) =~= Seq::<RowG>::empty());
            assert(r@.map_values(|row: TraceRow| row_abs(row)) =~= Seq::<RowG>::empty());
            assert(Seq::<RowG>::empty().filter(pred) =~= Seq::<RowG>::empty());
        }
        while i < self.rows.len()
            invariant
                0 <= i <= self.rows@.len(),
                all == self.rows@.map_values(|row: TraceRow| row_abs(row)),
                all.len() == self.rows@.len(),
                pred == (|g: RowG| g.errno != "Success(0)"@),
                r@.map_values(|row: TraceRow| row_abs(row)) == all.take(i as int).filter(pred),
            decreases self.rows@.len() - i,
        {
            proof {
                reveal(Seq::filter);
                assert(all.take(i as int + 1).drop_last() =~= all.take(i as int));
                assert(all.take(i as int + 1).last() == all[i as int]);
                assert(all[i as int] == row_abs(self.rows@[i as int]));
            }
            if !crate::text::str_eq(self.rows[i].errno.as_str(), "Success(0)") {
                let ghost r0 = r@;
                r.push(
                    TraceRow {
                        index: self.rows[i].index,
                        command: self.rows[i].command.clone(),
                        return_code: self.rows[i].return_code,
                        errno: self.rows[i].errno.clone(),
                    },
                );
                proof {
                    assert(row_abs(r@[r@.len() - 1]) == row_abs(self.rows@[i as int]));
                    assert(r@.map_values(|row: TraceRow| row_abs(row)) =~= r0.map_values(
                        |row: TraceRow| row_abs(row),
                    ).push(row_abs(self.rows@[i as int])));
                }
            }
            i += 1;
        }
        proof {
            assert(all.take(all.len() as int) =~= all);
        }
        r
    }

    /// How many rows the trace holds.
    pub fn len(&self) -> (r: usize)
        ensures
            r == self.rows@.len(),
    {
        self.rows.len()
    }
}

} // verus!
