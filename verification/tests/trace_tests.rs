use diffuzzer::trace::{parse_trace, Trace, TraceError, TraceRow};

#[test]
fn test_empty_trace() {
    assert_eq!(Err(TraceError::EmptyTrace), parse_trace("".to_owned()))
}

#[test]
fn test_header_only() {
    assert_eq!(
        Ok(Trace { rows: vec![] }),
        parse_trace("Index,Command,ReturnCode,Errno\n".to_owned())
    )
}

#[test]
fn test_invalid_columns_count() {
    let trace = r#"
Index,Command,ReturnCode,Errno
    1,    Foo,        42,Success(0), ???
    2,    Bar,        -1,Error(42)
"#
    .trim();
    assert_eq!(
        Err(TraceError::InvalidColumnsCount),
        parse_trace(trace.to_owned())
    )
}

#[test]
fn test_ok_trace() {
    let trace = r#"
Index,Command,ReturnCode,Errno
    1,    Foo,        42,Success(0)
    2,    Bar,        -1,Error(42)
"#
    .trim();
    assert_eq!(
        Ok(Trace {
            rows: vec![
                TraceRow {
                    index: 1,
                    command: "Foo".to_owned(),
                    return_code: 42,
                    errno: "Success(0)".to_owned(),
                },
                TraceRow {
                    index: 2,
                    command: "Bar".to_owned(),
                    return_code: -1,
                    errno: "Error(42)".to_owned(),
                },
            ]
        }),
        parse_trace(trace.to_owned())
    )
}

#[test]
fn trace_int_parse_error() {
    let trace = "Index,Command,ReturnCode,Errno\n  x,  Foo,  0,Success(0)";
    assert_eq!(Err(TraceError::IntParse), parse_trace(trace.to_owned()));
    let trace2 = "Index,Command,ReturnCode,Errno\n  1,  Foo,  ~,Success(0)";
    assert_eq!(Err(TraceError::IntParse), parse_trace(trace2.to_owned()));
}

#[test]
fn trace_errors_selects_failures() {
    let trace = "Index,Command,ReturnCode,Errno\n1,Foo,0,Success(0)\n2,Bar,-1,Error(2)\n3,Baz,0,Success(0)";
    let parsed = parse_trace(trace.to_owned()).unwrap();
    let errors = parsed.errors();
    assert_eq!(1, errors.len());
    assert_eq!("Bar".to_owned(), errors[0].command);
    assert_eq!(-1, errors[0].return_code);
}
