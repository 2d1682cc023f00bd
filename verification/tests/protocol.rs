use reowolf::ast::{AssignmentOperator, PrimitiveType};
use reowolf::inputsource::{InputPosition, InputSource, ParseError};
use reowolf::lexer::{lowercase, Lexer};

#[test]
fn assert_let() {
    let x = Some(5);
    let z = if let Some(y) = x {
        println!("{:?}", y);
        3
    } else {
        panic!("assert_let failed");
    };
    println!("{:?}", z);
    assert_eq!(z, 3);
}

#[test]
fn test_from_string() {
    let mut is = InputSource::from_string("#version 100\n").unwrap();
    assert!(is.input().len() == 13);
    assert!(is.pos().line == 1);
    assert!(is.pos().column == 1);
    assert!(is.pos().offset == 0);
    let ps = is.pos();
    assert!(ps.line == 1);
    assert!(ps.column == 1);
    assert!(ps.offset == 0);
    assert!(is.next() == Some(b'#'));
    is.consume();
    assert!(is.next() == Some(b'v'));
    assert!(is.lookahead(1) == Some(b'e'));
    is.consume();
    assert!(is.next() == Some(b'e'));
    is.consume();
    assert!(is.next() == Some(b'r'));
    is.consume();
    assert!(is.next() == Some(b's'));
    is.consume();
    assert!(is.next() == Some(b'i'));
    is.consume();
    {
        let ps = is.pos();
        assert_eq!(b"#version 100", ps.context(&is));
        let er = is.error("hello world!".to_string());
        let mut vec: Vec<u8> = Vec::new();
        er.write(&is, &mut vec);
        assert_eq!(
            "Parse error at 1:7: hello world!\n#version 100\n      ^\n",
            String::from_utf8_lossy(&vec)
        );
    }
    assert!(is.next() == Some(b'o'));
    is.consume();
    assert!(is.next() == Some(b'n'));
    is.consume();
    assert!(is.input().len() == 13);
    assert!(is.pos().line == 1);
    assert!(is.pos().column == 9);
    assert!(is.pos().offset == 8);
    assert!(is.next() == Some(b' '));
    is.consume();
    assert!(is.next() == Some(b'1'));
    is.consume();
    assert!(is.next() == Some(b'0'));
    is.consume();
    assert!(is.next() == Some(b'0'));
    is.consume();
    assert!(is.input().len() == 13);
    assert!(is.pos().line == 1);
    assert!(is.pos().column == 13);
    assert!(is.pos().offset == 12);
    assert!(is.next() == Some(b'\n'));
    is.consume();
    assert!(is.input().len() == 13);
    assert!(is.pos().line == 2);
    assert!(is.pos().column == 1);
    assert!(is.pos().offset == 13);
    {
        let ps = is.pos();
        assert_eq!(b"", ps.context(&is));
    }
    assert!(is.next() == None);
    is.consume();
    assert!(is.next() == None);
}

#[test]
fn test_split() {
    let mut is = InputSource::from_string("#version 100\n").unwrap();
    let backup = is.clone();
    assert!(is.next() == Some(b'#'));
    is.consume();
    assert!(is.next() == Some(b'v'));
    is.consume();
    assert!(is.next() == Some(b'e'));
    is.consume();
    is = backup;
    assert!(is.next() == Some(b'#'));
    is.consume();
    assert!(is.next() == Some(b'v'));
    is.consume();
    assert!(is.next() == Some(b'e'));
    is.consume();
}

#[test]
fn test_lowercase() {
    assert_eq!(lowercase(b'a'), b'a');
    assert_eq!(lowercase(b'A'), b'a');
    assert_eq!(lowercase(b'z'), b'z');
    assert_eq!(lowercase(b'Z'), b'z');
}

#[test]
fn lowercase_leaves_other_bytes() {
    assert_eq!(lowercase(b'@'), b'@');
    assert_eq!(lowercase(b'['), b'[');
    assert_eq!(lowercase(b'5'), b'5');
    assert_eq!(lowercase(200), 200);
}

#[test]
fn consume_counts_lines_and_columns() {
    let mut is = InputSource::from_buffer(b"a\r\nb\rc\nd").unwrap();
    let mut seen = Vec::new();
    while let Some(_) = is.next() {
        seen.push((is.pos().line, is.pos().column));
        is.consume();
    }
    // "\r\n" counts as one line break, a lone "\r" as one too
    assert_eq!(seen, vec![(1, 1), (1, 2), (1, 3), (2, 1), (2, 2), (3, 1), (3, 2), (4, 1)]);
    assert!(is.is_eof());
    let end = is.pos();
    assert_eq!((end.line, end.column, end.offset), (4, 2, 8));
}

#[test]
fn lookahead_past_the_end() {
    let is = InputSource::from_string("ab").unwrap();
    assert_eq!(is.lookahead(0), Some(b'a'));
    assert_eq!(is.lookahead(1), Some(b'b'));
    assert_eq!(is.lookahead(2), None);
    assert_eq!(is.lookahead(usize::MAX), None);
}

#[test]
fn reset_goes_back() {
    let mut is = InputSource::from_string("x\ny").unwrap();
    let start = is.pos();
    is.consume();
    is.consume();
    assert_eq!(is.pos().line, 2);
    is.reset(start);
    assert_eq!(is.pos().offset, 0);
    assert_eq!(is.next(), Some(b'x'));
}

#[test]
fn error_report_with_filename_and_tab() {
    let mut is = InputSource::new("proto.pdl".to_string(), b"ok\n\tbad x".to_vec());
    for _ in 0..7 {
        is.consume();
    }
    let err = is.error("Unexpected".to_string());
    assert_eq!(err.position().line, 2);
    assert_eq!(err.position().column, 5);
    let mut out = Vec::new();
    err.write(&is, &mut out);
    assert_eq!(
        String::from_utf8_lossy(&out),
        "Parse error at proto.pdl:2:5: Unexpected\n\tbad x\n\t   ^\n"
    );
}

#[test]
fn eval_error_report() {
    let is = InputSource::from_string("skip;").unwrap();
    let err = reowolf::inputsource::EvalError::new(is.pos(), "boom".to_string());
    let mut out = Vec::new();
    err.write(&is, &mut out);
    assert_eq!(String::from_utf8_lossy(&out), "Evaluation error at 1:1: boom\nskip;\n^\n");
}

#[test]
fn parse_error_new_keeps_position() {
    let pos = InputPosition { line: 3, column: 4, offset: 10 };
    let err = ParseError::new(pos, "m".to_string());
    assert_eq!(err.position().offset, 10);
    assert_eq!(err.message(), "m");
}

#[test]
fn report_of_invalid_utf8_line_is_lossy() {
    let is = InputSource::from_buffer(&[0xffu8, b'a']).unwrap();
    let err = is.error("e".to_string());
    let mut out = Vec::new();
    err.write(&is, &mut out);
    assert_eq!(String::from_utf8_lossy(&out), "Parse error at 1:1: e\n\u{fffd}a\n^\n");
}

fn lexer(text: &str) -> Lexer {
    Lexer::new(InputSource::from_string(text).unwrap())
}

#[test]
fn whitespace_and_comments_are_skipped() {
    let mut lex = lexer("  // note\n /* block\n */\tx");
    assert!(lex.consume_whitespace(true).is_ok());
    assert_eq!(lex.source().next(), Some(b'x'));
    assert_eq!(lex.source().pos().line, 3);
}

#[test]
fn whitespace_expected_but_missing() {
    let mut lex = lexer("x");
    let err = lex.consume_whitespace(true).unwrap_err();
    assert_eq!(err.message(), "Expected whitespace");
    assert_eq!(err.position().offset, 0);
    let mut lex = lexer("x");
    assert!(lex.consume_whitespace(false).is_ok());
}

#[test]
fn line_comment_with_control_byte_fails() {
    let mut lex = lexer("// a\u{7}b\nx");
    let err = lex.consume_whitespace(false).unwrap_err();
    assert_eq!(err.message(), "Expected visible character or whitespace");
    assert_eq!(err.position().offset, 4);
}

#[test]
fn unterminated_block_comment_runs_to_the_end() {
    let mut lex = lexer("/* open");
    assert!(lex.consume_whitespace(true).is_ok());
    assert!(lex.source().is_eof());
}

#[test]
fn keywords_need_a_boundary() {
    let lex = lexer("while(");
    assert!(lex.has_keyword(b"while"));
    let lex = lexer("whiles");
    assert!(!lex.has_keyword(b"while"));
    let lex = lexer("WHILE x");
    assert!(lex.has_keyword(b"while"));
    assert!(lex.has_statement_keyword());
}

#[test]
fn consume_keyword_errors() {
    let mut lex = lexer("WHILE");
    let err = lex.consume_keyword(b"while").unwrap_err();
    assert_eq!(err.message(), "Expected keyword: while");
    let mut lex = lexer("whilex");
    let err = lex.consume_keyword(b"while").unwrap_err();
    assert_eq!(err.message(), "Expected word boundary after keyword: while");
    assert_eq!(err.position().offset, 5);
    let mut lex = lexer("while x");
    assert!(lex.consume_keyword(b"while").is_ok());
    assert_eq!(lex.source().pos().offset, 5);
}

#[test]
fn strings_and_identifiers() {
    let mut lex = lexer("<<= foo_1 bar");
    assert!(lex.has_string(b"<<="));
    assert!(lex.has_assignment_operator());
    assert_eq!(lex.consume_assignment_operator().unwrap(), AssignmentOperator::ShiftedLeft);
    lex.consume_whitespace(true).unwrap();
    assert!(lex.has_identifier());
    assert_eq!(lex.consume_ident().unwrap(), b"foo_1".to_vec());
    let err = lex.consume_string(b"x").unwrap_err();
    assert_eq!(err.message(), "Expected x");
}

#[test]
fn keywords_are_not_identifiers() {
    let mut lex = lexer("int x");
    assert!(!lex.has_identifier());
    assert!(lex.consume_ident().is_err());
    let mut lex = lexer("get");
    assert_eq!(lex.consume_identifier_spilled().unwrap_err().message(), "Expected identifier");
}

#[test]
fn types_with_and_without_arrays() {
    let mut lex = lexer("msg [] rest");
    let err = lex.consume_type().unwrap_err();
    assert_eq!(err.message(), "Expected []");
    let mut lex = lexer("msg[] rest");
    let t = lex.consume_type().unwrap();
    assert_eq!(t.primitive, PrimitiveType::Message);
    assert!(t.array);
    let mut lex = lexer("Foo x");
    let t = lex.consume_type().unwrap();
    assert_eq!(t.primitive, PrimitiveType::Symbolic(b"Foo".to_vec()));
    assert!(!t.array);
}

#[test]
fn lookahead_predicates_consume_nothing() {
    let mut lex = lexer("f (1)");
    assert!(lex.has_call_expression());
    assert_eq!(lex.source().pos().offset, 0);
    let mut lex = lexer("lbl : skip;");
    assert!(lex.has_label());
    let mut lex = lexer("int[] xs = {1};");
    assert!(lex.has_local_statement());
    assert_eq!(lex.source().pos().offset, 0);
    let mut lex = lexer("xs[0] = 1;");
    assert!(!lex.has_local_statement());
    let lex = lexer("#version");
    assert!(lex.has_pragma());
    let lex = lexer("import std;");
    assert!(lex.has_import());
    let lex = lexer("primitive p()");
    assert!(lex.has_symbol_definition());
    let lex = lexer("'a'");
    assert!(lex.has_constant());
}

#[test]
fn consume_line_stops_at_crlf() {
    let mut lex = lexer("abc\r\nd");
    assert_eq!(lex.consume_line().unwrap(), b"abc".to_vec());
    assert_eq!(lex.source().next(), Some(b'd'));
}

#[test]
fn assignment_operator_missing() {
    let mut lex = lexer("+ 1");
    assert!(!lex.has_assignment_operator());
    let err = lex.consume_assignment_operator().unwrap_err();
    assert_eq!(err.message(), "Expected assignment operator");
}
