use reowolf::ast::{
    Expression, Heap, LocalStatement, PrimitiveType, Statement, StatementId, UnaryOperation,
};
use reowolf::inputsource::{InputSource, ParseError};
use reowolf::lexer::Lexer;

fn lexer(text: &str) -> Lexer {
    Lexer::new(InputSource::from_string(text).unwrap())
}

fn show(err: &ParseError, lex: &Lexer) {
    let mut out = Vec::new();
    err.write(lex.source(), &mut out);
    println!("{}", String::from_utf8_lossy(&out));
}

fn stmt(h: &Heap, id: StatementId) -> &Statement {
    &h.statements[id.0]
}

#[test]
fn test_basic_statement() {
    let mut h = Heap::new();
    let mut lex = lexer("while (true) { skip; }");
    match lex.consume_statement(&mut h) {
        Ok(s) => {
            println!("{:#?}", s);
            if let Statement::While(w) = stmt(&h, s) {
                if let Expression::Constant(_) = h.expressions[w.test.0] {
                    if let Statement::Block(_) = stmt(&h, w.body) {
                        return;
                    }
                }
            }
            assert!(false);
        }
        Err(err) => {
            show(&err, &lex);
            assert!(false);
        }
    }
}

#[test]
fn test_statement() {
    let mut h = Heap::new();
    let mut lex = lexer("label: while (true) { if (x++ > y[0]) break label; else continue; }\n");
    match lex.consume_statement(&mut h) {
        Ok(s) => {
            println!("{:#?}", s);
        }
        Err(err) => {
            show(&err, &lex);
            assert!(false);
        }
    }
}

#[test]
fn labeled_loop_with_if_else_and_jumps() {
    let mut h = Heap::new();
    let mut lex = lexer("label: while (true) { if (x++ > y[0]) break label; else continue; }\n");
    let root = lex.consume_statement(&mut h).unwrap();
    assert_eq!(root.0, h.statements.len() - 1);
    let Statement::Labeled(l) = stmt(&h, root) else { panic!("expected a label") };
    assert_eq!(l.label, b"label".to_vec());
    let Statement::While(w) = stmt(&h, l.body) else { panic!("expected a loop") };
    let Statement::Block(b) = stmt(&h, w.body) else { panic!("expected a block") };
    assert_eq!(b.statements.len(), 1);
    let Statement::If(i) = stmt(&h, b.statements[0]) else { panic!("expected an if") };
    let Expression::Binary(cmp) = &h.expressions[i.test.0] else { panic!("expected a comparison") };
    let Expression::Unary(inc) = &h.expressions[cmp.left.0] else { panic!("expected x++") };
    assert!(matches!(inc.operation, UnaryOperation::PostIncrement));
    let Statement::Break(brk) = stmt(&h, i.true_body) else { panic!("expected break") };
    assert_eq!(brk.label, Some(b"label".to_vec()));
    let Statement::Continue(cont) = stmt(&h, i.false_body) else { panic!("expected continue") };
    assert_eq!(cont.label, None);
    // The line break after the statement is not read.
    assert_eq!(lex.source().next(), Some(b'\n'));
}

#[test]
fn block_with_locals_declares_variables() {
    let mut h = Heap::new();
    let mut lex = lexer("{ channel a -> b; msg[] m = {}; put(a, m); }");
    let root = lex.consume_statement(&mut h).unwrap();
    let Statement::Block(b) = stmt(&h, root) else { panic!() };
    assert_eq!(b.statements.len(), 3);
    let Statement::Local(LocalStatement::Channel(c)) = stmt(&h, b.statements[0]) else { panic!() };
    assert_eq!(h.variables[c.from.0].identifier, b"a".to_vec());
    assert!(matches!(h.variables[c.from.0].the_type.primitive, PrimitiveType::Output));
    assert_eq!(h.variables[c.to.0].identifier, b"b".to_vec());
    assert!(matches!(h.variables[c.to.0].the_type.primitive, PrimitiveType::Input));
    let Statement::Local(LocalStatement::Memory(m)) = stmt(&h, b.statements[1]) else { panic!() };
    let v = &h.variables[m.variable.0];
    assert_eq!(v.identifier, b"m".to_vec());
    assert!(matches!(v.the_type.primitive, PrimitiveType::Message));
    assert!(v.the_type.array);
    assert!(matches!(h.expressions[m.initial.0], Expression::Array(_)));
    assert!(matches!(stmt(&h, b.statements[2]), Statement::Put(_)));
}

#[test]
fn empty_block_reads_as_skip() {
    let mut h = Heap::new();
    let mut lex = lexer("{ }");
    let root = lex.consume_statement(&mut h).unwrap();
    assert!(matches!(stmt(&h, root), Statement::Skip(_)));
    assert_eq!(h.statements.len(), 1);
}

#[test]
fn if_without_else_gets_a_skip_branch() {
    let mut h = Heap::new();
    let mut lex = lexer("if (a) skip;  x;");
    let root = lex.consume_statement(&mut h).unwrap();
    let Statement::If(i) = stmt(&h, root) else { panic!() };
    assert!(matches!(stmt(&h, i.false_body), Statement::Skip(_)));
    // The blanks after the true branch are read, the next statement is not.
    assert_eq!(lex.source().next(), Some(b'x'));
}

#[test]
fn synchronous_with_parameters() {
    let mut h = Heap::new();
    let mut lex = lexer("synchronous (in i, out o) { assert(fires(i)); }");
    let root = lex.consume_statement(&mut h).unwrap();
    let Statement::Synchronous(s) = stmt(&h, root) else { panic!() };
    assert_eq!(s.parameters.len(), 2);
    assert_eq!(h.variables[s.parameters[0].0].identifier, b"i".to_vec());
    assert!(matches!(h.variables[s.parameters[1].0].the_type.primitive, PrimitiveType::Output));
}

#[test]
fn synchronous_needs_a_block() {
    let mut h = Heap::new();
    let mut lex = lexer("synchronous x = 1;");
    let err = lex.consume_statement(&mut h).unwrap_err();
    assert_eq!(err.message(), "Expected block statement");
    assert_eq!(err.position().offset, 12);
}

#[test]
fn return_new_goto_and_expression_statements() {
    let mut h = Heap::new();
    let mut lex = lexer("{ return (1); new f(x); goto done; x = 2; }");
    let root = lex.consume_statement(&mut h).unwrap();
    let Statement::Block(b) = stmt(&h, root) else { panic!() };
    assert!(matches!(stmt(&h, b.statements[0]), Statement::Return(_)));
    let Statement::New(n) = stmt(&h, b.statements[1]) else { panic!() };
    assert!(matches!(h.expressions[n.expression.0], Expression::Call(_)));
    let Statement::Goto(g) = stmt(&h, b.statements[2]) else { panic!() };
    assert_eq!(g.label, b"done".to_vec());
    assert!(matches!(stmt(&h, b.statements[3]), Statement::Expression(_)));
}

#[test]
fn missing_semicolon_is_an_error() {
    let mut h = Heap::new();
    let mut lex = lexer("skip }");
    let err = lex.consume_statement(&mut h).unwrap_err();
    assert_eq!(err.message(), "Expected ;");
    assert_eq!(err.position().offset, 5);
}

#[test]
fn channel_needs_blanks_after_the_keyword() {
    let mut h = Heap::new();
    let mut lex = lexer("{ channel(a) -> b; }");
    let err = lex.consume_statement(&mut h).unwrap_err();
    assert_eq!(err.message(), "Expected whitespace");
}

#[test]
fn too_deeply_nested_statement() {
    let mut h = Heap::new();
    let text = "{".repeat(200);
    let mut lex = lexer(&text);
    let err = lex.consume_statement(&mut h).unwrap_err();
    assert_eq!(err.message(), "Too deeply nested statement");
}

#[test]
fn link_next_sets_the_successor() {
    let mut h = Heap::new();
    let mut lex = lexer("skip;");
    let id = lex.consume_statement(&mut h).unwrap();
    let mut s = h.statements[id.0].clone();
    s.link_next(StatementId(7));
    let Statement::Skip(skip) = s else { panic!() };
    assert_eq!(skip.next, Some(StatementId(7)));
}
