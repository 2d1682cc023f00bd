use reowolf::ast::{
    BinaryOperator, Constant, Expression, ExpressionId, Field, Heap, Method, UnaryOperation,
};
use reowolf::inputsource::{InputSource, ParseError};
use reowolf::lexer::Lexer;

fn lexer(text: &str) -> Lexer {
    Lexer::new(InputSource::from_string(text).unwrap())
}

fn show(err: &ParseError, lex: &Lexer) {
    let mut out = Vec::new();
    err.write(lex.source(), &mut out);
    println!("{}", String::from_utf8_lossy(&out));
}

fn at(h: &Heap, id: ExpressionId) -> &Expression {
    &h.expressions[id.0]
}

#[test]
fn test_basic_expression() {
    let mut h = Heap::new();
    let mut lex = lexer("a+b;");
    match lex.consume_expression(&mut h) {
        Ok(expr) => {
            println!("{:?}", expr);
            if let Expression::Binary(bin) = at(&h, expr) {
                if let Expression::Variable(left) = at(&h, bin.left) {
                    if let Expression::Variable(right) = at(&h, bin.right) {
                        assert_eq!("a", String::from_utf8(left.identifier.clone()).unwrap());
                        assert_eq!("b", String::from_utf8(right.identifier.clone()).unwrap());
                        assert_eq!(Some(b';'), lex.source().next());
                        return;
                    }
                }
            }
            assert!(false);
        }
        Err(err) => {
            show(&err, &lex);
            assert!(false);
        }
    }
}

#[test]
fn test_paren_expression() {
    let mut h = Heap::new();
    let mut lex = lexer("(true)");
    match lex.consume_paren_expression(&mut h) {
        Ok(expr) => {
            println!("{:#?}", expr);
            if let Expression::Constant(con) = at(&h, expr) {
                if let Constant::True = con.value {
                    return;
                }
            }
            assert!(false);
        }
        Err(err) => {
            show(&err, &lex);
            assert!(false);
        }
    }
}

#[test]
fn test_expression() {
    let mut h = Heap::new();
    let mut lex = lexer("(x(1+5,get(y))-w[5])+z++\n");
    match lex.consume_expression(&mut h) {
        Ok(expr) => {
            println!("{:#?}", expr);
        }
        Err(err) => {
            show(&err, &lex);
            assert!(false);
        }
    }
}

#[test]
fn expression_tree_of_calls_indexing_and_postfix() {
    let mut h = Heap::new();
    let mut lex = lexer("(x(1+5,get(y))-w[5])+z++\n");
    let root = lex.consume_expression(&mut h).unwrap();
    // The root is the last expression allocated: `(...) + z++`.
    assert_eq!(root.0, h.expressions.len() - 1);
    let Expression::Binary(sum) = at(&h, root) else { panic!("expected a sum") };
    assert!(matches!(sum.operation, BinaryOperator::Add));
    let Expression::Unary(post) = at(&h, sum.right) else { panic!("expected z++") };
    assert!(matches!(post.operation, UnaryOperation::PostIncrement));
    let Expression::Variable(z) = at(&h, post.expression) else { panic!("expected z") };
    assert_eq!(z.identifier, b"z".to_vec());
    let Expression::Binary(diff) = at(&h, sum.left) else { panic!("expected a difference") };
    assert!(matches!(diff.operation, BinaryOperator::Subtract));
    let Expression::Call(call) = at(&h, diff.left) else { panic!("expected a call") };
    assert!(matches!(&call.method, Method::Symbolic(name) if name == b"x"));
    assert_eq!(call.arguments.len(), 2);
    let Expression::Call(get) = at(&h, call.arguments[1]) else { panic!("expected get(y)") };
    assert!(matches!(get.method, Method::Get));
    let Expression::Indexing(index) = at(&h, diff.right) else { panic!("expected w[5]") };
    let Expression::Constant(five) = at(&h, index.index) else { panic!("expected 5") };
    assert!(matches!(&five.value, Constant::Integer(d) if d == b"5"));
    // Every subexpression was allocated before the expression that holds it.
    assert!(sum.left.0 < root.0 && sum.right.0 < root.0);
    // Everything up to the line break is read, and the blanks after the expression too.
    assert_eq!(lex.source().next(), None);
}

#[test]
fn operators_bind_by_precedence() {
    let mut h = Heap::new();
    let mut lex = lexer("a + b * c == d");
    let root = lex.consume_expression(&mut h).unwrap();
    let Expression::Binary(eq) = at(&h, root) else { panic!() };
    assert!(matches!(eq.operation, BinaryOperator::Equality));
    let Expression::Binary(sum) = at(&h, eq.left) else { panic!() };
    assert!(matches!(sum.operation, BinaryOperator::Add));
    let Expression::Binary(product) = at(&h, sum.right) else { panic!() };
    assert!(matches!(product.operation, BinaryOperator::Multiply));
}

#[test]
fn binary_operators_associate_to_the_left() {
    let mut h = Heap::new();
    let mut lex = lexer("a - b - c");
    let root = lex.consume_expression(&mut h).unwrap();
    let Expression::Binary(outer) = at(&h, root) else { panic!() };
    let Expression::Binary(inner) = at(&h, outer.left) else { panic!() };
    assert!(matches!(inner.operation, BinaryOperator::Subtract));
    let Expression::Variable(c) = at(&h, outer.right) else { panic!() };
    assert_eq!(c.identifier, b"c".to_vec());
}

#[test]
fn assignment_and_conditional() {
    let mut h = Heap::new();
    let mut lex = lexer("x += y ? 1 : 'q'");
    let root = lex.consume_expression(&mut h).unwrap();
    let Expression::Assignment(assign) = at(&h, root) else { panic!() };
    let Expression::Conditional(cond) = at(&h, assign.right) else { panic!() };
    let Expression::Constant(q) = at(&h, cond.false_expression) else { panic!() };
    assert!(matches!(&q.value, Constant::Character(d) if d == b"q"));
}

#[test]
fn prefix_slicing_and_selection() {
    let mut h = Heap::new();
    let mut lex = lexer("-a[1..2].length");
    let root = lex.consume_expression(&mut h).unwrap();
    let Expression::Unary(neg) = at(&h, root) else { panic!() };
    assert!(matches!(neg.operation, UnaryOperation::Negative));
    let Expression::Select(sel) = at(&h, neg.expression) else { panic!() };
    assert!(matches!(sel.field, Field::Length));
    let Expression::Slicing(slice) = at(&h, sel.subject) else { panic!() };
    assert_eq!(slice.position.offset, 4);
    let Expression::Variable(a) = at(&h, slice.subject) else { panic!() };
    assert_eq!(a.identifier, b"a".to_vec());
}

#[test]
fn arrays_and_empty_argument_lists() {
    let mut h = Heap::new();
    let mut lex = lexer("{ f(), {}, null }");
    let root = lex.consume_expression(&mut h).unwrap();
    let Expression::Array(arr) = at(&h, root) else { panic!() };
    assert_eq!(arr.elements.len(), 3);
    let Expression::Call(f) = at(&h, arr.elements[0]) else { panic!() };
    assert!(f.arguments.is_empty());
    let Expression::Array(empty) = at(&h, arr.elements[1]) else { panic!() };
    assert!(empty.elements.is_empty());
    let Expression::Constant(null) = at(&h, arr.elements[2]) else { panic!() };
    assert!(matches!(null.value, Constant::Null));
}

#[test]
fn missing_closing_parenthesis_is_an_error() {
    let mut h = Heap::new();
    let mut lex = lexer("(a + b");
    let err = lex.consume_expression(&mut h).unwrap_err();
    assert_eq!(err.position().offset, 6);
    assert_eq!(err.message(), "Expected )");
}

#[test]
fn empty_character_constant_is_an_error() {
    let mut h = Heap::new();
    let mut lex = lexer("''");
    let err = lex.consume_expression(&mut h).unwrap_err();
    assert_eq!(err.message(), "Expected character constant");
}

#[test]
fn too_deep_nesting_is_an_error() {
    let mut h = Heap::new();
    let text = "(".repeat(200);
    let mut lex = lexer(&text);
    let err = lex.consume_expression(&mut h).unwrap_err();
    assert_eq!(err.message(), "Too deeply nested expression");
}
