use reowolf::ast::{
    ArrayExpression, AssignmentExpression, AssignmentOperator, BinaryExpression, BinaryOperator,
    BlockStatement, CallExpression, Constant, ConstantExpression, Definition,
    DefinitionId, EndWhileStatement, Expression, ExpressionId, ExpressionStatement, Field, Heap,
    IndexingExpression, LocalStatement, MemoryStatement, Method, PrimitiveType, PutStatement,
    ReturnStatement, SelectExpression, Statement, StatementId, Type, UnaryExpression,
    UnaryOperation, Variable, VariableExpression, VariableId, WhileStatement,
};
use reowolf::common::Key;
use reowolf::eval::{BooleanValue, ByteValue, IntValue, MessageValue, ShortValue, Value};
use reowolf::inputsource::InputPosition;
use reowolf::prompt::Prompt;
use reowolf::store::{EvalContext, EvalContinuation, PolyAnswers, Store};

fn at() -> InputPosition {
    InputPosition { line: 1, column: 1, offset: 0 }
}

fn lit(text: &str) -> Expression {
    Expression::Constant(ConstantExpression { position: at(), value: Constant::Integer(text.as_bytes().to_vec()) })
}

fn var(v: usize) -> Expression {
    Expression::Variable(VariableExpression { position: at(), identifier: b"x".to_vec(), declaration: Some(VariableId(v)) })
}

fn ty(primitive: PrimitiveType) -> Type {
    Type { primitive, array: false }
}

fn variable(primitive: PrimitiveType) -> Variable {
    Variable { identifier: b"x".to_vec(), the_type: ty(primitive) }
}

fn heap(expressions: Vec<Expression>, variables: Vec<Variable>) -> Heap {
    Heap { expressions, variables, statements: vec![], definitions: vec![] }
}

fn byte_of(r: &Result<Value, EvalContinuation>) -> Option<i8> {
    match r {
        Ok(Value::Byte(ByteValue(b))) => Some(*b),
        _ => None,
    }
}

#[test]
fn eval_constant_is_narrowest_integer() {
    let h = heap(vec![lit("5"), lit("300"), lit("-70000")], vec![]);
    let mut s = Store::new();
    assert_eq!(byte_of(&s.eval(&h, &EvalContext::Detached, ExpressionId(0))), Some(5));
    assert!(matches!(s.eval(&h, &EvalContext::Detached, ExpressionId(1)), Ok(Value::Short(ShortValue(300)))));
    assert!(matches!(s.eval(&h, &EvalContext::Detached, ExpressionId(2)), Ok(Value::Int(IntValue(-70000)))));
}

#[test]
fn eval_assignment_and_compound_assignment() {
    // x = 3; x += 4; x
    let h = heap(
        vec![
            var(0),
            lit("3"),
            Expression::Assignment(AssignmentExpression { position: at(), left: ExpressionId(0), operation: AssignmentOperator::Assigned, right: ExpressionId(1) }),
            lit("4"),
            Expression::Assignment(AssignmentExpression { position: at(), left: ExpressionId(0), operation: AssignmentOperator::Added, right: ExpressionId(3) }),
        ],
        vec![variable(PrimitiveType::Int)],
    );
    let mut s = Store::new();
    let ctx = EvalContext::Detached;
    assert_eq!(byte_of(&s.eval(&h, &ctx, ExpressionId(2))), Some(3));
    // a compound assignment gives the right-hand value
    assert_eq!(byte_of(&s.eval(&h, &ctx, ExpressionId(4))), Some(4));
    assert_eq!(byte_of(&s.eval(&h, &ctx, ExpressionId(0))), Some(7));
}

#[test]
fn eval_increments_and_decrements() {
    let h = heap(
        vec![
            var(0),
            Expression::Unary(UnaryExpression { position: at(), operation: UnaryOperation::PostIncrement, expression: ExpressionId(0) }),
            Expression::Unary(UnaryExpression { position: at(), operation: UnaryOperation::PreIncrement, expression: ExpressionId(0) }),
            Expression::Unary(UnaryExpression { position: at(), operation: UnaryOperation::PreDecrement, expression: ExpressionId(0) }),
        ],
        vec![variable(PrimitiveType::Byte)],
    );
    let mut s = Store::new();
    s.initialize(&h, VariableId(0), Value::Byte(ByteValue(10)));
    let ctx = EvalContext::Detached;
    assert_eq!(byte_of(&s.eval(&h, &ctx, ExpressionId(1))), Some(10));
    assert_eq!(byte_of(&s.eval(&h, &ctx, ExpressionId(0))), Some(11));
    assert_eq!(byte_of(&s.eval(&h, &ctx, ExpressionId(2))), Some(12));
    assert_eq!(byte_of(&s.eval(&h, &ctx, ExpressionId(3))), Some(11));
}

#[test]
fn eval_comparisons_and_remainder() {
    let bin = |l: usize, op: BinaryOperator, r: usize| {
        Expression::Binary(BinaryExpression { position: at(), left: ExpressionId(l), operation: op, right: ExpressionId(r) })
    };
    let h = heap(
        vec![
            lit("-7"),
            lit("3"),
            bin(0, BinaryOperator::Remainder, 1),
            bin(0, BinaryOperator::LessThan, 1),
            bin(0, BinaryOperator::Equality, 1),
            bin(1, BinaryOperator::GreaterThanEqual, 1),
        ],
        vec![],
    );
    let mut s = Store::new();
    let ctx = EvalContext::Detached;
    // the remainder takes the sign of the dividend
    assert_eq!(byte_of(&s.eval(&h, &ctx, ExpressionId(2))), Some(-1));
    assert!(matches!(s.eval(&h, &ctx, ExpressionId(3)), Ok(Value::Boolean(BooleanValue(true)))));
    assert!(matches!(s.eval(&h, &ctx, ExpressionId(4)), Ok(Value::Boolean(BooleanValue(false)))));
    assert!(matches!(s.eval(&h, &ctx, ExpressionId(5)), Ok(Value::Boolean(BooleanValue(true)))));
}

#[test]
fn eval_logical_operators_short_circuit() {
    // false && x, where x is never assigned: the right side is not evaluated
    let h = heap(
        vec![
            Expression::Constant(ConstantExpression { position: at(), value: Constant::False }),
            var(0),
            Expression::Binary(BinaryExpression { position: at(), left: ExpressionId(0), operation: BinaryOperator::LogicalAnd, right: ExpressionId(1) }),
            Expression::Constant(ConstantExpression { position: at(), value: Constant::True }),
            Expression::Binary(BinaryExpression { position: at(), left: ExpressionId(3), operation: BinaryOperator::LogicalOr, right: ExpressionId(1) }),
        ],
        vec![variable(PrimitiveType::Boolean)],
    );
    let mut s = Store::new();
    let ctx = EvalContext::Detached;
    assert!(matches!(s.eval(&h, &ctx, ExpressionId(2)), Ok(Value::Boolean(BooleanValue(false)))));
    assert!(matches!(s.eval(&h, &ctx, ExpressionId(4)), Ok(Value::Boolean(BooleanValue(true)))));
}

#[test]
fn eval_message_indexing_and_length() {
    // m = create(3); m[1] = 5; m[1]; m.length; m[7] = 1 is inconsistent
    let h = heap(
        vec![
            var(0),
            lit("3"),
            Expression::Call(CallExpression { position: at(), method: Method::Create, arguments: vec![ExpressionId(1)], declaration: None }),
            Expression::Assignment(AssignmentExpression { position: at(), left: ExpressionId(0), operation: AssignmentOperator::Assigned, right: ExpressionId(2) }),
            lit("1"),
            Expression::Indexing(IndexingExpression { position: at(), subject: ExpressionId(0), index: ExpressionId(4) }),
            lit("5"),
            Expression::Assignment(AssignmentExpression { position: at(), left: ExpressionId(5), operation: AssignmentOperator::Assigned, right: ExpressionId(6) }),
            Expression::Select(SelectExpression { position: at(), subject: ExpressionId(0), field: Field::Length }),
            lit("7"),
            Expression::Indexing(IndexingExpression { position: at(), subject: ExpressionId(0), index: ExpressionId(9) }),
            Expression::Assignment(AssignmentExpression { position: at(), left: ExpressionId(10), operation: AssignmentOperator::Assigned, right: ExpressionId(4) }),
        ],
        vec![variable(PrimitiveType::Message)],
    );
    let mut s = Store::new();
    let ctx = EvalContext::Detached;
    assert!(s.eval(&h, &ctx, ExpressionId(3)).is_ok());
    assert!(matches!(s.eval(&h, &ctx, ExpressionId(5)), Ok(Value::Short(ShortValue(0)))));
    assert_eq!(byte_of(&s.eval(&h, &ctx, ExpressionId(7))), Some(5));
    assert!(matches!(s.eval(&h, &ctx, ExpressionId(5)), Ok(Value::Short(ShortValue(5)))));
    assert!(matches!(s.eval(&h, &ctx, ExpressionId(8)), Ok(Value::Int(IntValue(3)))));
    assert!(matches!(s.eval(&h, &ctx, ExpressionId(11)), Err(EvalContinuation::Inconsistent)));
    match s.eval(&h, &ctx, ExpressionId(0)) {
        Ok(Value::Message(MessageValue(Some(b)))) => assert_eq!(b, vec![0, 5, 0]),
        _ => panic!("expected a message"),
    }
}

#[test]
fn eval_fires_and_get_consult_the_branch() {
    let input = Value::Input(reowolf::eval::InputValue(Key::from_raw(4)));
    let h = heap(
        vec![
            var(0),
            Expression::Call(CallExpression { position: at(), method: Method::Fires, arguments: vec![ExpressionId(0)], declaration: None }),
            Expression::Call(CallExpression { position: at(), method: Method::Get, arguments: vec![ExpressionId(0)], declaration: None }),
            Expression::Array(ArrayExpression { position: at(), elements: vec![ExpressionId(2)] }),
        ],
        vec![variable(PrimitiveType::Input)],
    );
    let mut s = Store::new();
    s.initialize(&h, VariableId(0), input);
    let known = EvalContext::Poly(PolyAnswers { firing: vec![(Key::from_raw(4), true)], inbox: vec![(Key::from_raw(4), vec![9, 8])] });
    assert!(matches!(s.eval(&h, &known, ExpressionId(1)), Ok(Value::Boolean(BooleanValue(true)))));
    match s.eval(&h, &known, ExpressionId(2)) {
        Ok(Value::Message(MessageValue(Some(b)))) => assert_eq!(b, vec![9, 8]),
        _ => panic!("expected the received message"),
    }
    let unknown = EvalContext::Poly(PolyAnswers { firing: vec![(Key::from_raw(5), false)], inbox: vec![] });
    assert!(matches!(s.eval(&h, &unknown, ExpressionId(1)), Err(EvalContinuation::BlockFires(Value::Input(_)))));
    assert!(matches!(s.eval(&h, &unknown, ExpressionId(2)), Err(EvalContinuation::BlockGet(Value::Input(_)))));
    // an array whose element blocks stops with that continuation
    assert!(matches!(s.eval(&h, &unknown, ExpressionId(3)), Err(EvalContinuation::BlockGet(_))));
}

/// The function `int x = 1; while (x < 3) x++; return x;`, with a put of `x` on port `p`
/// when `put` is set.
fn counting_heap() -> Heap {
    let expressions = vec![
        lit("1"),
        var(0),
        lit("3"),
        Expression::Binary(BinaryExpression { position: at(), left: ExpressionId(1), operation: BinaryOperator::LessThan, right: ExpressionId(2) }),
        Expression::Unary(UnaryExpression { position: at(), operation: UnaryOperation::PostIncrement, expression: ExpressionId(1) }),
    ];
    let statements = vec![
        Statement::Block(BlockStatement { position: at(), statements: vec![StatementId(1)] }),
        Statement::Local(LocalStatement::Memory(MemoryStatement { position: at(), variable: VariableId(0), initial: ExpressionId(0), next: Some(StatementId(2)) })),
        Statement::While(WhileStatement { position: at(), test: ExpressionId(3), body: StatementId(3), next: Some(StatementId(4)) }),
        Statement::Expression(ExpressionStatement { position: at(), expression: ExpressionId(4), next: Some(StatementId(2)) }),
        Statement::EndWhile(EndWhileStatement { position: at(), next: Some(StatementId(5)) }),
        Statement::Return(ReturnStatement { position: at(), expression: ExpressionId(1) }),
    ];
    Heap {
        expressions,
        variables: vec![variable(PrimitiveType::Int)],
        statements,
        definitions: vec![Definition { identifier: b"count".to_vec(), parameters: vec![], body: StatementId(0) }],
    }
}

#[test]
fn prompt_steps_a_function_to_its_return() {
    let h = counting_heap();
    let mut p = Prompt::new(&h, DefinitionId(0), &vec![]);
    assert_eq!(p.position, Some(StatementId(0)));
    let ctx = EvalContext::Detached;
    let mut steps = 0;
    let result = loop {
        match p.step(&h, &ctx) {
            Ok(v) => break v,
            Err(EvalContinuation::Stepping) => steps += 1,
            Err(_) => panic!("a function only steps or returns"),
        }
    };
    assert!(matches!(result, Value::Byte(ByteValue(3))));
    // block, declaration, then (test, body) twice, the failing test, and the end of the loop
    assert_eq!(steps, 8);
}

#[test]
fn prompt_binds_arguments_and_signals_puts() {
    let expressions = vec![var(0), var(1)];
    let statements = vec![
        Statement::Put(PutStatement { position: at(), port: ExpressionId(0), message: ExpressionId(1), next: None }),
    ];
    let h = Heap {
        expressions,
        variables: vec![variable(PrimitiveType::Output), variable(PrimitiveType::Message)],
        statements,
        definitions: vec![Definition { identifier: b"send".to_vec(), parameters: vec![VariableId(0), VariableId(1)], body: StatementId(0) }],
    };
    let args = vec![
        Value::Output(reowolf::eval::OutputValue(Key::from_raw(2))),
        Value::Message(MessageValue(Some(vec![1, 2, 3]))),
    ];
    let mut p = Prompt::new(&h, DefinitionId(0), &args);
    let ctx = EvalContext::Poly(PolyAnswers { firing: vec![], inbox: vec![] });
    match p.step(&h, &ctx) {
        Err(EvalContinuation::Put(Value::Output(port), Value::Message(MessageValue(Some(m))))) => {
            assert_eq!(port.0.to_raw(), 2);
            assert_eq!(m, vec![1, 2, 3]);
        },
        _ => panic!("expected a put"),
    }
    assert_eq!(p.position, None);
    assert!(matches!(p.step(&h, &ctx), Err(EvalContinuation::Terminal)));
}
