use vstd::prelude::*;
use crate::inputsource::InputPosition;

verus! {

/// The primitive part of a type: a builtin kind or a symbolic (named) type.
#[derive(Debug, Clone, PartialEq, Eq)]
pub enum PrimitiveType {
    Input,
    Output,
    Message,
    Boolean,
    Byte,
    Short,
    Int,
    Long,
    Symbolic(Vec<u8>),
}

/// A type: a primitive type, possibly as an array.
#[derive(Debug, Clone, PartialEq, Eq)]
pub struct Type {
    pub primitive: PrimitiveType,
    pub array: bool,
}

impl Type {
    pub fn input_type() -> (t: Type)
        ensures
            t == (Type { primitive: PrimitiveType::Input, array: false }),
    {
        Type { primitive: PrimitiveType::Input, array: false }
    }

    pub fn output_type() -> (t: Type)
        ensures
            t == (Type { primitive: PrimitiveType::Output, array: false }),
    {
        Type { primitive: PrimitiveType::Output, array: false }
    }

    pub fn message_type() -> (t: Type)
        ensures
            t == (Type { primitive: PrimitiveType::Message, array: false }),
    {
        Type { primitive: PrimitiveType::Message, array: false }
    }

    pub fn boolean_type() -> (t: Type)
        ensures
            t == (Type { primitive: PrimitiveType::Boolean, array: false }),
    {
        Type { primitive: PrimitiveType::Boolean, array: false }
    }

    pub fn byte_type() -> (t: Type)
        ensures
            t == (Type { primitive: PrimitiveType::Byte, array: false }),
    {
        Type { primitive: PrimitiveType::Byte, array: false }
    }

    pub fn short_type() -> (t: Type)
        ensures
            t == (Type { primitive: PrimitiveType::Short, array: false }),
    {
        Type { primitive: PrimitiveType::Short, array: false }
    }

    pub fn int_type() -> (t: Type)
        ensures
            t == (Type { primitive: PrimitiveType::Int, array: false }),
    {
        Type { primitive: PrimitiveType::Int, array: false }
    }

    pub fn long_type() -> (t: Type)
        ensures
            t == (Type { primitive: PrimitiveType::Long, array: false }),
    {
        Type { primitive: PrimitiveType::Long, array: false }
    }

    /// The array type whose elements have the given primitive type.
    pub fn array_of(primitive: PrimitiveType) -> (t: Type)
        ensures
            t == (Type { primitive, array: true }),
    {
        Type { primitive, array: true }
    }

    /// The source-text rendering of this type, e.g. `msg[]`.
    pub fn to_text(&self) -> (r: Vec<u8>)
        ensures
            r@ == type_text(*self),
    {
        let mut r: Vec<u8> = Vec::new();
        match &self.primitive {
            PrimitiveType::Input => {
                r.push(105u8);
                r.push(110u8);
            },
            PrimitiveType::Output => {
                r.push(111u8);
                r.push(117u8);
                r.push(116u8);
            },
            PrimitiveType::Message => {
                r.push(109u8);
                r.push(115u8);
                r.push(103u8);
            },
            PrimitiveType::Boolean => {
                r.push(98u8);
                r.push(111u8);
                r.push(111u8);
                r.push(108u8);
                r.push(101u8);
                r.push(97u8);
                r.push(110u8);
            },
            PrimitiveType::Byte => {
                r.push(98u8);
                r.push(121u8);
                r.push(116u8);
                r.push(101u8);
            },
            PrimitiveType::Short => {
                r.push(115u8);
                r.push(104u8);
                r.push(111u8);
                r.push(114u8);
                r.push(116u8);
            },
            PrimitiveType::Int => {
                r.push(105u8);
                r.push(110u8);
                r.push(116u8);
            },
            PrimitiveType::Long => {
                r.push(108u8);
                r.push(111u8);
                r.push(110u8);
                r.push(103u8);
            },
            PrimitiveType::Symbolic(data) => {
                let mut i: usize = 0;
                while i < data.len()
                    invariant
                        i <= data.len(),
                        r@ == data@.take(i as int),
                    decreases data.len() - i,
                {
                    r.push(data[i]);
                    i += 1;
                    assert(r@ =~= data@.take(i as int));
                }
                assert(r@ =~= data@);
            },
        }
        if self.array {
            let ghost before = r@;
            r.push(91u8);
            r.push(93u8);
            assert(r@ =~= before + seq![91u8, 93u8]);
        }
        assert(r@ =~= type_text(*self));
        r
    }
}

/// The keyword (or name) of a primitive type.
pub open spec fn primitive_text(p: PrimitiveType) -> Seq<u8> {
    match p {
        PrimitiveType::Input => seq![105u8, 110u8],
        PrimitiveType::Output => seq![111u8, 117u8, 116u8],
        PrimitiveType::Message => seq![109u8, 115u8, 103u8],
        PrimitiveType::Boolean => seq![98u8, 111u8, 111u8, 108u8, 101u8, 97u8, 110u8],
        PrimitiveType::Byte => seq![98u8, 121u8, 116u8, 101u8],
        PrimitiveType::Short => seq![115u8, 104u8, 111u8, 114u8, 116u8],
        PrimitiveType::Int => seq![105u8, 110u8, 116u8],
        PrimitiveType::Long => seq![108u8, 111u8, 110u8, 103u8],
        PrimitiveType::Symbolic(data) => data@,
    }
}

/// The source-text rendering of a type.
pub open spec fn type_text(t: Type) -> Seq<u8> {
    if t.array {
        primitive_text(t.primitive) + seq![91u8, 93u8]
    } else {
        primitive_text(t.primitive)
    }
}

/// A literal of the protocol language.
#[derive(Debug, Clone)]
pub enum Constant {
    /// The null message.
    Null,
    True,
    False,
    Character(Vec<u8>),
    Integer(Vec<u8>),
}

#[derive(Debug, Clone, PartialEq, Eq, Structural)]
pub enum AssignmentOperator {
    /// plain assignment, `=`
    Assigned,
    Multiplied,
    Divided,
    Remained,
    Added,
    Subtracted,
    ShiftedLeft,
    ShiftedRight,
    BitwiseAnded,
    BitwiseXored,
    BitwiseOred,
}

#[derive(Debug, Clone, PartialEq, Eq, Structural)]
pub enum BinaryOperator {
    Concatenate,
    LogicalOr,
    LogicalAnd,
    BitwiseOr,
    BitwiseXor,
    BitwiseAnd,
    Equality,
    Inequality,
    LessThan,
    GreaterThan,
    LessThanEqual,
    GreaterThanEqual,
    ShiftLeft,
    ShiftRight,
    Add,
    Subtract,
    Multiply,
    Divide,
    Remainder,
}

#[derive(Debug, Clone, PartialEq, Eq, Structural)]
pub enum UnaryOperation {
    Positive,
    Negative,
    BitwiseNot,
    LogicalNot,
    PreIncrement,
    PreDecrement,
    PostIncrement,
    PostDecrement,
}


/// The index of an expression in the expression arena of a [`Heap`].
#[derive(Debug, Clone, Copy, PartialEq, Eq, Structural)]
pub struct ExpressionId(pub usize);

/// The index of a variable (a parameter or a local) in the variable arena of a [`Heap`].
#[derive(Debug, Clone, Copy, PartialEq, Eq, Structural)]
pub struct VariableId(pub usize);

/// The index of a declaration (of a component or a function).
#[derive(Debug, Clone, Copy, PartialEq, Eq, Structural)]
pub struct DeclarationId(pub usize);

/// The method a call expression invokes: one of the builtins, or a named function or
/// component.
#[derive(Debug, Clone)]
pub enum Method {
    Get,
    Fires,
    Create,
    Symbolic(Vec<u8>),
}

/// The field a select expression reads.
#[derive(Debug, Clone)]
pub enum Field {
    Length,
    Symbolic(Vec<u8>),
}

#[derive(Debug, Clone)]
pub struct AssignmentExpression {
    pub position: InputPosition,
    pub left: ExpressionId,
    pub operation: AssignmentOperator,
    pub right: ExpressionId,
}

#[derive(Debug, Clone)]
pub struct ConditionalExpression {
    pub position: InputPosition,
    pub test: ExpressionId,
    pub true_expression: ExpressionId,
    pub false_expression: ExpressionId,
}

#[derive(Debug, Clone)]
pub struct BinaryExpression {
    pub position: InputPosition,
    pub left: ExpressionId,
    pub operation: BinaryOperator,
    pub right: ExpressionId,
}

#[derive(Debug, Clone)]
pub struct UnaryExpression {
    pub position: InputPosition,
    pub operation: UnaryOperation,
    pub expression: ExpressionId,
}

#[derive(Debug, Clone)]
pub struct IndexingExpression {
    pub position: InputPosition,
    pub subject: ExpressionId,
    pub index: ExpressionId,
}

#[derive(Debug, Clone)]
pub struct SlicingExpression {
    pub position: InputPosition,
    pub subject: ExpressionId,
    pub from_index: ExpressionId,
    pub to_index: ExpressionId,
}

#[derive(Debug, Clone)]
pub struct SelectExpression {
    pub position: InputPosition,
    pub subject: ExpressionId,
    pub field: Field,
}

#[derive(Debug, Clone)]
pub struct ArrayExpression {
    pub position: InputPosition,
    pub elements: Vec<ExpressionId>,
}

#[derive(Debug, Clone)]
pub struct CallExpression {
    pub position: InputPosition,
    pub method: Method,
    pub arguments: Vec<ExpressionId>,
    pub declaration: Option<DeclarationId>,
}

#[derive(Debug, Clone)]
pub struct ConstantExpression {
    pub position: InputPosition,
    pub value: Constant,
}

#[derive(Debug, Clone)]
pub struct VariableExpression {
    pub position: InputPosition,
    pub identifier: Vec<u8>,
    pub declaration: Option<VariableId>,
}

/// An expression of the protocol language; subexpressions are referred to by their index in
/// the expression arena.
#[derive(Debug, Clone)]
pub enum Expression {
    Assignment(AssignmentExpression),
    Conditional(ConditionalExpression),
    Binary(BinaryExpression),
    Unary(UnaryExpression),
    Indexing(IndexingExpression),
    Slicing(SlicingExpression),
    Select(SelectExpression),
    Array(ArrayExpression),
    Constant(ConstantExpression),
    Call(CallExpression),
    Variable(VariableExpression),
}

/// A declared variable: a parameter or a local, with its name and declared type.
#[derive(Debug, Clone)]
pub struct Variable {
    pub identifier: Vec<u8>,
    pub the_type: Type,
}

/// The index of a statement in the statement arena of a [`Heap`].
#[derive(Debug, Clone, Copy, PartialEq, Eq, Structural)]
pub struct StatementId(pub usize);

/// The index of a definition (a component or a function) in the definition arena.
#[derive(Debug, Clone, Copy, PartialEq, Eq, Structural)]
pub struct DefinitionId(pub usize);

#[derive(Debug, Clone)]
pub struct BlockStatement {
    pub position: InputPosition,
    pub statements: Vec<StatementId>,
}

impl BlockStatement {
    /// The first statement of the block, which must not be empty.
    pub fn first(&self) -> (r: StatementId)
        requires
            self.statements@.len() > 0,
        ensures
            r == self.statements@[0],
    {
        self.statements[0]
    }
}

/// Declares a local and initialises it with the value of an expression.
#[derive(Debug, Clone)]
pub struct MemoryStatement {
    pub position: InputPosition,
    pub variable: VariableId,
    pub initial: ExpressionId,
    pub next: Option<StatementId>,
}

/// Declares the two ends of a new channel: `from` (output) and `to` (input).
#[derive(Debug, Clone)]
pub struct ChannelStatement {
    pub position: InputPosition,
    pub from: VariableId,
    pub to: VariableId,
    pub next: Option<StatementId>,
}

#[derive(Debug, Clone)]
pub enum LocalStatement {
    Memory(MemoryStatement),
    Channel(ChannelStatement),
}

impl LocalStatement {
    /// The statement that follows the declaration.
    pub fn next(&self) -> (r: Option<StatementId>)
        ensures
            r == match self {
                LocalStatement::Memory(m) => m.next,
                LocalStatement::Channel(c) => c.next,
            },
    {
        match self {
            LocalStatement::Memory(m) => m.next,
            LocalStatement::Channel(c) => c.next,
        }
    }
}

#[derive(Debug, Clone)]
pub struct SkipStatement {
    pub position: InputPosition,
    pub next: Option<StatementId>,
}

#[derive(Debug, Clone)]
pub struct LabeledStatement {
    pub position: InputPosition,
    pub label: Vec<u8>,
    pub body: StatementId,
}

#[derive(Debug, Clone)]
pub struct IfStatement {
    pub position: InputPosition,
    pub test: ExpressionId,
    pub true_body: StatementId,
    pub false_body: StatementId,
}

#[derive(Debug, Clone)]
pub struct EndIfStatement {
    pub position: InputPosition,
    pub next: Option<StatementId>,
}

#[derive(Debug, Clone)]
pub struct WhileStatement {
    pub position: InputPosition,
    pub test: ExpressionId,
    pub body: StatementId,
    /// The end of the loop.
    pub next: Option<StatementId>,
}

#[derive(Debug, Clone)]
pub struct EndWhileStatement {
    pub position: InputPosition,
    pub next: Option<StatementId>,
}

#[derive(Debug, Clone)]
pub struct BreakStatement {
    pub position: InputPosition,
    pub label: Option<Vec<u8>>,
    /// The end of the loop it leaves.
    pub target: Option<StatementId>,
}

#[derive(Debug, Clone)]
pub struct ContinueStatement {
    pub position: InputPosition,
    pub label: Option<Vec<u8>>,
    /// The loop it continues.
    pub target: Option<StatementId>,
}

#[derive(Debug, Clone)]
pub struct SynchronousStatement {
    pub position: InputPosition,
    pub parameters: Vec<VariableId>,
    pub body: StatementId,
}

#[derive(Debug, Clone)]
pub struct EndSynchronousStatement {
    pub position: InputPosition,
    pub next: Option<StatementId>,
}

#[derive(Debug, Clone)]
pub struct ReturnStatement {
    pub position: InputPosition,
    pub expression: ExpressionId,
}

#[derive(Debug, Clone)]
pub struct AssertStatement {
    pub position: InputPosition,
    pub expression: ExpressionId,
    pub next: Option<StatementId>,
}

#[derive(Debug, Clone)]
pub struct GotoStatement {
    pub position: InputPosition,
    pub label: Vec<u8>,
    /// The labeled statement it jumps to.
    pub target: Option<StatementId>,
}

/// Creates a component: `expression` is the call expression naming it and its arguments.
#[derive(Debug, Clone)]
pub struct NewStatement {
    pub position: InputPosition,
    pub expression: ExpressionId,
    pub next: Option<StatementId>,
}

#[derive(Debug, Clone)]
pub struct PutStatement {
    pub position: InputPosition,
    pub port: ExpressionId,
    pub message: ExpressionId,
    pub next: Option<StatementId>,
}

#[derive(Debug, Clone)]
pub struct ExpressionStatement {
    pub position: InputPosition,
    pub expression: ExpressionId,
    pub next: Option<StatementId>,
}

/// A statement of the protocol language. The parser links each statement to the one that
/// follows it (`next`), and loops and jumps to their targets.
#[derive(Debug, Clone)]
pub enum Statement {
    Block(BlockStatement),
    Local(LocalStatement),
    Skip(SkipStatement),
    Labeled(LabeledStatement),
    If(IfStatement),
    EndIf(EndIfStatement),
    While(WhileStatement),
    EndWhile(EndWhileStatement),
    Break(BreakStatement),
    Continue(ContinueStatement),
    Synchronous(SynchronousStatement),
    EndSynchronous(EndSynchronousStatement),
    Return(ReturnStatement),
    Assert(AssertStatement),
    Goto(GotoStatement),
    New(NewStatement),
    Put(PutStatement),
    Expression(ExpressionStatement),
}

/// Whether `s` is a statement that the parser links to its successor through its `next`
/// field: a local declaration, `skip`, the end of an `if`, of a `while` or of a
/// `synchronous` block, an assertion, `new`, `put` or an expression statement.
pub open spec fn links_next(s: Statement) -> bool {
    match s {
        Statement::Local(_) | Statement::Skip(_) | Statement::EndIf(_) | Statement::EndWhile(_)
        | Statement::EndSynchronous(_) | Statement::Assert(_) | Statement::New(_) | Statement::Put(_)
        | Statement::Expression(_) => true,
        _ => false,
    }
}

/// The successor that `s` names, where it has a `next` field.
pub open spec fn next_of(s: Statement) -> Option<StatementId> {
    match s {
        Statement::Local(LocalStatement::Memory(x)) => x.next,
        Statement::Local(LocalStatement::Channel(x)) => x.next,
        Statement::Skip(x) => x.next,
        Statement::EndIf(x) => x.next,
        Statement::While(x) => x.next,
        Statement::EndWhile(x) => x.next,
        Statement::EndSynchronous(x) => x.next,
        Statement::Assert(x) => x.next,
        Statement::New(x) => x.next,
        Statement::Put(x) => x.next,
        Statement::Expression(x) => x.next,
        _ => None,
    }
}

/// `s` and `t` are the same statement but for the `next` field.
pub open spec fn same_but_next(s: Statement, t: Statement) -> bool {
    match (s, t) {
        (Statement::Local(LocalStatement::Memory(x)), Statement::Local(LocalStatement::Memory(y))) =>
            x.position == y.position && x.variable == y.variable && x.initial == y.initial,
        (Statement::Local(LocalStatement::Channel(x)), Statement::Local(LocalStatement::Channel(y))) =>
            x.position == y.position && x.from == y.from && x.to == y.to,
        (Statement::Skip(x), Statement::Skip(y)) => x.position == y.position,
        (Statement::EndIf(x), Statement::EndIf(y)) => x.position == y.position,
        (Statement::EndWhile(x), Statement::EndWhile(y)) => x.position == y.position,
        (Statement::EndSynchronous(x), Statement::EndSynchronous(y)) => x.position == y.position,
        (Statement::Assert(x), Statement::Assert(y)) => x.position == y.position && x.expression == y.expression,
        (Statement::New(x), Statement::New(y)) => x.position == y.position && x.expression == y.expression,
        (Statement::Put(x), Statement::Put(y)) => x.position == y.position && x.port == y.port && x.message == y.message,
        (Statement::Expression(x), Statement::Expression(y)) => x.position == y.position && x.expression == y.expression,
        _ => false,
    }
}

impl Statement {
    /// Links the statement to the one that follows it. Only the statements of
    /// [`links_next`] are linked this way (a `while` is linked to its end by the parser
    /// itself); the others have no successor to set.
    pub fn link_next(&mut self, next: StatementId)
        requires
            links_next(*old(self)),
        ensures
            same_but_next(*old(self), *final(self)),
            next_of(*final(self)) == Some(next),
    {
        match self {
            Statement::Local(stmt) => match stmt {
                LocalStatement::Channel(stmt) => stmt.next = Some(next),
                LocalStatement::Memory(stmt) => stmt.next = Some(next),
            },
            Statement::Skip(stmt) => stmt.next = Some(next),
            Statement::EndIf(stmt) => stmt.next = Some(next),
            Statement::EndWhile(stmt) => stmt.next = Some(next),
            Statement::EndSynchronous(stmt) => stmt.next = Some(next),
            Statement::Assert(stmt) => stmt.next = Some(next),
            Statement::New(stmt) => stmt.next = Some(next),
            Statement::Put(stmt) => stmt.next = Some(next),
            Statement::Expression(stmt) => stmt.next = Some(next),
            _ => {},
        }
    }
}

/// A component or function: its name, its parameters and its body.
#[derive(Debug, Clone)]
pub struct Definition {
    pub identifier: Vec<u8>,
    pub parameters: Vec<VariableId>,
    pub body: StatementId,
}

/// The arenas the parser fills: the expressions, variables, statements and definitions of a
/// protocol description.
pub struct Heap {
    pub expressions: Vec<Expression>,
    pub variables: Vec<Variable>,
    pub statements: Vec<Statement>,
    pub definitions: Vec<Definition>,
}

/// Every expression that `e` refers to directly (not counting the declaration of a variable).
pub open spec fn children(e: Expression) -> Seq<ExpressionId> {
    match e {
        Expression::Assignment(a) => seq![a.left, a.right],
        Expression::Conditional(c) => seq![c.test, c.true_expression, c.false_expression],
        Expression::Binary(b) => seq![b.left, b.right],
        Expression::Unary(u) => seq![u.expression],
        Expression::Indexing(i) => seq![i.subject, i.index],
        Expression::Slicing(s) => seq![s.subject, s.from_index, s.to_index],
        Expression::Select(s) => seq![s.subject],
        Expression::Array(a) => a.elements@,
        Expression::Constant(_) => seq![],
        Expression::Call(c) => c.arguments@,
        Expression::Variable(_) => seq![],
    }
}

impl Heap {
    /// An empty heap.
    pub fn new() -> (r: Heap)
        ensures
            r.expressions@.len() == 0,
            r.variables@.len() == 0,
            r.statements@.len() == 0,
            r.definitions@.len() == 0,
            r.wf(),
    {
        Heap { expressions: Vec::new(), variables: Vec::new(), statements: Vec::new(), definitions: Vec::new() }
    }

    /// The expression at index `e`.
    pub open spec fn expr(self, e: int) -> Expression {
        self.expressions@[e]
    }

    /// Well-formed, as the parser builds it: a subexpression is allocated before the
    /// expression that holds it, so every expression refers only to expressions of smaller
    /// index, and every variable expression to a declared variable.
    pub open spec fn wf(self) -> bool {
        &&& forall|e: int, k: int|
            0 <= e < self.expressions.len() && 0 <= k < children(#[trigger] self.expr(e)).len()
                ==> #[trigger] children(self.expr(e))[k].0 < e
        &&& forall|e: int|
            0 <= e < self.expressions.len() ==> match #[trigger] self.expr(e) {
                Expression::Variable(v) => v.declaration matches Some(d) ==> d.0 < self.variables.len(),
                _ => true,
            }
    }
}


/// A literal as mathematics sees it.
pub enum ConstantView {
    Null,
    True,
    False,
    Character(Seq<u8>),
    Integer(Seq<u8>),
}

pub enum MethodView {
    Get,
    Fires,
    Create,
    Symbolic(Seq<u8>),
}

pub enum FieldView {
    Length,
    Symbolic(Seq<u8>),
}

/// An expression as mathematics sees it: the position it starts at, then its parts in the
/// order of its fields.
pub enum ExprView {
    Assignment(InputPosition, ExpressionId, AssignmentOperator, ExpressionId),
    Conditional(InputPosition, ExpressionId, ExpressionId, ExpressionId),
    Binary(InputPosition, ExpressionId, BinaryOperator, ExpressionId),
    Unary(InputPosition, UnaryOperation, ExpressionId),
    Indexing(InputPosition, ExpressionId, ExpressionId),
    Slicing(InputPosition, ExpressionId, ExpressionId, ExpressionId),
    Select(InputPosition, ExpressionId, FieldView),
    Array(InputPosition, Seq<ExpressionId>),
    Constant(InputPosition, ConstantView),
    Call(InputPosition, MethodView, Seq<ExpressionId>, Option<DeclarationId>),
    Variable(InputPosition, Seq<u8>, Option<VariableId>),
}

impl View for Constant {
    type V = ConstantView;

    open spec fn view(&self) -> ConstantView {
        match self {
            Constant::Null => ConstantView::Null,
            Constant::True => ConstantView::True,
            Constant::False => ConstantView::False,
            Constant::Character(d) => ConstantView::Character(d@),
            Constant::Integer(d) => ConstantView::Integer(d@),
        }
    }
}

impl View for Method {
    type V = MethodView;

    open spec fn view(&self) -> MethodView {
        match self {
            Method::Get => MethodView::Get,
            Method::Fires => MethodView::Fires,
            Method::Create => MethodView::Create,
            Method::Symbolic(d) => MethodView::Symbolic(d@),
        }
    }
}

impl View for Field {
    type V = FieldView;

    open spec fn view(&self) -> FieldView {
        match self {
            Field::Length => FieldView::Length,
            Field::Symbolic(d) => FieldView::Symbolic(d@),
        }
    }
}

impl View for Expression {
    type V = ExprView;

    open spec fn view(&self) -> ExprView {
        match self {
            Expression::Assignment(x) => ExprView::Assignment(x.position, x.left, x.operation, x.right),
            Expression::Conditional(x) => ExprView::Conditional(x.position, x.test, x.true_expression, x.false_expression),
            Expression::Binary(x) => ExprView::Binary(x.position, x.left, x.operation, x.right),
            Expression::Unary(x) => ExprView::Unary(x.position, x.operation, x.expression),
            Expression::Indexing(x) => ExprView::Indexing(x.position, x.subject, x.index),
            Expression::Slicing(x) => ExprView::Slicing(x.position, x.subject, x.from_index, x.to_index),
            Expression::Select(x) => ExprView::Select(x.position, x.subject, x.field@),
            Expression::Array(x) => ExprView::Array(x.position, x.elements@),
            Expression::Constant(x) => ExprView::Constant(x.position, x.value@),
            Expression::Call(x) => ExprView::Call(x.position, x.method@, x.arguments@, x.declaration),
            Expression::Variable(x) => ExprView::Variable(x.position, x.identifier@, x.declaration),
        }
    }
}

/// A primitive type as mathematics sees it.
pub enum PrimitiveView {
    Input,
    Output,
    Message,
    Boolean,
    Byte,
    Short,
    Int,
    Long,
    Symbolic(Seq<u8>),
}

/// A type as mathematics sees it.
pub struct TypeView {
    pub primitive: PrimitiveView,
    pub array: bool,
}

impl View for PrimitiveType {
    type V = PrimitiveView;

    open spec fn view(&self) -> PrimitiveView {
        match self {
            PrimitiveType::Input => PrimitiveView::Input,
            PrimitiveType::Output => PrimitiveView::Output,
            PrimitiveType::Message => PrimitiveView::Message,
            PrimitiveType::Boolean => PrimitiveView::Boolean,
            PrimitiveType::Byte => PrimitiveView::Byte,
            PrimitiveType::Short => PrimitiveView::Short,
            PrimitiveType::Int => PrimitiveView::Int,
            PrimitiveType::Long => PrimitiveView::Long,
            PrimitiveType::Symbolic(d) => PrimitiveView::Symbolic(d@),
        }
    }
}

impl View for Type {
    type V = TypeView;

    open spec fn view(&self) -> TypeView {
        TypeView { primitive: self.primitive@, array: self.array }
    }
}

/// A variable as mathematics sees it: its name and its type.
pub struct VarView {
    pub identifier: Seq<u8>,
    pub the_type: TypeView,
}

impl View for Variable {
    type V = VarView;

    open spec fn view(&self) -> VarView {
        VarView { identifier: self.identifier@, the_type: self.the_type@ }
    }
}

/// A statement as mathematics sees it: the position it starts at, then its parts in the
/// order of its fields.
pub enum StmtView {
    Block(InputPosition, Seq<StatementId>),
    Memory(InputPosition, VariableId, ExpressionId, Option<StatementId>),
    Channel(InputPosition, VariableId, VariableId, Option<StatementId>),
    Skip(InputPosition, Option<StatementId>),
    Labeled(InputPosition, Seq<u8>, StatementId),
    If(InputPosition, ExpressionId, StatementId, StatementId),
    EndIf(InputPosition, Option<StatementId>),
    While(InputPosition, ExpressionId, StatementId, Option<StatementId>),
    EndWhile(InputPosition, Option<StatementId>),
    Break(InputPosition, Option<Seq<u8>>, Option<StatementId>),
    Continue(InputPosition, Option<Seq<u8>>, Option<StatementId>),
    Synchronous(InputPosition, Seq<VariableId>, StatementId),
    EndSynchronous(InputPosition, Option<StatementId>),
    Return(InputPosition, ExpressionId),
    Assert(InputPosition, ExpressionId, Option<StatementId>),
    Goto(InputPosition, Seq<u8>, Option<StatementId>),
    New(InputPosition, ExpressionId, Option<StatementId>),
    Put(InputPosition, ExpressionId, ExpressionId, Option<StatementId>),
    Expression(InputPosition, ExpressionId, Option<StatementId>),
}

/// The view of an optional label.
pub open spec fn label_view(l: Option<Vec<u8>>) -> Option<Seq<u8>> {
    match l {
        Some(v) => Some(v@),
        None => None,
    }
}

impl View for Statement {
    type V = StmtView;

    open spec fn view(&self) -> StmtView {
        match self {
            Statement::Block(x) => StmtView::Block(x.position, x.statements@),
            Statement::Local(LocalStatement::Memory(x)) => StmtView::Memory(x.position, x.variable, x.initial, x.next),
            Statement::Local(LocalStatement::Channel(x)) => StmtView::Channel(x.position, x.from, x.to, x.next),
            Statement::Skip(x) => StmtView::Skip(x.position, x.next),
            Statement::Labeled(x) => StmtView::Labeled(x.position, x.label@, x.body),
            Statement::If(x) => StmtView::If(x.position, x.test, x.true_body, x.false_body),
            Statement::EndIf(x) => StmtView::EndIf(x.position, x.next),
            Statement::While(x) => StmtView::While(x.position, x.test, x.body, x.next),
            Statement::EndWhile(x) => StmtView::EndWhile(x.position, x.next),
            Statement::Break(x) => StmtView::Break(x.position, label_view(x.label), x.target),
            Statement::Continue(x) => StmtView::Continue(x.position, label_view(x.label), x.target),
            Statement::Synchronous(x) => StmtView::Synchronous(x.position, x.parameters@, x.body),
            Statement::EndSynchronous(x) => StmtView::EndSynchronous(x.position, x.next),
            Statement::Return(x) => StmtView::Return(x.position, x.expression),
            Statement::Assert(x) => StmtView::Assert(x.position, x.expression, x.next),
            Statement::Goto(x) => StmtView::Goto(x.position, x.label@, x.target),
            Statement::New(x) => StmtView::New(x.position, x.expression, x.next),
            Statement::Put(x) => StmtView::Put(x.position, x.port, x.message, x.next),
            Statement::Expression(x) => StmtView::Expression(x.position, x.expression, x.next),
        }
    }
}

/// The views of a sequence of variables.
pub open spec fn var_views(s: Seq<Variable>) -> Seq<VarView> {
    s.map_values(|v: Variable| v@)
}

/// The views of a sequence of statements.
pub open spec fn stmt_views(s: Seq<Statement>) -> Seq<StmtView> {
    s.map_values(|x: Statement| x@)
}

/// The views of a sequence of expressions.
pub open spec fn expr_views(s: Seq<Expression>) -> Seq<ExprView> {
    s.map_values(|e: Expression| e@)
}

} // verus!
