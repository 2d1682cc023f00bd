use reowolf::ast::{
    BlockStatement, BinaryExpression, BinaryOperator, ConstantExpression, Constant, Definition,
    DefinitionId, EndWhileStatement, Expression, ExpressionId, ExpressionStatement, Heap,
    LocalStatement, MemoryStatement, PrimitiveType, PutStatement, ReturnStatement, Statement,
    StatementId, Type, UnaryExpression, UnaryOperation, Variable, VariableExpression, VariableId,
    WhileStatement,
};
use reowolf::common::{ChannelId, Key};
use reowolf::endpoint::{CommMsg, CommMsgContents, Msg};
use reowolf::eval::{MessageValue, OutputValue, Value};
use reowolf::inputsource::InputPosition;
use reowolf::polyp::{poly_answers, sync_run, BranchP, PolyBlocker, PolyP, SyncRunResult};
use reowolf::predicate::Predicate;
use reowolf::prompt::Prompt;
use reowolf::solutions::{SolutionStorage, SubtreeId};
use reowolf::store::{EvalContext, PolyAnswers};

fn k(n: u64) -> Key {
    Key::from_raw(n)
}

fn cid(i: u32) -> ChannelId {
    ChannelId { controller_id: 1, channel_index: i }
}

fn pred(assignments: &[(u32, bool)]) -> Predicate {
    let mut p = Predicate::new_trivial();
    for &(c, v) in assignments {
        p.replace_assignment(cid(c), v);
    }
    p
}

/// A component with ports `k(1)` and `k(2)` on channels 1 and 2.
fn component() -> PolyP<u8> {
    PolyP { incomplete: vec![], complete: vec![], ekeys: vec![k(1), k(2)] }
}

fn channels() -> Vec<(Key, ChannelId)> {
    vec![(k(1), cid(1)), (k(2), cid(2))]
}

fn branch(outbox: Vec<(Key, Vec<u8>)>) -> BranchP<u8> {
    BranchP { outbox, inbox: vec![], state: 9 }
}

fn storage() -> SolutionStorage {
    let mut s = SolutionStorage::new();
    s.reset(&vec![SubtreeId::PolyP { index: 0 }]);
    s
}

#[test]
fn a_put_fires_its_port_and_sends_the_payload() {
    let mut c = component();
    let mut s = storage();
    let (more, sends) = c.after_run(pred(&[]), branch(vec![]), PolyBlocker::PutMsg(k(1), vec![7, 8]), &channels(), SubtreeId::PolyP { index: 0 }, 5, &mut s);
    assert_eq!(more.len(), 1);
    assert_eq!(more[0].0.query(cid(1)), Some(true));
    assert_eq!(more[0].1.outbox, vec![(k(1), vec![7, 8])]);
    assert_eq!(sends.len(), 1);
    assert_eq!(sends[0].0, k(1));
    match &sends[0].1 {
        Msg::CommMsg(CommMsg { round_index: 5, contents: CommMsgContents::SendPayload { payload_predicate, payload } }) => {
            assert_eq!(payload_predicate.query(cid(1)), Some(true));
            assert_eq!(*payload, vec![7, 8]);
        }
        other => panic!("expected a payload, got {:?}", other),
    }
    assert!(c.incomplete.is_empty() && c.complete.is_empty());
    assert_eq!(c.result(), SyncRunResult::NoBranches);
}

#[test]
fn a_put_on_a_silent_port_drops_the_branch() {
    let mut c = component();
    let mut s = storage();
    let (more, sends) = c.after_run(pred(&[(1, false)]), branch(vec![]), PolyBlocker::PutMsg(k(1), vec![7]), &channels(), SubtreeId::PolyP { index: 0 }, 5, &mut s);
    assert!(more.is_empty());
    assert!(sends.is_empty());
}

#[test]
fn a_branch_that_waits_for_a_message_is_kept_incomplete() {
    let mut c = component();
    let mut s = storage();
    let (more, sends) = c.after_run(pred(&[]), branch(vec![]), PolyBlocker::CouldntReadMsg(k(2)), &channels(), SubtreeId::PolyP { index: 0 }, 5, &mut s);
    assert!(more.is_empty() && sends.is_empty());
    assert_eq!(c.incomplete.len(), 1);
    assert_eq!(c.incomplete[0].0.query(cid(2)), Some(true));
    assert_eq!(c.result(), SyncRunResult::BlockingForRecv);
    // a branch whose predicate silences the port is dropped instead
    let mut d = component();
    d.after_run(pred(&[(2, false)]), branch(vec![]), PolyBlocker::CouldntReadMsg(k(2)), &channels(), SubtreeId::PolyP { index: 0 }, 5, &mut s);
    assert!(d.incomplete.is_empty());
}

#[test]
fn asking_whether_a_port_fires_splits_the_branch() {
    let mut c = component();
    let mut s = storage();
    let (more, sends) = c.after_run(pred(&[]), branch(vec![(k(2), vec![1])]), PolyBlocker::CouldntCheckFiring(k(1)), &channels(), SubtreeId::PolyP { index: 0 }, 5, &mut s);
    assert!(sends.is_empty());
    assert_eq!(more.len(), 2);
    assert_eq!(more[0].0.query(cid(1)), Some(true));
    assert_eq!(more[1].0.query(cid(1)), Some(false));
    assert_eq!(more[1].1.outbox, vec![(k(2), vec![1])]);
    assert_eq!(more[1].1.state, 9);
}

#[test]
fn the_end_of_the_block_records_a_solution() {
    let mut c = component();
    let mut s = storage();
    let (more, sends) = c.after_run(pred(&[(1, true)]), branch(vec![(k(1), vec![3])]), PolyBlocker::SyncBlockEnd, &channels(), SubtreeId::PolyP { index: 0 }, 5, &mut s);
    assert!(more.is_empty() && sends.is_empty());
    assert_eq!(c.complete.len(), 1);
    // the port the branch never touched is set not to fire
    assert_eq!(c.complete[0].0.query(cid(2)), Some(false));
    assert_eq!(c.complete[0].0.query(cid(1)), Some(true));
    assert_eq!(c.result(), SyncRunResult::AllBranchesComplete);
    assert_eq!(s.peek_new_locals().len(), 1);
}

#[test]
fn a_branch_that_should_have_fired_is_pruned() {
    let mut c = component();
    let mut s = storage();
    c.after_run(pred(&[(1, true)]), branch(vec![]), PolyBlocker::SyncBlockEnd, &channels(), SubtreeId::PolyP { index: 0 }, 5, &mut s);
    assert!(c.complete.is_empty());
    assert!(s.peek_new_locals().is_empty());
    assert_eq!(c.result(), SyncRunResult::NoBranches);
}

#[test]
fn an_inconsistent_branch_is_dropped() {
    let mut c = component();
    let mut s = storage();
    let (more, sends) = c.after_run(pred(&[]), branch(vec![]), PolyBlocker::Inconsistent, &channels(), SubtreeId::PolyP { index: 0 }, 5, &mut s);
    assert!(more.is_empty() && sends.is_empty());
    assert!(c.incomplete.is_empty() && c.complete.is_empty());
}

#[test]
fn a_branch_answers_from_its_predicate_and_inbox() {
    let p = pred(&[(1, true)]);
    let answers: PolyAnswers = poly_answers(&p, &vec![(k(2), vec![4, 5])], &vec![k(1), k(2)], &channels());
    assert_eq!(answers.firing, vec![(k(1), true)]);
    assert_eq!(answers.inbox, vec![(k(2), vec![4, 5])]);
}

fn at() -> InputPosition {
    InputPosition { line: 1, column: 1, offset: 0 }
}

fn var(v: usize) -> Expression {
    Expression::Variable(VariableExpression { position: at(), identifier: b"x".to_vec(), declaration: Some(VariableId(v)) })
}

fn lit(text: &str) -> Expression {
    Expression::Constant(ConstantExpression { position: at(), value: Constant::Integer(text.as_bytes().to_vec()) })
}

fn variable(primitive: PrimitiveType) -> Variable {
    Variable { identifier: b"x".to_vec(), the_type: Type { primitive, array: false } }
}

#[test]
fn a_run_stops_at_a_put() {
    let h = Heap {
        expressions: vec![var(0), var(1)],
        variables: vec![variable(PrimitiveType::Output), variable(PrimitiveType::Message)],
        statements: vec![Statement::Put(PutStatement { position: at(), port: ExpressionId(0), message: ExpressionId(1), next: None })],
        definitions: vec![Definition { identifier: b"send".to_vec(), parameters: vec![VariableId(0), VariableId(1)], body: StatementId(0) }],
    };
    let args = vec![Value::Output(OutputValue(k(2))), Value::Message(MessageValue(Some(vec![1, 2])))];
    let mut p = Prompt::new(&h, DefinitionId(0), &args);
    let ctx = EvalContext::Poly(PolyAnswers { firing: vec![], inbox: vec![] });
    match sync_run(&mut p, &h, &ctx, 10) {
        Some(PolyBlocker::PutMsg(key, payload)) => {
            assert_eq!(key, k(2));
            assert_eq!(payload, vec![1, 2]);
        }
        _ => panic!("expected a put"),
    }
    // putting no message at all contradicts the branch
    let args = vec![Value::Output(OutputValue(k(2))), Value::Message(MessageValue(None))];
    let mut p = Prompt::new(&h, DefinitionId(0), &args);
    assert!(matches!(sync_run(&mut p, &h, &ctx, 10), Some(PolyBlocker::Inconsistent)));
}

#[test]
fn a_run_ends_when_its_fuel_does() {
    // int x = 1; while (x < 3) x++; return x;
    let h = Heap {
        expressions: vec![
            lit("1"),
            var(0),
            lit("3"),
            Expression::Binary(BinaryExpression { position: at(), left: ExpressionId(1), operation: BinaryOperator::LessThan, right: ExpressionId(2) }),
            Expression::Unary(UnaryExpression { position: at(), operation: UnaryOperation::PostIncrement, expression: ExpressionId(1) }),
        ],
        variables: vec![variable(PrimitiveType::Int)],
        statements: vec![
            Statement::Block(BlockStatement { position: at(), statements: vec![StatementId(1)] }),
            Statement::Local(LocalStatement::Memory(MemoryStatement { position: at(), variable: VariableId(0), initial: ExpressionId(0), next: Some(StatementId(2)) })),
            Statement::While(WhileStatement { position: at(), test: ExpressionId(3), body: StatementId(3), next: Some(StatementId(4)) }),
            Statement::Expression(ExpressionStatement { position: at(), expression: ExpressionId(4), next: Some(StatementId(2)) }),
            Statement::EndWhile(EndWhileStatement { position: at(), next: Some(StatementId(5)) }),
            Statement::Return(ReturnStatement { position: at(), expression: ExpressionId(1) }),
        ],
        definitions: vec![Definition { identifier: b"count".to_vec(), parameters: vec![], body: StatementId(0) }],
    };
    let mut p = Prompt::new(&h, DefinitionId(0), &vec![]);
    let ctx = EvalContext::Poly(PolyAnswers { firing: vec![], inbox: vec![] });
    assert!(sync_run(&mut p, &h, &ctx, 3).is_none());
    // block, declaration, test: the loop's body comes next
    assert_eq!(p.position, Some(StatementId(3)));
}

fn waiting(c: &mut PolyP<u8>, assignments: &[(u32, bool)]) {
    c.incomplete.push((pred(assignments), branch(vec![])));
}

#[test]
fn a_payload_for_a_complete_branch_runs_nothing() {
    let mut c = component();
    c.complete.push((pred(&[(2, true)]), branch(vec![])));
    waiting(&mut c, &[]);
    let run = c.feed(k(2), pred(&[(2, true)]), vec![1]);
    assert!(run.is_empty());
    assert_eq!(c.incomplete.len(), 1);
}

#[test]
fn a_payload_under_a_waiting_predicate_goes_to_that_branch() {
    let mut c = component();
    waiting(&mut c, &[(1, true)]);
    waiting(&mut c, &[(2, true)]);
    let run = c.feed(k(2), pred(&[(2, true)]), vec![6]);
    assert_eq!(run.len(), 1);
    assert_eq!(run[0].1.inbox, vec![(k(2), vec![6])]);
    assert_eq!(c.incomplete.len(), 1);
    assert_eq!(c.incomplete[0].0.query(cid(1)), Some(true));
}

#[test]
fn a_payload_is_fed_to_every_compatible_branch() {
    let mut c = component();
    waiting(&mut c, &[(1, true)]);
    waiting(&mut c, &[(2, false)]);
    waiting(&mut c, &[(2, true), (3, false)]);
    waiting(&mut c, &[]);
    let run = c.feed(k(2), pred(&[(2, true)]), vec![6]);
    assert_eq!(run.len(), 3);
    // the first branch is forked under the union of both predicates
    assert_eq!(run[0].0.query(cid(1)), Some(true));
    assert_eq!(run[0].0.query(cid(2)), Some(true));
    // the third covers the payload's predicate and runs as it is
    assert_eq!(run[1].0.query(cid(3)), Some(false));
    // the last is forked under the payload's predicate
    assert_eq!(run[2].0.query(cid(2)), Some(true));
    assert_eq!(run[2].0.query(cid(1)), None);
    for (_, b) in run.iter() {
        assert_eq!(b.inbox, vec![(k(2), vec![6])]);
    }
    // the forked and the contradicting branches wait on, unfed
    assert_eq!(c.incomplete.len(), 3);
    assert_eq!(c.incomplete[0].0.query(cid(1)), Some(true));
    assert_eq!(c.incomplete[1].0.query(cid(2)), Some(false));
    assert_eq!(c.incomplete[2].0.query(cid(2)), None);
    assert!(c.incomplete.iter().all(|(_, b)| b.inbox.is_empty()));
}

#[test]
fn the_branch_the_decision_satisfies_goes_on() {
    let mut c = component();
    c.complete.push((pred(&[(1, false)]), branch(vec![])));
    c.complete.push((pred(&[(1, true)]), BranchP { outbox: vec![(k(1), vec![2])], inbox: vec![(k(2), vec![1])], state: 7 }));
    let mut row = vec![(k(1), vec![0])];
    let m = c.become_mono(&pred(&[(1, true), (2, true)]), &mut row);
    assert_eq!(m.state, 7);
    assert_eq!(m.ekeys, vec![k(1), k(2)]);
    // what it got enters first, then what it put, each replacing the port's entry
    assert_eq!(row, vec![(k(1), vec![2]), (k(2), vec![1])]);
}

#[test]
fn a_component_enters_a_round_with_one_empty_branch() {
    let m = reowolf::polyp::MonoP { state: 4u8, ekeys: vec![k(1)] };
    let p = m.into_poly();
    assert_eq!(p.ekeys, vec![k(1)]);
    assert!(p.complete.is_empty());
    assert_eq!(p.incomplete.len(), 1);
    assert_eq!(p.incomplete[0].0.query(cid(1)), None);
    assert!(p.incomplete[0].1.inbox.is_empty() && p.incomplete[0].1.outbox.is_empty());
    assert_eq!(p.incomplete[0].1.state, 4);
    assert_eq!(p.result(), SyncRunResult::BlockingForRecv);
}
