use vstd::prelude::*;
use std::collections::HashMap;
use crate::ast::{
    children, AssignmentOperator, BinaryOperator, Constant, DeclarationId, Expression, ExpressionId, Heap,
    Method, UnaryOperation, VariableId,
};
use crate::common::Key;
use crate::eval::{
    decimal_i64, decimal_value, lemma_integer_value_view, lemma_value_view, narrowest_rank,
    rank_min, trunc_rem, vcompatible, vcount, vint, vinteger, vis_integer, vmax_rank, fits_rank,
    ByteValue, Value, ValueView, MESSAGE_MAX_LENGTH,
};
use vstd::pervasive::unreached;

verus! {

broadcast use vstd::std_specs::hash::group_hash_axioms;

/// What the branch of a component that runs inside a synchronous round answers to the
/// evaluator: for a port, whether it fires in this branch, and the message it received.
/// The first entry for a port is its answer; a port without an entry is not known yet.
pub struct PolyAnswers {
    pub firing: Vec<(Key, bool)>,
    pub inbox: Vec<(Key, Vec<u8>)>,
}

/// What a component answers outside a synchronous block: the keys of the output and the
/// input end of the channel it creates next.
pub struct MonoAnswers {
    pub new_channel: (Key, Key),
}

/// Where an expression is evaluated: outside any component (`Detached`), in a component
/// outside a synchronous block (`Mono`), or in a branch inside a synchronous block (`Poly`).
pub enum EvalContext {
    Detached,
    Mono(MonoAnswers),
    Poly(PolyAnswers),
}

/// The views of a sequence of values.
pub open spec fn views(s: Seq<Value>) -> Seq<ValueView> {
    s.map_values(|v: Value| v@)
}

/// Why evaluation stopped without a value.
pub enum EvalContinuation {
    Stepping,
    Inconsistent,
    Terminal,
    SyncBlockStart,
    SyncBlockEnd,
    NewComponent(DeclarationId, Vec<Value>),
    BlockFires(Value),
    BlockGet(Value),
    Put(Value, Value),
}

pub enum ContinuationView {
    Stepping,
    Inconsistent,
    Terminal,
    SyncBlockStart,
    SyncBlockEnd,
    NewComponent(DeclarationId, Seq<ValueView>),
    BlockFires(ValueView),
    BlockGet(ValueView),
    Put(ValueView, ValueView),
}

impl View for EvalContinuation {
    type V = ContinuationView;

    open spec fn view(&self) -> ContinuationView {
        match self {
            EvalContinuation::Stepping => ContinuationView::Stepping,
            EvalContinuation::Inconsistent => ContinuationView::Inconsistent,
            EvalContinuation::Terminal => ContinuationView::Terminal,
            EvalContinuation::SyncBlockStart => ContinuationView::SyncBlockStart,
            EvalContinuation::SyncBlockEnd => ContinuationView::SyncBlockEnd,
            EvalContinuation::NewComponent(d, args) => ContinuationView::NewComponent(*d, views(args@)),
            EvalContinuation::BlockFires(v) => ContinuationView::BlockFires(v@),
            EvalContinuation::BlockGet(v) => ContinuationView::BlockGet(v@),
            EvalContinuation::Put(p, m) => ContinuationView::Put(p@, m@),
        }
    }
}

/// How the evaluation of an expression ends: with a value, stopped for a continuation, or
/// in a panic (an ill-typed or unsupported expression).
pub enum Outcome {
    Done(ValueView),
    Stop(ContinuationView),
    Panic,
}

/// Whether an evaluation result is the outcome `o`.
pub open spec fn result_is(r: Result<Value, EvalContinuation>, o: Outcome) -> bool {
    match r {
        Ok(v) => o == Outcome::Done(v@),
        Err(c) => o == Outcome::Stop(c@),
    }
}

/// The answer for port `k` in `s`, looking from position `i` on.
pub open spec fn firing_from(s: Seq<(Key, bool)>, k: Key, i: int) -> Option<bool>
    decreases s.len() - i,
{
    if i < 0 || i >= s.len() {
        None
    } else if s[i].0 == k {
        Some(s[i].1)
    } else {
        firing_from(s, k, i + 1)
    }
}

/// The message for port `k` in `s`, looking from position `i` on.
pub open spec fn inbox_from(s: Seq<(Key, Vec<u8>)>, k: Key, i: int) -> Option<Seq<u8>>
    decreases s.len() - i,
{
    if i < 0 || i >= s.len() {
        None
    } else if s[i].0 == k {
        Some(s[i].1@)
    } else {
        inbox_from(s, k, i + 1)
    }
}

/// The port a port value refers to.
pub open spec fn port_key(v: ValueView) -> Option<Key> {
    match v {
        ValueView::Input(k) => Some(k),
        ValueView::Output(k) => Some(k),
        _ => None,
    }
}

/// The variable a subject expression names: it must be a variable expression with a
/// declaration.
pub open spec fn subject_var(h: Heap, s: ExpressionId) -> Option<usize> {
    if s.0 < h.expressions.len() {
        match h.expr(s.0 as int) {
            Expression::Variable(v) => match v.declaration {
                Some(d) => Some(d.0),
                None => None,
            },
            _ => None,
        }
    } else {
        None
    }
}

pub open spec fn one() -> ValueView {
    ValueView::Byte(1)
}

/// Whether adding the two values is defined (two integers whose sum fits the wider type).
pub open spec fn plus_ok(a: ValueView, b: ValueView) -> bool {
    vis_integer(a) && vis_integer(b) && fits_rank(vmax_rank(a, b), vint(a) + vint(b))
}

pub open spec fn vplus(a: ValueView, b: ValueView) -> ValueView {
    vinteger(vmax_rank(a, b), vint(a) + vint(b))
}

pub open spec fn minus_ok(a: ValueView, b: ValueView) -> bool {
    vis_integer(a) && vis_integer(b) && fits_rank(vmax_rank(a, b), vint(a) - vint(b))
}

pub open spec fn vminus(a: ValueView, b: ValueView) -> ValueView {
    vinteger(vmax_rank(a, b), vint(a) - vint(b))
}

pub open spec fn modulus_ok(a: ValueView, b: ValueView) -> bool {
    &&& vis_integer(a) && vis_integer(b)
    &&& vint(b) != 0
    &&& vint(b) != -1 || vint(a) != rank_min(vmax_rank(a, b))
    &&& fits_rank(vmax_rank(a, b), trunc_rem(vint(a), vint(b)))
}

pub open spec fn vmodulus(a: ValueView, b: ValueView) -> ValueView {
    vinteger(vmax_rank(a, b), trunc_rem(vint(a), vint(b)))
}

/// Whether the two values can be compared for equality: two integers or two messages.
pub open spec fn equality_ok(a: ValueView, b: ValueView) -> bool {
    (vis_integer(a) && vis_integer(b)) || (a is Message && b is Message)
}

pub open spec fn vequal(a: ValueView, b: ValueView) -> bool {
    if vis_integer(a) && vis_integer(b) {
        vint(a) == vint(b)
    } else {
        a == b
    }
}

/// The result of a binary operator other than the logical ones, `None` where it panics.
pub open spec fn binary_result(op: BinaryOperator, a: ValueView, b: ValueView) -> Option<ValueView> {
    let ints = vis_integer(a) && vis_integer(b);
    match op {
        BinaryOperator::Equality => if equality_ok(a, b) { Some(ValueView::Boolean(vequal(a, b))) } else { None },
        BinaryOperator::Inequality => if equality_ok(a, b) { Some(ValueView::Boolean(!vequal(a, b))) } else { None },
        BinaryOperator::LessThan => if ints { Some(ValueView::Boolean(vint(a) < vint(b))) } else { None },
        BinaryOperator::LessThanEqual => if ints { Some(ValueView::Boolean(vint(a) <= vint(b))) } else { None },
        BinaryOperator::GreaterThan => if ints { Some(ValueView::Boolean(vint(a) > vint(b))) } else { None },
        BinaryOperator::GreaterThanEqual => if ints { Some(ValueView::Boolean(vint(a) >= vint(b))) } else { None },
        BinaryOperator::Remainder => if modulus_ok(a, b) { Some(vmodulus(a, b)) } else { None },
        _ => None,
    }
}

/// The value of a literal, `None` where evaluating it panics (a character literal, or an
/// integer literal out of range).
pub open spec fn constant_value(c: Constant) -> Option<ValueView> {
    match c {
        Constant::Null => Some(ValueView::Message(None)),
        Constant::True => Some(ValueView::Boolean(true)),
        Constant::False => Some(ValueView::Boolean(false)),
        Constant::Character(_) => None,
        Constant::Integer(data) => if decimal_i64(data@) is Some {
            Some(vinteger(narrowest_rank(decimal_value(data@)), decimal_value(data@)))
        } else {
            None
        },
    }
}

/// The message `create` makes for a length: zeroed bytes, or null when out of range.
pub open spec fn created_message(length: ValueView) -> ValueView {
    let n = vint(length);
    if 0 <= n <= MESSAGE_MAX_LENGTH {
        ValueView::Message(Some(Seq::new(n as nat, |i: int| 0u8)))
    } else {
        ValueView::Message(None)
    }
}

/// Whether reading position `index` of `subject` is defined (an integer index; a message
/// subject unless the index is out of range).
pub open spec fn read_ok(subject: ValueView, index: ValueView) -> bool {
    vis_integer(index) && (vint(index) < 0 || vint(index) >= MESSAGE_MAX_LENGTH || subject is Message)
}

/// The byte at position `index` of a message, as a short; `None` when out of bounds or null.
pub open spec fn read_at(subject: ValueView, index: ValueView) -> Option<ValueView> {
    let i = vint(index);
    match subject {
        ValueView::Message(Some(b)) => if 0 <= i < MESSAGE_MAX_LENGTH && i < b.len() {
            Some(ValueView::Short(b[i] as i16))
        } else {
            None
        },
        _ => None,
    }
}

/// Whether writing `value` at position `index` of `subject` is defined.
pub open spec fn write_ok(subject: ValueView, index: ValueView, value: ValueView) -> bool {
    &&& vis_integer(index)
    &&& vint(index) < 0 || vint(index) >= MESSAGE_MAX_LENGTH || (subject is Message && (
        subject->Message_0 is None || value is Byte || value is Short))
}

/// The message after writing `value` at position `index`; `None` when the write is
/// inconsistent (out of bounds, a null message, or a value outside `0..=127`).
pub open spec fn written_at(subject: ValueView, index: ValueView, value: ValueView) -> Option<ValueView> {
    let i = vint(index);
    match subject {
        ValueView::Message(Some(b)) => if 0 <= i < MESSAGE_MAX_LENGTH && 0 <= vint(value) <= 127 && i < b.len() {
            Some(ValueView::Message(Some(b.update(i, vint(value) as u8))))
        } else {
            None
        },
        _ => None,
    }
}

/// Whether taking the length of `subject` is defined.
pub open spec fn length_ok(subject: ValueView) -> bool {
    &&& vcount(subject) is Some || subject == ValueView::Message(None)
    &&& vcount(subject) matches Some(n) ==> n <= i32::MAX
}

pub open spec fn length_of(subject: ValueView) -> Option<ValueView> {
    match vcount(subject) {
        Some(n) => Some(ValueView::Int(n as i32)),
        None => None,
    }
}

/// Evaluates the expression at index `e` against the variables `st`. The first component
/// of the result is how evaluation ends, the second the variables afterwards.
pub open spec fn eval_spec(h: Heap, st: Map<usize, ValueView>, ctx: EvalContext, e: int) -> (Outcome, Map<usize, ValueView>)
    decreases e, 3int, 0int,
{
    if !(0 <= e < h.expressions.len()) {
        (Outcome::Panic, st)
    } else {
        match h.expr(e) {
            Expression::Assignment(a) => if !(a.left.0 < e && a.right.0 < e) {
                (Outcome::Panic, st)
            } else {
                let (o1, s1) = eval_spec(h, st, ctx, a.right.0 as int);
                match o1 {
                    Outcome::Done(v) => match a.operation {
                        AssignmentOperator::Assigned => {
                            let (o2, s2) = update_spec(h, s1, ctx, a.left.0 as int, v);
                            match o2 {
                                Outcome::Done(_) => (Outcome::Done(v), s2),
                                _ => (o2, s2),
                            }
                        },
                        AssignmentOperator::Added => {
                            let (o2, s2) = get_spec(h, s1, ctx, a.left.0 as int);
                            match o2 {
                                Outcome::Done(old) => if !plus_ok(old, v) {
                                    (Outcome::Panic, s2)
                                } else {
                                    let (o3, s3) = update_spec(h, s2, ctx, a.left.0 as int, vplus(old, v));
                                    match o3 {
                                        Outcome::Done(_) => (Outcome::Done(v), s3),
                                        _ => (o3, s3),
                                    }
                                },
                                _ => (o2, s2),
                            }
                        },
                        AssignmentOperator::Subtracted => {
                            let (o2, s2) = get_spec(h, s1, ctx, a.left.0 as int);
                            match o2 {
                                Outcome::Done(old) => if !minus_ok(old, v) {
                                    (Outcome::Panic, s2)
                                } else {
                                    let (o3, s3) = update_spec(h, s2, ctx, a.left.0 as int, vminus(old, v));
                                    match o3 {
                                        Outcome::Done(_) => (Outcome::Done(v), s3),
                                        _ => (o3, s3),
                                    }
                                },
                                _ => (o2, s2),
                            }
                        },
                        _ => (Outcome::Panic, s1),
                    },
                    _ => (o1, s1),
                }
            },
            Expression::Conditional(c) => if !(c.test.0 < e && c.true_expression.0 < e && c.false_expression.0 < e) {
                (Outcome::Panic, st)
            } else {
                let (o1, s1) = eval_spec(h, st, ctx, c.test.0 as int);
                match o1 {
                    Outcome::Done(ValueView::Boolean(t)) => if t {
                        eval_spec(h, s1, ctx, c.true_expression.0 as int)
                    } else {
                        eval_spec(h, s1, ctx, c.false_expression.0 as int)
                    },
                    Outcome::Done(_) => (Outcome::Panic, s1),
                    _ => (o1, s1),
                }
            },
            Expression::Binary(b) => if !(b.left.0 < e && b.right.0 < e) {
                (Outcome::Panic, st)
            } else {
                let (o1, s1) = eval_spec(h, st, ctx, b.left.0 as int);
                match o1 {
                    Outcome::Done(l) => {
                        if b.operation is LogicalAnd || b.operation is LogicalOr {
                            if !(l is Boolean) {
                                (Outcome::Panic, s1)
                            } else if (b.operation is LogicalAnd && !l->Boolean_0) || (b.operation is LogicalOr && l->Boolean_0) {
                                (Outcome::Done(l), s1)
                            } else {
                                let (o2, s2) = eval_spec(h, s1, ctx, b.right.0 as int);
                                match o2 {
                                    Outcome::Done(r) => if r is Boolean {
                                        (Outcome::Done(r), s2)
                                    } else {
                                        (Outcome::Panic, s2)
                                    },
                                    _ => (o2, s2),
                                }
                            }
                        } else {
                            let (o2, s2) = eval_spec(h, s1, ctx, b.right.0 as int);
                            match o2 {
                                Outcome::Done(r) => match binary_result(b.operation, l, r) {
                                    Some(v) => (Outcome::Done(v), s2),
                                    None => (Outcome::Panic, s2),
                                },
                                _ => (o2, s2),
                            }
                        }
                    },
                    _ => (o1, s1),
                }
            },
            Expression::Unary(u) => if !(u.expression.0 < e) {
                (Outcome::Panic, st)
            } else {
                let x = u.expression.0 as int;
                let (o1, s1) = eval_spec(h, st, ctx, x);
                match o1 {
                    Outcome::Done(v) => match u.operation {
                        UnaryOperation::PostIncrement => if !plus_ok(v, one()) {
                            (Outcome::Panic, s1)
                        } else {
                            let (o2, s2) = update_spec(h, s1, ctx, x, vplus(v, one()));
                            match o2 {
                                Outcome::Done(_) => (Outcome::Done(v), s2),
                                _ => (o2, s2),
                            }
                        },
                        UnaryOperation::PreIncrement => if !plus_ok(v, one()) {
                            (Outcome::Panic, s1)
                        } else {
                            let (o2, s2) = update_spec(h, s1, ctx, x, vplus(v, one()));
                            match o2 {
                                Outcome::Done(_) => (Outcome::Done(vplus(v, one())), s2),
                                _ => (o2, s2),
                            }
                        },
                        UnaryOperation::PostDecrement => if !minus_ok(v, one()) {
                            (Outcome::Panic, s1)
                        } else {
                            let (o2, s2) = update_spec(h, s1, ctx, x, vminus(v, one()));
                            match o2 {
                                Outcome::Done(_) => (Outcome::Done(v), s2),
                                _ => (o2, s2),
                            }
                        },
                        UnaryOperation::PreDecrement => if !minus_ok(v, one()) {
                            (Outcome::Panic, s1)
                        } else {
                            let (o2, s2) = update_spec(h, s1, ctx, x, vminus(v, one()));
                            match o2 {
                                Outcome::Done(_) => (Outcome::Done(vminus(v, one())), s2),
                                _ => (o2, s2),
                            }
                        },
                        _ => (Outcome::Panic, s1),
                    },
                    _ => (o1, s1),
                }
            },
            Expression::Indexing(_) => get_spec(h, st, ctx, e),
            Expression::Slicing(_) => (Outcome::Panic, st),
            Expression::Select(_) => get_spec(h, st, ctx, e),
            Expression::Array(a) => {
                let (o, s) = eval_list_spec(h, st, ctx, e, a.elements@, 0);
                match o {
                    Some(o) => (o, s),
                    None => (Outcome::Panic, s),
                }
            },
            Expression::Constant(c) => match constant_value(c.value) {
                Some(v) => (Outcome::Done(v), st),
                None => (Outcome::Panic, st),
            },
            Expression::Call(c) => if c.method is Symbolic || c.arguments@.len() != 1 || !(c.arguments@[0].0 < e) {
                (Outcome::Panic, st)
            } else {
                let (o1, s1) = eval_spec(h, st, ctx, c.arguments@[0].0 as int);
                match o1 {
                    Outcome::Done(v) => match c.method {
                        Method::Create => if vis_integer(v) {
                            (Outcome::Done(created_message(v)), s1)
                        } else {
                            (Outcome::Panic, s1)
                        },
                        Method::Fires => match (ctx, port_key(v)) {
                            (EvalContext::Poly(ans), Some(k)) => match firing_from(ans.firing@, k, 0) {
                                Some(b) => (Outcome::Done(ValueView::Boolean(b)), s1),
                                None => (Outcome::Stop(ContinuationView::BlockFires(v)), s1),
                            },
                            _ => (Outcome::Panic, s1),
                        },
                        _ => match (ctx, port_key(v)) {
                            (EvalContext::Poly(ans), Some(k)) => match inbox_from(ans.inbox@, k, 0) {
                                Some(m) => (Outcome::Done(ValueView::Message(Some(m))), s1),
                                None => (Outcome::Stop(ContinuationView::BlockGet(v)), s1),
                            },
                            _ => (Outcome::Panic, s1),
                        },
                    },
                    _ => (o1, s1),
                }
            },
            Expression::Variable(_) => get_spec(h, st, ctx, e),
        }
    }
}

/// Evaluates the elements `ids[k..]` of the array expression at index `e` in order: `None`
/// when all give a value, else how the first that does not ends.
pub open spec fn eval_list_spec(h: Heap, st: Map<usize, ValueView>, ctx: EvalContext, e: int, ids: Seq<ExpressionId>, k: int) -> (Option<Outcome>, Map<usize, ValueView>)
    decreases e, 0int, ids.len() - k,
{
    if k < 0 || k >= ids.len() {
        (None, st)
    } else if !(0 <= ids[k].0 < e) {
        (Some(Outcome::Panic), st)
    } else {
        let (o1, s1) = eval_spec(h, st, ctx, ids[k].0 as int);
        match o1 {
            Outcome::Done(_) => eval_list_spec(h, s1, ctx, e, ids, k + 1),
            _ => (Some(o1), s1),
        }
    }
}

/// Reads the place that the expression at index `e` denotes: a variable, a position of a
/// message variable, or the length of a variable.
pub open spec fn get_spec(h: Heap, st: Map<usize, ValueView>, ctx: EvalContext, e: int) -> (Outcome, Map<usize, ValueView>)
    decreases e, 1int, 0int,
{
    if !(0 <= e < h.expressions.len()) {
        (Outcome::Panic, st)
    } else {
        match h.expr(e) {
            Expression::Variable(v) => match v.declaration {
                Some(d) => if st.contains_key(d.0) {
                    (Outcome::Done(st[d.0]), st)
                } else {
                    (Outcome::Panic, st)
                },
                None => (Outcome::Panic, st),
            },
            Expression::Indexing(ix) => if !(ix.index.0 < e) {
                (Outcome::Panic, st)
            } else {
                let (o1, s1) = eval_spec(h, st, ctx, ix.index.0 as int);
                match o1 {
                    Outcome::Done(i) => match subject_var(h, ix.subject) {
                        Some(var) => if s1.contains_key(var) && read_ok(s1[var], i) {
                            match read_at(s1[var], i) {
                                Some(r) => (Outcome::Done(r), s1),
                                None => (Outcome::Stop(ContinuationView::Inconsistent), s1),
                            }
                        } else {
                            (Outcome::Panic, s1)
                        },
                        None => (Outcome::Panic, s1),
                    },
                    _ => (o1, s1),
                }
            },
            Expression::Select(sel) => match subject_var(h, sel.subject) {
                Some(var) => if st.contains_key(var) && length_ok(st[var]) {
                    match length_of(st[var]) {
                        Some(r) => (Outcome::Done(r), st),
                        None => (Outcome::Stop(ContinuationView::Inconsistent), st),
                    }
                } else {
                    (Outcome::Panic, st)
                },
                None => (Outcome::Panic, st),
            },
            _ => (Outcome::Panic, st),
        }
    }
}

/// Writes `value` to the place that the expression at index `e` denotes: a variable (whose
/// type must admit the value), or a position of a message variable.
pub open spec fn update_spec(h: Heap, st: Map<usize, ValueView>, ctx: EvalContext, e: int, value: ValueView) -> (Outcome, Map<usize, ValueView>)
    decreases e, 1int, 0int,
{
    if !(0 <= e < h.expressions.len()) {
        (Outcome::Panic, st)
    } else {
        match h.expr(e) {
            Expression::Variable(v) => match v.declaration {
                Some(d) => if d.0 < h.variables.len() && vcompatible(value, h.variables@[d.0 as int].the_type) {
                    (Outcome::Done(value), st.insert(d.0, value))
                } else {
                    (Outcome::Panic, st)
                },
                None => (Outcome::Panic, st),
            },
            Expression::Indexing(ix) => if !(ix.index.0 < e) {
                (Outcome::Panic, st)
            } else {
                let (o1, s1) = eval_spec(h, st, ctx, ix.index.0 as int);
                match o1 {
                    Outcome::Done(i) => match subject_var(h, ix.subject) {
                        Some(var) => if s1.contains_key(var) && write_ok(s1[var], i, value) {
                            match written_at(s1[var], i, value) {
                                Some(m) => (Outcome::Done(value), s1.insert(var, m)),
                                None => (Outcome::Stop(ContinuationView::Inconsistent), s1),
                            }
                        } else {
                            (Outcome::Panic, s1)
                        },
                        None => (Outcome::Panic, s1),
                    },
                    _ => (o1, s1),
                }
            },
            _ => (Outcome::Panic, st),
        }
    }
}



/// Reading a variable after writing a value its type admits gives back that value, and
/// leaves the variables as the write left them.
pub proof fn law_get_after_update(h: Heap, st: Map<usize, ValueView>, ctx: EvalContext, e: int, value: ValueView)
    requires
        0 <= e < h.expressions.len(),
        h.expr(e) matches Expression::Variable(v) && v.declaration matches Some(d) && d.0 < h.variables.len()
            && vcompatible(value, h.variables@[d.0 as int].the_type),
    ensures
        update_spec(h, st, ctx, e, value).0 == Outcome::Done(value),
        get_spec(h, update_spec(h, st, ctx, e, value).1, ctx, e) == (Outcome::Done(value), update_spec(h, st, ctx, e, value).1),
{
}

/// Whether port `k` fires, as the answers say.
pub fn lookup_firing(ans: &PolyAnswers, k: Key) -> (r: Option<bool>)
    ensures
        r == firing_from(ans.firing@, k, 0),
{
    let mut i: usize = 0;
    while i < ans.firing.len()
        invariant
            i <= ans.firing@.len(),
            firing_from(ans.firing@, k, 0) == firing_from(ans.firing@, k, i as int),
        decreases ans.firing@.len() - i,
    {
        if ans.firing[i].0 == k {
            return Some(ans.firing[i].1);
        }
        i += 1;
    }
    None
}

/// The message port `k` received, as the answers say.
pub fn lookup_inbox(ans: &PolyAnswers, k: Key) -> (r: Option<&Vec<u8>>)
    ensures
        r matches Some(b) ==> inbox_from(ans.inbox@, k, 0) == Some(b@),
        r is None ==> inbox_from(ans.inbox@, k, 0) is None,
{
    let mut i: usize = 0;
    while i < ans.inbox.len()
        invariant
            i <= ans.inbox@.len(),
            inbox_from(ans.inbox@, k, 0) == inbox_from(ans.inbox@, k, i as int),
        decreases ans.inbox@.len() - i,
    {
        if ans.inbox[i].0 == k {
            return Some(&ans.inbox[i].1);
        }
        i += 1;
    }
    None
}

/// The values of the variables of a running component.
#[derive(Clone)]
pub struct Store {
    pub map: HashMap<usize, Value>,
}

impl View for Store {
    type V = Map<usize, ValueView>;

    open spec fn view(&self) -> Map<usize, ValueView> {
        Map::new(|k: usize| self.map@.contains_key(k), |k: usize| self.map@[k]@)
    }
}

impl Store {
    pub fn new() -> (r: Store)
        ensures
            r@ == Map::<usize, ValueView>::empty(),
    {
        let r = Store { map: HashMap::new() };
        assert(r@ =~= Map::<usize, ValueView>::empty());
        r
    }

    /// Gives variable `var` its first value, which its type must admit.
    pub fn initialize(&mut self, h: &Heap, var: VariableId, value: Value)
        requires
            var.0 < h.variables@.len(),
            vcompatible(value@, h.variables@[var.0 as int].the_type),
        ensures
            final(self)@ == old(self)@.insert(var.0, value@),
    {
        self.map.insert(var.0, value);
        assert(self@ =~= old(self)@.insert(var.0, value@));
    }

    /// The variable named by the subject of an indexing or select expression.
    fn subject_of(h: &Heap, subject: ExpressionId) -> (r: usize)
        requires
            subject_var(*h, subject) is Some,
        ensures
            subject_var(*h, subject) == Some(r),
    {
        match &h.expressions[subject.0] {
            Expression::Variable(v) => match v.declaration {
                Some(d) => d.0,
                None => unreached(),
            },
            _ => unreached(),
        }
    }

    /// Writes `value` to the place `lexpr` denotes.
    pub fn update(&mut self, h: &Heap, ctx: &EvalContext, lexpr: ExpressionId, value: Value) -> (r: Result<Value, EvalContinuation>)
        requires
            h.wf(),
            lexpr.0 < h.expressions@.len(),
            !(update_spec(*h, old(self)@, *ctx, lexpr.0 as int, value@).0 is Panic),
        ensures
            result_is(r, update_spec(*h, old(self)@, *ctx, lexpr.0 as int, value@).0),
            final(self)@ == update_spec(*h, old(self)@, *ctx, lexpr.0 as int, value@).1,
        decreases lexpr.0 as int, 1int, 0int,
    {
        let ghost e = lexpr.0 as int;
        match &h.expressions[lexpr.0] {
            Expression::Variable(v) => {
                let d = match v.declaration {
                    Some(d) => d,
                    None => unreached(),
                };
                let stored = value.duplicate();
                self.map.insert(d.0, stored);
                assert(self@ =~= old(self)@.insert(d.0, value@));
                Ok(value)
            },
            Expression::Indexing(ix) => {
                assert(children(h.expr(e))[1] == ix.index);
                let index = match self.eval(h, ctx, ix.index) {
                    Ok(i) => i,
                    Err(c) => return Err(c),
                };
                let var = Self::subject_of(h, ix.subject);
                let ghost s1 = self@;
                let mut subject = match self.map.remove(&var) {
                    Some(x) => x,
                    None => unreached(),
                };
                proof {
                    lemma_value_view(subject);
                    lemma_value_view(index);
                    lemma_value_view(value);
                }
                let r = subject.set(&index, &value);
                proof {
                    lemma_value_view(subject);
                }
                self.map.insert(var, subject);
                match r {
                    Some(w) => {
                        assert(self@ =~= s1.insert(var, written_at(s1[var], index@, value@)->0));
                        Ok(w)
                    },
                    None => {
                        assert(self@ =~= s1);
                        Err(EvalContinuation::Inconsistent)
                    },
                }
            },
            _ => unreached(),
        }
    }

    /// Reads the place `rexpr` denotes.
    pub fn get(&mut self, h: &Heap, ctx: &EvalContext, rexpr: ExpressionId) -> (r: Result<Value, EvalContinuation>)
        requires
            h.wf(),
            rexpr.0 < h.expressions@.len(),
            !(get_spec(*h, old(self)@, *ctx, rexpr.0 as int).0 is Panic),
        ensures
            result_is(r, get_spec(*h, old(self)@, *ctx, rexpr.0 as int).0),
            final(self)@ == get_spec(*h, old(self)@, *ctx, rexpr.0 as int).1,
        decreases rexpr.0 as int, 1int, 0int,
    {
        let ghost e = rexpr.0 as int;
        match &h.expressions[rexpr.0] {
            Expression::Variable(v) => {
                let d = match v.declaration {
                    Some(d) => d,
                    None => unreached(),
                };
                match self.map.get(&d.0) {
                    Some(x) => Ok(x.duplicate()),
                    None => unreached(),
                }
            },
            Expression::Indexing(ix) => {
                assert(children(h.expr(e))[1] == ix.index);
                let index = match self.eval(h, ctx, ix.index) {
                    Ok(i) => i,
                    Err(c) => return Err(c),
                };
                let var = Self::subject_of(h, ix.subject);
                let subject = match self.map.get(&var) {
                    Some(x) => x,
                    None => unreached(),
                };
                proof {
                    lemma_value_view(*subject);
                    lemma_value_view(index);
                }
                match subject.get(&index) {
                    Some(x) => Ok(x),
                    None => Err(EvalContinuation::Inconsistent),
                }
            },
            Expression::Select(sel) => {
                let var = Self::subject_of(h, sel.subject);
                let subject = match self.map.get(&var) {
                    Some(x) => x,
                    None => unreached(),
                };
                proof {
                    lemma_value_view(*subject);
                }
                match subject.length() {
                    Some(x) => Ok(x),
                    None => Err(EvalContinuation::Inconsistent),
                }
            },
            _ => unreached(),
        }
    }

    /// Evaluates the expression `expr`.
    pub fn eval(&mut self, h: &Heap, ctx: &EvalContext, expr: ExpressionId) -> (r: Result<Value, EvalContinuation>)
        requires
            h.wf(),
            expr.0 < h.expressions@.len(),
            !(eval_spec(*h, old(self)@, *ctx, expr.0 as int).0 is Panic),
        ensures
            result_is(r, eval_spec(*h, old(self)@, *ctx, expr.0 as int).0),
            final(self)@ == eval_spec(*h, old(self)@, *ctx, expr.0 as int).1,
        decreases expr.0 as int, 3int, 0int,
    {
        match &h.expressions[expr.0] {
            Expression::Assignment(_) => self.eval_assignment(h, ctx, expr),
            Expression::Conditional(_) => self.eval_conditional(h, ctx, expr),
            Expression::Binary(_) => self.eval_binary(h, ctx, expr),
            Expression::Unary(_) => self.eval_unary(h, ctx, expr),
            Expression::Indexing(_) => self.get(h, ctx, expr),
            Expression::Slicing(_) => unreached(),
            Expression::Select(_) => self.get(h, ctx, expr),
            Expression::Array(_) => self.eval_array(h, ctx, expr),
            Expression::Constant(c) => {
                let v = Value::from_constant(&c.value);
                proof {
                    if let Constant::Integer(data) = &c.value {
                        lemma_integer_value_view(narrowest_rank(decimal_value(data@)), decimal_value(data@));
                    }
                }
                Ok(v)
            },
            Expression::Call(_) => self.eval_call(h, ctx, expr),
            Expression::Variable(_) => self.get(h, ctx, expr),
        }
    }

    fn eval_assignment(&mut self, h: &Heap, ctx: &EvalContext, expr: ExpressionId) -> (r: Result<Value, EvalContinuation>)
        requires
            h.wf(),
            expr.0 < h.expressions@.len(),
            h.expr(expr.0 as int) is Assignment,
            !(eval_spec(*h, old(self)@, *ctx, expr.0 as int).0 is Panic),
        ensures
            result_is(r, eval_spec(*h, old(self)@, *ctx, expr.0 as int).0),
            final(self)@ == eval_spec(*h, old(self)@, *ctx, expr.0 as int).1,
        decreases expr.0 as int, 2int, 0int,
    {
        let ghost e = expr.0 as int;
        let a = match &h.expressions[expr.0] {
            Expression::Assignment(a) => a,
            _ => unreached(),
        };
        assert(children(h.expr(e))[0] == a.left);
        assert(children(h.expr(e))[1] == a.right);
        let value = match self.eval(h, ctx, a.right) {
            Ok(v) => v,
            Err(c) => return Err(c),
        };
        match a.operation {
            AssignmentOperator::Assigned => {
                let stored = value.duplicate();
                match self.update(h, ctx, a.left, stored) {
                    Ok(_) => {},
                    Err(c) => return Err(c),
                }
            },
            AssignmentOperator::Added => {
                let old = match self.get(h, ctx, a.left) {
                    Ok(v) => v,
                    Err(c) => return Err(c),
                };
                proof {
                    lemma_value_view(old);
                    lemma_value_view(value);
                    lemma_integer_value_view(vmax_rank(old@, value@), vint(old@) + vint(value@));
                }
                let sum = old.plus(&value);
                match self.update(h, ctx, a.left, sum) {
                    Ok(_) => {},
                    Err(c) => return Err(c),
                }
            },
            AssignmentOperator::Subtracted => {
                let old = match self.get(h, ctx, a.left) {
                    Ok(v) => v,
                    Err(c) => return Err(c),
                };
                proof {
                    lemma_value_view(old);
                    lemma_value_view(value);
                    lemma_integer_value_view(vmax_rank(old@, value@), vint(old@) - vint(value@));
                }
                let difference = old.minus(&value);
                match self.update(h, ctx, a.left, difference) {
                    Ok(_) => {},
                    Err(c) => return Err(c),
                }
            },
            _ => unreached(),
        }
        Ok(value)
    }

    fn eval_conditional(&mut self, h: &Heap, ctx: &EvalContext, expr: ExpressionId) -> (r: Result<Value, EvalContinuation>)
        requires
            h.wf(),
            expr.0 < h.expressions@.len(),
            h.expr(expr.0 as int) is Conditional,
            !(eval_spec(*h, old(self)@, *ctx, expr.0 as int).0 is Panic),
        ensures
            result_is(r, eval_spec(*h, old(self)@, *ctx, expr.0 as int).0),
            final(self)@ == eval_spec(*h, old(self)@, *ctx, expr.0 as int).1,
        decreases expr.0 as int, 2int, 0int,
    {
        let ghost e = expr.0 as int;
        let c = match &h.expressions[expr.0] {
            Expression::Conditional(c) => c,
            _ => unreached(),
        };
        assert(children(h.expr(e))[0] == c.test);
        assert(children(h.expr(e))[1] == c.true_expression);
        assert(children(h.expr(e))[2] == c.false_expression);
        let test = match self.eval(h, ctx, c.test) {
            Ok(v) => v,
            Err(k) => return Err(k),
        };
        proof {
            lemma_value_view(test);
        }
        if test.as_boolean().0 {
            self.eval(h, ctx, c.true_expression)
        } else {
            self.eval(h, ctx, c.false_expression)
        }
    }

    fn eval_binary(&mut self, h: &Heap, ctx: &EvalContext, expr: ExpressionId) -> (r: Result<Value, EvalContinuation>)
        requires
            h.wf(),
            expr.0 < h.expressions@.len(),
            h.expr(expr.0 as int) is Binary,
            !(eval_spec(*h, old(self)@, *ctx, expr.0 as int).0 is Panic),
        ensures
            result_is(r, eval_spec(*h, old(self)@, *ctx, expr.0 as int).0),
            final(self)@ == eval_spec(*h, old(self)@, *ctx, expr.0 as int).1,
        decreases expr.0 as int, 2int, 0int,
    {
        let ghost e = expr.0 as int;
        let b = match &h.expressions[expr.0] {
            Expression::Binary(b) => b,
            _ => unreached(),
        };
        assert(children(h.expr(e))[0] == b.left);
        assert(children(h.expr(e))[1] == b.right);
        let left = match self.eval(h, ctx, b.left) {
            Ok(v) => v,
            Err(c) => return Err(c),
        };
        proof {
            lemma_value_view(left);
        }
        match b.operation {
            BinaryOperator::LogicalAnd => {
                if left.as_boolean().0 == false {
                    return Ok(left);
                }
                let right = match self.eval(h, ctx, b.right) {
                    Ok(v) => v,
                    Err(c) => return Err(c),
                };
                proof {
                    lemma_value_view(right);
                }
                let _ = right.as_boolean();
                return Ok(right);
            },
            BinaryOperator::LogicalOr => {
                if left.as_boolean().0 == true {
                    return Ok(left);
                }
                let right = match self.eval(h, ctx, b.right) {
                    Ok(v) => v,
                    Err(c) => return Err(c),
                };
                proof {
                    lemma_value_view(right);
                }
                let _ = right.as_boolean();
                return Ok(right);
            },
            _ => {},
        }
        let right = match self.eval(h, ctx, b.right) {
            Ok(v) => v,
            Err(c) => return Err(c),
        };
        proof {
            lemma_value_view(right);
        }
        match b.operation {
            BinaryOperator::Equality => Ok(left.eq(&right)),
            BinaryOperator::Inequality => Ok(left.neq(&right)),
            BinaryOperator::LessThan => Ok(left.lt(&right)),
            BinaryOperator::LessThanEqual => Ok(left.lte(&right)),
            BinaryOperator::GreaterThan => Ok(left.gt(&right)),
            BinaryOperator::GreaterThanEqual => Ok(left.gte(&right)),
            BinaryOperator::Remainder => {
                proof {
                    lemma_integer_value_view(vmax_rank(left@, right@), trunc_rem(vint(left@), vint(right@)));
                }
                Ok(left.modulus(&right))
            },
            _ => unreached(),
        }
    }

    fn eval_unary(&mut self, h: &Heap, ctx: &EvalContext, expr: ExpressionId) -> (r: Result<Value, EvalContinuation>)
        requires
            h.wf(),
            expr.0 < h.expressions@.len(),
            h.expr(expr.0 as int) is Unary,
            !(eval_spec(*h, old(self)@, *ctx, expr.0 as int).0 is Panic),
        ensures
            result_is(r, eval_spec(*h, old(self)@, *ctx, expr.0 as int).0),
            final(self)@ == eval_spec(*h, old(self)@, *ctx, expr.0 as int).1,
        decreases expr.0 as int, 2int, 0int,
    {
        let ghost e = expr.0 as int;
        let u = match &h.expressions[expr.0] {
            Expression::Unary(u) => u,
            _ => unreached(),
        };
        assert(children(h.expr(e))[0] == u.expression);
        let value = match self.eval(h, ctx, u.expression) {
            Ok(v) => v,
            Err(c) => return Err(c),
        };
        let one_value = Value::Byte(ByteValue(1));
        proof {
            lemma_value_view(value);
            lemma_value_view(one_value);
            lemma_integer_value_view(vmax_rank(value@, one()), vint(value@) + 1);
            lemma_integer_value_view(vmax_rank(value@, one()), vint(value@) - 1);
        }
        match u.operation {
            UnaryOperation::PostIncrement => {
                let next = value.plus(&one_value);
                match self.update(h, ctx, u.expression, next) {
                    Ok(_) => Ok(value),
                    Err(c) => Err(c),
                }
            },
            UnaryOperation::PreIncrement => {
                let next = value.plus(&one_value);
                let stored = next.duplicate();
                match self.update(h, ctx, u.expression, stored) {
                    Ok(_) => Ok(next),
                    Err(c) => Err(c),
                }
            },
            UnaryOperation::PostDecrement => {
                let next = value.minus(&one_value);
                match self.update(h, ctx, u.expression, next) {
                    Ok(_) => Ok(value),
                    Err(c) => Err(c),
                }
            },
            UnaryOperation::PreDecrement => {
                let next = value.minus(&one_value);
                let stored = next.duplicate();
                match self.update(h, ctx, u.expression, stored) {
                    Ok(_) => Ok(next),
                    Err(c) => Err(c),
                }
            },
            _ => unreached(),
        }
    }

    fn eval_array(&mut self, h: &Heap, ctx: &EvalContext, expr: ExpressionId) -> (r: Result<Value, EvalContinuation>)
        requires
            h.wf(),
            expr.0 < h.expressions@.len(),
            h.expr(expr.0 as int) is Array,
            !(eval_spec(*h, old(self)@, *ctx, expr.0 as int).0 is Panic),
        ensures
            result_is(r, eval_spec(*h, old(self)@, *ctx, expr.0 as int).0),
            final(self)@ == eval_spec(*h, old(self)@, *ctx, expr.0 as int).1,
        decreases expr.0 as int, 2int, 0int,
    {
        let ghost e = expr.0 as int;
        let a = match &h.expressions[expr.0] {
            Expression::Array(a) => a,
            _ => unreached(),
        };
        let ghost ids = a.elements@;
        let ghost st0 = self@;
        let mut k: usize = 0;
        while k < a.elements.len()
            invariant
                h.wf(),
                e == expr.0 as int,
                st0 == old(self)@,
                0 <= e < h.expressions@.len(),
                h.expr(e) == Expression::Array(*a),
                ids == a.elements@,
                ids == children(h.expr(e)),
                k <= ids.len(),
                eval_spec(*h, st0, *ctx, e) == (match eval_list_spec(*h, self@, *ctx, e, ids, k as int).0 {
                    Some(o) => (o, eval_list_spec(*h, self@, *ctx, e, ids, k as int).1),
                    None => (Outcome::Panic, eval_list_spec(*h, self@, *ctx, e, ids, k as int).1),
                }),
                !(eval_spec(*h, st0, *ctx, e).0 is Panic),
            decreases ids.len() - k,
        {
            let elem = a.elements[k];
            assert(children(h.expr(e))[k as int] == elem);
            assert(elem.0 < e);
            let ghost sk = self@;
            assert(eval_list_spec(*h, sk, *ctx, e, ids, k as int) == (match eval_spec(*h, sk, *ctx, elem.0 as int).0 {
                Outcome::Done(_) => eval_list_spec(*h, eval_spec(*h, sk, *ctx, elem.0 as int).1, *ctx, e, ids, k + 1),
                _ => (Some(eval_spec(*h, sk, *ctx, elem.0 as int).0), eval_spec(*h, sk, *ctx, elem.0 as int).1),
            }));
            match self.eval(h, ctx, elem) {
                Ok(_) => {},
                Err(c) => return Err(c),
            }
            k += 1;
        }
        unreached()
    }

    fn eval_call(&mut self, h: &Heap, ctx: &EvalContext, expr: ExpressionId) -> (r: Result<Value, EvalContinuation>)
        requires
            h.wf(),
            expr.0 < h.expressions@.len(),
            h.expr(expr.0 as int) is Call,
            !(eval_spec(*h, old(self)@, *ctx, expr.0 as int).0 is Panic),
        ensures
            result_is(r, eval_spec(*h, old(self)@, *ctx, expr.0 as int).0),
            final(self)@ == eval_spec(*h, old(self)@, *ctx, expr.0 as int).1,
        decreases expr.0 as int, 2int, 0int,
    {
        let ghost e = expr.0 as int;
        let c = match &h.expressions[expr.0] {
            Expression::Call(c) => c,
            _ => unreached(),
        };
        if let Method::Symbolic(_) = &c.method {
            unreached()
        }
        if c.arguments.len() != 1 {
            unreached()
        }
        let arg = c.arguments[0];
        assert(children(h.expr(e))[0] == arg);
        let v = match self.eval(h, ctx, arg) {
            Ok(v) => v,
            Err(k) => return Err(k),
        };
        proof {
            lemma_value_view(v);
        }
        match &c.method {
            Method::Create => Ok(Value::create_message(v)),
            Method::Fires => match ctx {
                EvalContext::Poly(ans) => {
                    let k = match &v {
                        Value::Input(p) => p.0,
                        Value::Output(p) => p.0,
                        _ => unreached(),
                    };
                    match lookup_firing(ans, k) {
                        Some(b) => Ok(Value::from_bool(b)),
                        None => Err(EvalContinuation::BlockFires(v)),
                    }
                },
                _ => unreached(),
            },
            Method::Get => match ctx {
                EvalContext::Poly(ans) => {
                    let k = match &v {
                        Value::Input(p) => p.0,
                        Value::Output(p) => p.0,
                        _ => unreached(),
                    };
                    match lookup_inbox(ans, k) {
                        Some(b) => Ok(Value::receive_message(b)),
                        None => Err(EvalContinuation::BlockGet(v)),
                    }
                },
                _ => unreached(),
            },
            Method::Symbolic(_) => unreached(),
        }
    }
}

/// How much an increment (1) or a decrement (-1) changes its operand; 0 for the other unary
/// operations.
pub open spec fn step_delta(op: UnaryOperation) -> int {
    match op {
        UnaryOperation::PreIncrement | UnaryOperation::PostIncrement => 1,
        UnaryOperation::PreDecrement | UnaryOperation::PostDecrement => -1,
        _ => 0,
    }
}

/// Whether the operation is a postfix increment or decrement.
pub open spec fn is_postfix(op: UnaryOperation) -> bool {
    op is PostIncrement || op is PostDecrement
}

proof fn lemma_vint_vinteger(rank: nat, x: int)
    requires
        fits_rank(rank, x),
    ensures
        vis_integer(vinteger(rank, x)),
        vint(vinteger(rank, x)) == x,
{
}

/// An increment or decrement that evaluates to a value found its operand to hold an integer
/// `v`: a postfix one evaluates to `v` itself, a prefix one to `v` changed by the step; and
/// where the operand is a variable, the variable holds `v` changed by the step afterwards.
pub proof fn law_step_operators(h: Heap, st: Map<usize, ValueView>, ctx: EvalContext, e: int)
    requires
        0 <= e < h.expressions.len(),
        h.expr(e) is Unary,
        step_delta(h.expr(e)->Unary_0.operation) != 0,
        eval_spec(h, st, ctx, e).0 is Done,
    ensures
        ({
            let u = h.expr(e)->Unary_0;
            let x = u.expression.0 as int;
            let v = eval_spec(h, st, ctx, x).0->Done_0;
            let r = eval_spec(h, st, ctx, e);
            &&& eval_spec(h, st, ctx, x).0 is Done
            &&& vis_integer(v)
            &&& is_postfix(u.operation) ==> r.0 == Outcome::Done(v)
            &&& !is_postfix(u.operation) ==> vis_integer(r.0->Done_0) && vint(r.0->Done_0) == vint(v) + step_delta(u.operation)
            &&& (h.expr(x) matches Expression::Variable(var) && var.declaration is Some) ==> {
                let d = h.expr(x)->Variable_0.declaration->Some_0.0;
                &&& r.1.contains_key(d)
                &&& vis_integer(r.1[d])
                &&& vint(r.1[d]) == vint(v) + step_delta(u.operation)
            }
        }),
{
    let u = h.expr(e)->Unary_0;
    let x = u.expression.0 as int;
    let (o1, s1) = eval_spec(h, st, ctx, x);
    assert(u.expression.0 < e);
    assert(o1 is Done);
    let v = o1->Done_0;
    let rank = vmax_rank(v, one());
    let nv = if step_delta(u.operation) == 1 { vplus(v, one()) } else { vminus(v, one()) };
    if step_delta(u.operation) == 1 {
        assert(plus_ok(v, one()));
        lemma_vint_vinteger(rank, vint(v) + vint(one()));
    } else {
        assert(minus_ok(v, one()));
        lemma_vint_vinteger(rank, vint(v) - vint(one()));
    }
    let (o2, s2) = update_spec(h, s1, ctx, x, nv);
    assert(o2 is Done);
    assert(eval_spec(h, st, ctx, e).1 == s2);
    if is_postfix(u.operation) {
        assert(eval_spec(h, st, ctx, e).0 == Outcome::Done(v));
    } else {
        assert(eval_spec(h, st, ctx, e).0 == Outcome::Done(nv));
    }
}

} // verus!
