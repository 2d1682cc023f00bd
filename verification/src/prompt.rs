use vstd::prelude::*;
use vstd::pervasive::unreached;
use crate::ast::{
    DefinitionId, Expression, ExpressionId, Heap, LocalStatement, Statement, StatementId,
    VariableId,
};
use crate::eval::{lemma_value_view, vcompatible, InputValue, OutputValue, Value, ValueView};
use crate::store::{
    eval_spec, result_is, views, ContinuationView, EvalContext, EvalContinuation, Outcome, Store,
};

verus! {

/// Evaluates the expressions `ids[k..]` in order, collecting their values after `acc`: the
/// values, or how the first evaluation that gives none ends; and the variables afterwards.
pub open spec fn eval_args_spec(h: Heap, st: Map<usize, ValueView>, ctx: EvalContext, ids: Seq<ExpressionId>, k: int, acc: Seq<ValueView>) -> (Result<Seq<ValueView>, Outcome>, Map<usize, ValueView>)
    decreases ids.len() - k,
{
    if k < 0 || k >= ids.len() {
        (Ok(acc), st)
    } else {
        let (o, s1) = eval_spec(h, st, ctx, ids[k].0 as int);
        match o {
            Outcome::Done(v) => eval_args_spec(h, s1, ctx, ids, k + 1, acc.push(v)),
            _ => (Err(o), s1),
        }
    }
}

/// The declared type of variable `v` admits `value`.
pub open spec fn admits(h: Heap, v: VariableId, value: ValueView) -> bool {
    v.0 < h.variables.len() && vcompatible(value, h.variables@[v.0 as int].the_type)
}

/// One step of a component or function at statement `pos` with variables `st`: how the step
/// ends (a value only for a return), the next statement, and the variables afterwards.
pub open spec fn step_spec(h: Heap, ctx: EvalContext, pos: Option<StatementId>, st: Map<usize, ValueView>) -> (Outcome, Option<StatementId>, Map<usize, ValueView>) {
    let stepping = Outcome::Stop(ContinuationView::Stepping);
    match pos {
        None => (Outcome::Stop(ContinuationView::Terminal), pos, st),
        Some(p) => if p.0 >= h.statements.len() {
            (Outcome::Panic, pos, st)
        } else {
            match h.statements@[p.0 as int] {
                Statement::Block(b) => if b.statements@.len() == 0 {
                    (Outcome::Panic, pos, st)
                } else {
                    (stepping, Some(b.statements@[0]), st)
                },
                Statement::Local(LocalStatement::Memory(m)) => {
                    let (o, s1) = eval_spec(h, st, ctx, m.initial.0 as int);
                    match o {
                        Outcome::Done(v) => if admits(h, m.variable, v) {
                            (stepping, m.next, s1.insert(m.variable.0, v))
                        } else {
                            (Outcome::Panic, pos, s1)
                        },
                        _ => (o, pos, s1),
                    }
                },
                Statement::Local(LocalStatement::Channel(c)) => match ctx {
                    EvalContext::Mono(ans) => {
                        let from = ValueView::Output(ans.new_channel.0);
                        let to = ValueView::Input(ans.new_channel.1);
                        if admits(h, c.from, from) && admits(h, c.to, to) {
                            (stepping, c.next, st.insert(c.from.0, from).insert(c.to.0, to))
                        } else {
                            (Outcome::Panic, pos, st)
                        }
                    },
                    _ => (Outcome::Panic, pos, st),
                },
                Statement::Skip(s) => (stepping, s.next, st),
                Statement::Labeled(l) => (stepping, Some(l.body), st),
                Statement::If(i) => {
                    let (o, s1) = eval_spec(h, st, ctx, i.test.0 as int);
                    match o {
                        Outcome::Done(ValueView::Boolean(t)) => (stepping, Some(if t { i.true_body } else { i.false_body }), s1),
                        Outcome::Done(_) => (Outcome::Panic, pos, s1),
                        _ => (o, pos, s1),
                    }
                },
                Statement::EndIf(e) => (stepping, e.next, st),
                Statement::While(w) => {
                    let (o, s1) = eval_spec(h, st, ctx, w.test.0 as int);
                    match o {
                        Outcome::Done(ValueView::Boolean(t)) => (stepping, if t { Some(w.body) } else { w.next }, s1),
                        Outcome::Done(_) => (Outcome::Panic, pos, s1),
                        _ => (o, pos, s1),
                    }
                },
                Statement::EndWhile(e) => (stepping, e.next, st),
                Statement::Synchronous(s) => (Outcome::Stop(ContinuationView::SyncBlockStart), Some(s.body), st),
                Statement::EndSynchronous(e) => (Outcome::Stop(ContinuationView::SyncBlockEnd), e.next, st),
                Statement::Break(b) => (stepping, b.target, st),
                Statement::Continue(c) => (stepping, c.target, st),
                Statement::Assert(a) => {
                    let (o, s1) = eval_spec(h, st, ctx, a.expression.0 as int);
                    match o {
                        Outcome::Done(ValueView::Boolean(t)) => if t {
                            (stepping, a.next, s1)
                        } else {
                            (Outcome::Stop(ContinuationView::Inconsistent), pos, s1)
                        },
                        Outcome::Done(_) => (Outcome::Panic, pos, s1),
                        _ => (o, pos, s1),
                    }
                },
                Statement::Return(r) => {
                    let (o, s1) = eval_spec(h, st, ctx, r.expression.0 as int);
                    (o, pos, s1)
                },
                Statement::Goto(g) => (stepping, g.target, st),
                Statement::New(n) => if n.expression.0 >= h.expressions.len() {
                    (Outcome::Panic, pos, st)
                } else {
                    match h.expr(n.expression.0 as int) {
                        Expression::Call(c) => {
                            let (r, s1) = eval_args_spec(h, st, ctx, c.arguments@, 0, seq![]);
                            match r {
                                Ok(vals) => match c.declaration {
                                    Some(d) => (Outcome::Stop(ContinuationView::NewComponent(d, vals)), n.next, s1),
                                    None => (Outcome::Panic, pos, s1),
                                },
                                Err(o) => (o, pos, s1),
                            }
                        },
                        _ => (Outcome::Panic, pos, st),
                    }
                },
                Statement::Put(pt) => {
                    let (o1, s1) = eval_spec(h, st, ctx, pt.port.0 as int);
                    match o1 {
                        Outcome::Done(port) => {
                            let (o2, s2) = eval_spec(h, s1, ctx, pt.message.0 as int);
                            match o2 {
                                Outcome::Done(msg) => (Outcome::Stop(ContinuationView::Put(port, msg)), pt.next, s2),
                                _ => (o2, pos, s2),
                            }
                        },
                        _ => (o1, pos, s1),
                    }
                },
                Statement::Expression(e) => {
                    let (o, s1) = eval_spec(h, st, ctx, e.expression.0 as int);
                    match o {
                        Outcome::Done(_) => (stepping, e.next, s1),
                        _ => (o, pos, s1),
                    }
                },
            }
        },
    }
}

/// The variables after binding the parameters `params[k..]` to the arguments in order.
pub open spec fn bind_arguments(params: Seq<VariableId>, args: Seq<ValueView>, st: Map<usize, ValueView>, k: int) -> Map<usize, ValueView>
    decreases params.len() - k,
{
    if k < 0 || k >= params.len() {
        st
    } else {
        bind_arguments(params, args, st.insert(params[k].0, args[k]), k + 1)
    }
}

/// Whether definition `def` can be started with these arguments: as many as it has
/// parameters, each admitted by its parameter's type.
pub open spec fn arguments_fit(h: Heap, def: DefinitionId, args: Seq<ValueView>) -> bool {
    &&& def.0 < h.definitions.len()
    &&& h.definitions@[def.0 as int].parameters@.len() == args.len()
    &&& forall|i: int| 0 <= i < args.len() ==> admits(h, #[trigger] h.definitions@[def.0 as int].parameters@[i], args[i])
}

/// A running component or function: its definition, its variables, and the statement it
/// executes next (none when it has finished).
#[derive(Clone)]
pub struct Prompt {
    pub definition: DefinitionId,
    pub store: Store,
    pub position: Option<StatementId>,
}

impl Prompt {
    /// Starts definition `def` with its parameters bound to `args`, at the start of its body.
    pub fn new(h: &Heap, def: DefinitionId, args: &Vec<Value>) -> (r: Prompt)
        requires
            arguments_fit(*h, def, views(args@)),
        ensures
            r.definition == def,
            r.position == Some(h.definitions@[def.0 as int].body),
            r.store@ == bind_arguments(h.definitions@[def.0 as int].parameters@, views(args@), Map::empty(), 0),
    {
        let mut prompt = Prompt {
            definition: def,
            store: Store::new(),
            position: Some(h.definitions[def.0].body),
        };
        prompt.set_arguments(h, args);
        prompt
    }

    fn set_arguments(&mut self, h: &Heap, args: &Vec<Value>)
        requires
            arguments_fit(*h, old(self).definition, views(args@)),
        ensures
            final(self).definition == old(self).definition,
            final(self).position == old(self).position,
            final(self).store@ == bind_arguments(h.definitions@[old(self).definition.0 as int].parameters@, views(args@), old(self).store@, 0),
    {
        let def = &h.definitions[self.definition.0];
        let params = &def.parameters;
        let ghost st0 = self.store@;
        let ghost ps = params@;
        let mut k: usize = 0;
        while k < params.len()
            invariant
                k <= params@.len(),
                ps == params@,
                params@.len() == args@.len(),
                self.definition == old(self).definition,
                self.position == old(self).position,
                *def == h.definitions@[self.definition.0 as int],
                params@ == h.definitions@[self.definition.0 as int].parameters@,
                arguments_fit(*h, self.definition, views(args@)),
                bind_arguments(ps, views(args@), st0, 0) == bind_arguments(ps, views(args@), self.store@, k as int),
            decreases params@.len() - k,
        {
            let param = params[k];
            assert(admits(*h, h.definitions@[self.definition.0 as int].parameters@[k as int], views(args@)[k as int]));
            let value = args[k].duplicate();
            self.store.initialize(h, param, value);
            k += 1;
        }
    }

    /// Evaluates the expressions `ids` in order, pushing their values onto `acc`.
    fn eval_arguments(&mut self, h: &Heap, ctx: &EvalContext, ids: &Vec<ExpressionId>, acc: &mut Vec<Value>) -> (r: Result<(), EvalContinuation>)
        requires
            h.wf(),
            !(eval_args_spec(*h, old(self).store@, *ctx, ids@, 0, views(old(acc)@)).0 matches Err(Outcome::Panic)),
        ensures
            final(self).definition == old(self).definition,
            final(self).position == old(self).position,
            final(self).store@ == eval_args_spec(*h, old(self).store@, *ctx, ids@, 0, views(old(acc)@)).1,
            match r {
                Ok(()) => eval_args_spec(*h, old(self).store@, *ctx, ids@, 0, views(old(acc)@)).0 == Ok::<Seq<ValueView>, Outcome>(views(final(acc)@)),
                Err(c) => eval_args_spec(*h, old(self).store@, *ctx, ids@, 0, views(old(acc)@)).0 == Err::<Seq<ValueView>, Outcome>(Outcome::Stop(c@)),
            },
    {
        let ghost st0 = self.store@;
        let ghost acc0 = views(acc@);
        let mut k: usize = 0;
        while k < ids.len()
            invariant
                h.wf(),
                k <= ids@.len(),
                st0 == old(self).store@,
                acc0 == views(old(acc)@),
                self.definition == old(self).definition,
                self.position == old(self).position,
                eval_args_spec(*h, st0, *ctx, ids@, 0, acc0) == eval_args_spec(*h, self.store@, *ctx, ids@, k as int, views(acc@)),
                !(eval_args_spec(*h, st0, *ctx, ids@, 0, acc0).0 matches Err(Outcome::Panic)),
            decreases ids@.len() - k,
        {
            let id = ids[k];
            let ghost sk = self.store@;
            let ghost ak = views(acc@);
            assert(eval_args_spec(*h, sk, *ctx, ids@, k as int, ak) == (match eval_spec(*h, sk, *ctx, id.0 as int).0 {
                Outcome::Done(v) => eval_args_spec(*h, eval_spec(*h, sk, *ctx, id.0 as int).1, *ctx, ids@, k + 1, ak.push(v)),
                _ => (Err(eval_spec(*h, sk, *ctx, id.0 as int).0), eval_spec(*h, sk, *ctx, id.0 as int).1),
            }));
            if id.0 >= h.expressions.len() {
                unreached()
            }
            match self.store.eval(h, ctx, id) {
                Ok(v) => {
                    let ghost before = views(acc@);
                    acc.push(v);
                    assert(views(acc@) =~= before.push(v@));
                },
                Err(c) => return Err(c),
            }
            k += 1;
        }
        Ok(())
    }

    /// Executes one statement.
    pub fn step(&mut self, h: &Heap, ctx: &EvalContext) -> (r: Result<Value, EvalContinuation>)
        requires
            h.wf(),
            !(step_spec(*h, *ctx, old(self).position, old(self).store@).0 is Panic),
        ensures
            result_is(r, step_spec(*h, *ctx, old(self).position, old(self).store@).0),
            final(self).position == step_spec(*h, *ctx, old(self).position, old(self).store@).1,
            final(self).store@ == step_spec(*h, *ctx, old(self).position, old(self).store@).2,
            final(self).definition == old(self).definition,
    {
        let pos = match self.position {
            Some(p) => p,
            None => return Err(EvalContinuation::Terminal),
        };
        if pos.0 >= h.statements.len() {
            unreached()
        }
        match &h.statements[pos.0] {
            Statement::Block(b) => {
                if b.statements.len() == 0 {
                    unreached()
                }
                self.position = Some(b.first());
                Err(EvalContinuation::Stepping)
            },
            Statement::Local(local) => {
                match local {
                    LocalStatement::Memory(m) => {
                        if m.initial.0 >= h.expressions.len() {
                            unreached()
                        }
                        let value = match self.store.eval(h, ctx, m.initial) {
                            Ok(v) => v,
                            Err(c) => return Err(c),
                        };
                        self.store.initialize(h, m.variable, value);
                    },
                    LocalStatement::Channel(c) => {
                        let (from, to) = match ctx {
                            EvalContext::Mono(ans) => (
                                Value::Output(OutputValue(ans.new_channel.0)),
                                Value::Input(InputValue(ans.new_channel.1)),
                            ),
                            _ => unreached(),
                        };
                        self.store.initialize(h, c.from, from);
                        self.store.initialize(h, c.to, to);
                    },
                }
                self.position = local.next();
                Err(EvalContinuation::Stepping)
            },
            Statement::Skip(s) => {
                self.position = s.next;
                Err(EvalContinuation::Stepping)
            },
            Statement::Labeled(l) => {
                self.position = Some(l.body);
                Err(EvalContinuation::Stepping)
            },
            Statement::If(i) => {
                if i.test.0 >= h.expressions.len() {
                    unreached()
                }
                let value = match self.store.eval(h, ctx, i.test) {
                    Ok(v) => v,
                    Err(c) => return Err(c),
                };
                proof {
                    lemma_value_view(value);
                }
                if value.as_boolean().0 {
                    self.position = Some(i.true_body);
                } else {
                    self.position = Some(i.false_body);
                }
                Err(EvalContinuation::Stepping)
            },
            Statement::EndIf(e) => {
                self.position = e.next;
                Err(EvalContinuation::Stepping)
            },
            Statement::While(w) => {
                if w.test.0 >= h.expressions.len() {
                    unreached()
                }
                let value = match self.store.eval(h, ctx, w.test) {
                    Ok(v) => v,
                    Err(c) => return Err(c),
                };
                proof {
                    lemma_value_view(value);
                }
                if value.as_boolean().0 {
                    self.position = Some(w.body);
                } else {
                    self.position = w.next;
                }
                Err(EvalContinuation::Stepping)
            },
            Statement::EndWhile(e) => {
                self.position = e.next;
                Err(EvalContinuation::Stepping)
            },
            Statement::Synchronous(s) => {
                self.position = Some(s.body);
                Err(EvalContinuation::SyncBlockStart)
            },
            Statement::EndSynchronous(e) => {
                self.position = e.next;
                Err(EvalContinuation::SyncBlockEnd)
            },
            Statement::Break(b) => {
                self.position = b.target;
                Err(EvalContinuation::Stepping)
            },
            Statement::Continue(c) => {
                self.position = c.target;
                Err(EvalContinuation::Stepping)
            },
            Statement::Assert(a) => {
                if a.expression.0 >= h.expressions.len() {
                    unreached()
                }
                let value = match self.store.eval(h, ctx, a.expression) {
                    Ok(v) => v,
                    Err(c) => return Err(c),
                };
                proof {
                    lemma_value_view(value);
                }
                if value.as_boolean().0 {
                    self.position = a.next;
                    Err(EvalContinuation::Stepping)
                } else {
                    Err(EvalContinuation::Inconsistent)
                }
            },
            Statement::Return(r) => {
                if r.expression.0 >= h.expressions.len() {
                    unreached()
                }
                self.store.eval(h, ctx, r.expression)
            },
            Statement::Goto(g) => {
                self.position = g.target;
                Err(EvalContinuation::Stepping)
            },
            Statement::New(n) => {
                if n.expression.0 >= h.expressions.len() {
                    unreached()
                }
                let call = match &h.expressions[n.expression.0] {
                    Expression::Call(c) => c,
                    _ => unreached(),
                };
                let mut args: Vec<Value> = Vec::new();
                assert(views(args@) =~= Seq::<ValueView>::empty());
                match self.eval_arguments(h, ctx, &call.arguments, &mut args) {
                    Ok(()) => {},
                    Err(c) => return Err(c),
                }
                self.position = n.next;
                match call.declaration {
                    Some(d) => Err(EvalContinuation::NewComponent(d, args)),
                    None => unreached(),
                }
            },
            Statement::Put(pt) => {
                if pt.port.0 >= h.expressions.len() {
                    unreached()
                }
                let port = match self.store.eval(h, ctx, pt.port) {
                    Ok(v) => v,
                    Err(c) => return Err(c),
                };
                if pt.message.0 >= h.expressions.len() {
                    unreached()
                }
                let message = match self.store.eval(h, ctx, pt.message) {
                    Ok(v) => v,
                    Err(c) => return Err(c),
                };
                self.position = pt.next;
                Err(EvalContinuation::Put(port, message))
            },
            Statement::Expression(e) => {
                if e.expression.0 >= h.expressions.len() {
                    unreached()
                }
                match self.store.eval(h, ctx, e.expression) {
                    Ok(_) => {},
                    Err(c) => return Err(c),
                }
                self.position = e.next;
                Err(EvalContinuation::Stepping)
            },
        }
    }
}

} // verus!
