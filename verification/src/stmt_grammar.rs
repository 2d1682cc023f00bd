use vstd::prelude::*;
use vstd::string::StringSliceAdditionalSpecFns;
use crate::ast::{
    ExprView, ExpressionId, PrimitiveView, StatementId, StmtView, TypeView, VarView, VariableId,
};
use crate::grammar::{call_p, expr_p, fwd, paren_p, pos_at, ws, Parse};
use crate::inputsource::InputPosition;
use crate::lexer::{
    byte, declaration_follows, ident_end, ident_scan, ident_then, identifier_at, keyword_at,
    keyword_scan, primitive_choice, primitive_of, primitive_scan, array_follows, statement_keyword_at,
    string_at, string_scan, type_scan, whitespace_scan, Scan, MAX_LEVEL,
};

verus! {

/// The arenas of a heap as mathematics sees them: expressions, variables and statements.
pub struct Arenas {
    pub exprs: Seq<ExprView>,
    pub vars: Seq<VarView>,
    pub stmts: Seq<StmtView>,
}

/// How parsing a statement (or a parameter) ends: the arenas, the index of what was read
/// and the offset after it; or the arenas and an error at an offset with a message.
pub enum SParse {
    Done(Arenas, nat, nat),
    Failed(Arenas, nat, Seq<u8>),
}

/// How parsing a sequence of statements ends.
pub enum StmtsParse {
    Done(Arenas, Seq<StatementId>, nat),
    Failed(Arenas, nat, Seq<u8>),
}

/// How parsing a list of parameters ends.
pub enum VarsParse {
    Done(Arenas, Seq<VariableId>, nat),
    Failed(Arenas, nat, Seq<u8>),
}

/// A case the parser never reaches.
pub open spec fn sfail(ar: Arenas) -> SParse {
    SParse::Failed(ar, 0, Seq::empty())
}

/// `ar` with the expression arena `a`.
pub open spec fn exprs_to(ar: Arenas, a: Seq<ExprView>) -> Arenas {
    Arenas { exprs: a, vars: ar.vars, stmts: ar.stmts }
}

/// `ar` with the variable `v` added.
pub open spec fn var_added(ar: Arenas, v: VarView) -> Arenas {
    Arenas { exprs: ar.exprs, vars: ar.vars.push(v), stmts: ar.stmts }
}

/// `ar` with the statement `s` added, the index `s` gets, and the offset `end`.
pub open spec fn stmt_added(ar: Arenas, s: StmtView, end: int) -> SParse {
    SParse::Done(Arenas { exprs: ar.exprs, vars: ar.vars, stmts: ar.stmts.push(s) }, ar.stmts.len(), end as nat)
}

/// The identifier that starts at `off`.
pub open spec fn name_at(text: Seq<u8>, off: int) -> Seq<u8> {
    text.subrange(off, ident_end(text, off + 1))
}

/// The primitive type read at `off`.
pub open spec fn prim_at(text: Seq<u8>, off: int) -> PrimitiveView {
    let k = primitive_choice(text, off);
    if k < 8 {
        primitive_of(k)@
    } else {
        PrimitiveView::Symbolic(name_at(text, off))
    }
}

/// The type read at `off`.
pub open spec fn type_at(text: Seq<u8>, off: int) -> TypeView {
    TypeView {
        primitive: prim_at(text, off),
        array: match primitive_scan(text, off) {
            Scan::Done(e) => array_follows(text, e as int),
            Scan::Failed(_, _) => false,
        },
    }
}

/// Blanks and comments that must be there.
pub open spec fn wsx(text: Seq<u8>, i: int) -> Scan {
    whitespace_scan(text, i, true)
}

/// A declaration of locals starts at `off`.
pub open spec fn local_follows(text: Seq<u8>, off: int) -> bool {
    keyword_at(text, off, "channel".spec_bytes()) || (!statement_keyword_at(text, off) && declaration_follows(text, off))
}

/// `consume_statement` at `off` with nesting level `d`.
pub closed spec fn stmt_p(text: Seq<u8>, off: int, d: int, ar: Arenas) -> SParse
    decreases MAX_LEVEL - d, text.len() - off, 0int,
{
    if !(0 <= off <= text.len()) || !(0 <= d <= MAX_LEVEL) {
        sfail(ar)
    } else if d >= MAX_LEVEL {
        SParse::Failed(ar, off as nat, "Too deeply nested statement".spec_bytes())
    } else {
        impl_p(text, off, d + 1, ar)
    }
}

/// A statement, chosen by what starts it.
pub closed spec fn impl_p(text: Seq<u8>, off: int, d: int, ar: Arenas) -> SParse
    decreases MAX_LEVEL - d, text.len() - off, 10int,
{
    if !(0 <= off <= text.len()) || !(0 <= d <= MAX_LEVEL) {
        sfail(ar)
    } else if string_at(text, off, "{".spec_bytes()) {
        block_p(text, off, d, ar)
    } else if keyword_at(text, off, "skip".spec_bytes()) {
        skip_p(text, off, ar)
    } else if keyword_at(text, off, "if".spec_bytes()) {
        if_p(text, off, d, ar)
    } else if keyword_at(text, off, "while".spec_bytes()) {
        while_p(text, off, d, ar)
    } else if keyword_at(text, off, "break".spec_bytes()) {
        jump_p(text, off, ar, true)
    } else if keyword_at(text, off, "continue".spec_bytes()) {
        jump_p(text, off, ar, false)
    } else if keyword_at(text, off, "synchronous".spec_bytes()) {
        sync_p(text, off, d, ar)
    } else if keyword_at(text, off, "return".spec_bytes()) {
        result_p(text, off, d, ar, true)
    } else if keyword_at(text, off, "assert".spec_bytes()) {
        result_p(text, off, d, ar, false)
    } else if keyword_at(text, off, "goto".spec_bytes()) {
        goto_p(text, off, ar)
    } else if keyword_at(text, off, "new".spec_bytes()) {
        new_p(text, off, d, ar)
    } else if keyword_at(text, off, "put".spec_bytes()) {
        put_p(text, off, d, ar)
    } else if ident_then(text, off, ":".spec_bytes()) {
        labeled_p(text, off, d, ar)
    } else {
        exprstmt_p(text, off, d, ar)
    }
}

/// `{ locals statements }`: an empty block reads as `skip`.
pub closed spec fn block_p(text: Seq<u8>, off: int, d: int, ar: Arenas) -> SParse
    decreases MAX_LEVEL - d, text.len() - off, 9int,
{
    if !(0 <= off <= text.len()) || !(0 <= d <= MAX_LEVEL) {
        sfail(ar)
    } else {
        match string_scan(text, off, "{".spec_bytes()) {
            Scan::Failed(p, m) => SParse::Failed(ar, p, m),
            Scan::Done(e1) => match ws(text, e1 as int) {
                Scan::Failed(p, m) => SParse::Failed(ar, p, m),
                Scan::Done(w1) => block_rest_p(text, off, w1 as int, d, ar),
            },
        }
    }
}

/// The block at `off` from `w1`, after its opening brace and the blanks that follow.
pub closed spec fn block_rest_p(text: Seq<u8>, off: int, w1: int, d: int, ar: Arenas) -> SParse
    decreases MAX_LEVEL - d, text.len() - off, 8int,
{
    if !(0 <= off <= text.len()) || !(0 <= d <= MAX_LEVEL) || !fwd(text, w1, off) {
        sfail(ar)
    } else {
        match locals_p(text, w1, d, ar, Seq::empty()) {
            StmtsParse::Failed(ar1, p, m) => SParse::Failed(ar1, p, m),
            StmtsParse::Done(ar1, ids, e2) => if !(w1 <= e2 <= text.len()) {
                sfail(ar1)
            } else {
                match body_p(text, e2 as int, d, ar1, ids) {
                    StmtsParse::Failed(ar2, p, m) => SParse::Failed(ar2, p, m),
                    StmtsParse::Done(ar2, ids2, e3) => match string_scan(text, e3 as int, "}".spec_bytes()) {
                        Scan::Failed(p, m) => SParse::Failed(ar2, p, m),
                        Scan::Done(e4) => if ids2.len() == 0 {
                            stmt_added(ar2, StmtView::Skip(pos_at(text, off), None), e4 as int)
                        } else {
                            stmt_added(ar2, StmtView::Block(pos_at(text, off), ids2), e4 as int)
                        },
                    },
                }
            },
        }
    }
}

/// The declarations of locals at the start of a block, after `ids`.
pub closed spec fn locals_p(text: Seq<u8>, at: int, d: int, ar: Arenas, ids: Seq<StatementId>) -> StmtsParse
    decreases text.len() - at,
{
    if !(0 <= at <= text.len()) || !(0 <= d <= MAX_LEVEL) {
        StmtsParse::Failed(ar, 0, Seq::empty())
    } else if !local_follows(text, at) {
        StmtsParse::Done(ar, ids, at as nat)
    } else {
        match local_p(text, at, d, ar) {
            SParse::Failed(ar1, p, m) => StmtsParse::Failed(ar1, p, m),
            SParse::Done(ar1, id, e) => match ws(text, e as int) {
                Scan::Failed(p, m) => StmtsParse::Failed(ar1, p, m),
                Scan::Done(w) => if !fwd(text, w as int, at) {
                    StmtsParse::Failed(ar1, 0, Seq::empty())
                } else {
                    locals_p(text, w as int, d, ar1, ids.push(StatementId(id as usize)))
                },
            },
        }
    }
}

/// The statements of a block up to its closing brace, after `ids`.
pub closed spec fn body_p(text: Seq<u8>, at: int, d: int, ar: Arenas, ids: Seq<StatementId>) -> StmtsParse
    decreases MAX_LEVEL - d, text.len() - at, 8int,
{
    if !(0 <= at <= text.len()) || !(0 <= d <= MAX_LEVEL) {
        StmtsParse::Failed(ar, 0, Seq::empty())
    } else if string_at(text, at, "}".spec_bytes()) {
        StmtsParse::Done(ar, ids, at as nat)
    } else {
        match stmt_p(text, at, d, ar) {
            SParse::Failed(ar1, p, m) => StmtsParse::Failed(ar1, p, m),
            SParse::Done(ar1, id, e) => match ws(text, e as int) {
                Scan::Failed(p, m) => StmtsParse::Failed(ar1, p, m),
                Scan::Done(w) => if !fwd(text, w as int, at) {
                    StmtsParse::Failed(ar1, 0, Seq::empty())
                } else {
                    body_p(text, w as int, d, ar1, ids.push(StatementId(id as usize)))
                },
            },
        }
    }
}

/// A declaration of locals: a channel or a memory declaration.
pub closed spec fn local_p(text: Seq<u8>, off: int, d: int, ar: Arenas) -> SParse {
    if keyword_at(text, off, "channel".spec_bytes()) {
        channel_p(text, off, ar)
    } else {
        memory_p(text, off, d, ar)
    }
}

/// `channel from -> to;`: declares an output `from` and an input `to`.
pub closed spec fn channel_p(text: Seq<u8>, off: int, ar: Arenas) -> SParse {
    match keyword_scan(text, off, "channel".spec_bytes()) {
        Scan::Failed(p, m) => SParse::Failed(ar, p, m),
        Scan::Done(e1) => match wsx(text, e1 as int) {
            Scan::Failed(p, m) => SParse::Failed(ar, p, m),
            Scan::Done(w1) => match ident_scan(text, w1 as int) {
                Scan::Failed(p, m) => SParse::Failed(ar, p, m),
                Scan::Done(e2) => match ws(text, e2 as int) {
                    Scan::Failed(p, m) => SParse::Failed(ar, p, m),
                    Scan::Done(w2) => match string_scan(text, w2 as int, "->".spec_bytes()) {
                        Scan::Failed(p, m) => SParse::Failed(ar, p, m),
                        Scan::Done(e3) => match ws(text, e3 as int) {
                            Scan::Failed(p, m) => SParse::Failed(ar, p, m),
                            Scan::Done(w3) => channel_to_p(text, pos_at(text, off), name_at(text, w1 as int), w3 as int, ar),
                        },
                    },
                },
            },
        },
    }
}

/// The rest of the channel declaration at `pos` that declares `from` first, from the second
/// name at `w3`.
pub closed spec fn channel_to_p(text: Seq<u8>, pos: InputPosition, from: Seq<u8>, w3: int, ar: Arenas) -> SParse {
    match ident_scan(text, w3) {
        Scan::Failed(p, m) => SParse::Failed(ar, p, m),
        Scan::Done(e4) => match ws(text, e4 as int) {
            Scan::Failed(p, m) => SParse::Failed(ar, p, m),
            Scan::Done(w4) => match string_scan(text, w4 as int, ";".spec_bytes()) {
                Scan::Failed(p, m) => SParse::Failed(ar, p, m),
                Scan::Done(e5) => {
                    let fv = VarView {
                        identifier: from,
                        the_type: TypeView { primitive: PrimitiveView::Output, array: false },
                    };
                    let tv = VarView {
                        identifier: name_at(text, w3),
                        the_type: TypeView { primitive: PrimitiveView::Input, array: false },
                    };
                    stmt_added(
                        var_added(var_added(ar, fv), tv),
                        StmtView::Channel(
                            pos,
                            VariableId(ar.vars.len() as usize),
                            VariableId((ar.vars.len() + 1) as usize),
                            None,
                        ),
                        e5 as int,
                    )
                },
            },
        },
    }
}

/// `type name = expression;`.
pub closed spec fn memory_p(text: Seq<u8>, off: int, d: int, ar: Arenas) -> SParse {
    match type_scan(text, off) {
        Scan::Failed(p, m) => SParse::Failed(ar, p, m),
        Scan::Done(e1) => match wsx(text, e1 as int) {
            Scan::Failed(p, m) => SParse::Failed(ar, p, m),
            Scan::Done(w1) => match ident_scan(text, w1 as int) {
                Scan::Failed(p, m) => SParse::Failed(ar, p, m),
                Scan::Done(e2) => match ws(text, e2 as int) {
                    Scan::Failed(p, m) => SParse::Failed(ar, p, m),
                    Scan::Done(w2) => match string_scan(text, w2 as int, "=".spec_bytes()) {
                        Scan::Failed(p, m) => SParse::Failed(ar, p, m),
                        Scan::Done(e3) => match ws(text, e3 as int) {
                            Scan::Failed(p, m) => SParse::Failed(ar, p, m),
                            Scan::Done(w3) => match expr_p(text, w3 as int, d, ar.exprs) {
                                Parse::Failed(a1, p, m) => SParse::Failed(exprs_to(ar, a1), p, m),
                                Parse::Done(a1, eid, e4) => {
                                    let ar1 = var_added(
                                        exprs_to(ar, a1),
                                        VarView { identifier: name_at(text, w1 as int), the_type: type_at(text, off) },
                                    );
                                    match ws(text, e4 as int) {
                                        Scan::Failed(p, m) => SParse::Failed(ar1, p, m),
                                        Scan::Done(w4) => match string_scan(text, w4 as int, ";".spec_bytes()) {
                                            Scan::Failed(p, m) => SParse::Failed(ar1, p, m),
                                            Scan::Done(e5) => stmt_added(
                                                ar1,
                                                StmtView::Memory(
                                                    pos_at(text, off),
                                                    VariableId(ar.vars.len() as usize),
                                                    ExpressionId(eid as usize),
                                                    None,
                                                ),
                                                e5 as int,
                                            ),
                                        },
                                    }
                                },
                            },
                        },
                    },
                },
            },
        },
    }
}

/// `label: statement`.
pub closed spec fn labeled_p(text: Seq<u8>, off: int, d: int, ar: Arenas) -> SParse
    decreases MAX_LEVEL - d, text.len() - off, 9int,
{
    if !(0 <= off <= text.len()) || !(0 <= d <= MAX_LEVEL) {
        sfail(ar)
    } else {
        match ident_scan(text, off) {
            Scan::Failed(p, m) => SParse::Failed(ar, p, m),
            Scan::Done(e1) => match ws(text, e1 as int) {
                Scan::Failed(p, m) => SParse::Failed(ar, p, m),
                Scan::Done(w1) => match string_scan(text, w1 as int, ":".spec_bytes()) {
                    Scan::Failed(p, m) => SParse::Failed(ar, p, m),
                    Scan::Done(e2) => match ws(text, e2 as int) {
                        Scan::Failed(p, m) => SParse::Failed(ar, p, m),
                        Scan::Done(w2) => if !fwd(text, w2 as int, off) {
                            sfail(ar)
                        } else {
                            match stmt_p(text, w2 as int, d, ar) {
                                SParse::Done(ar1, body, e3) => stmt_added(
                                    ar1,
                                    StmtView::Labeled(pos_at(text, off), name_at(text, off), StatementId(body as usize)),
                                    e3 as int,
                                ),
                                f => f,
                            }
                        },
                    },
                },
            },
        }
    }
}

/// `skip;`.
pub closed spec fn skip_p(text: Seq<u8>, off: int, ar: Arenas) -> SParse {
    match keyword_scan(text, off, "skip".spec_bytes()) {
        Scan::Failed(p, m) => SParse::Failed(ar, p, m),
        Scan::Done(e1) => match ws(text, e1 as int) {
            Scan::Failed(p, m) => SParse::Failed(ar, p, m),
            Scan::Done(w1) => match string_scan(text, w1 as int, ";".spec_bytes()) {
                Scan::Failed(p, m) => SParse::Failed(ar, p, m),
                Scan::Done(e2) => stmt_added(ar, StmtView::Skip(pos_at(text, off), None), e2 as int),
            },
        },
    }
}

/// `if (test) statement`, then `else statement` if it follows; without one, the false
/// branch is a `skip` at the position of the `if`.
pub closed spec fn if_p(text: Seq<u8>, off: int, d: int, ar: Arenas) -> SParse
    decreases MAX_LEVEL - d, text.len() - off, 9int,
{
    if !(0 <= off <= text.len()) || !(0 <= d <= MAX_LEVEL) {
        sfail(ar)
    } else {
        match keyword_scan(text, off, "if".spec_bytes()) {
            Scan::Failed(p, m) => SParse::Failed(ar, p, m),
            Scan::Done(e1) => match ws(text, e1 as int) {
                Scan::Failed(p, m) => SParse::Failed(ar, p, m),
                Scan::Done(w1) => match paren_p(text, w1 as int, d, ar.exprs) {
                    Parse::Failed(a1, p, m) => SParse::Failed(exprs_to(ar, a1), p, m),
                    Parse::Done(a1, test, e2) => match ws(text, e2 as int) {
                        Scan::Failed(p, m) => SParse::Failed(exprs_to(ar, a1), p, m),
                        Scan::Done(w2) => if !fwd(text, w2 as int, off) {
                            sfail(ar)
                        } else {
                            match stmt_p(text, w2 as int, d, exprs_to(ar, a1)) {
                                SParse::Failed(ar2, p, m) => SParse::Failed(ar2, p, m),
                                SParse::Done(ar2, t, e3) => match ws(text, e3 as int) {
                                    Scan::Failed(p, m) => SParse::Failed(ar2, p, m),
                                    Scan::Done(w3) => if keyword_at(text, w3 as int, "else".spec_bytes()) {
                                        match keyword_scan(text, w3 as int, "else".spec_bytes()) {
                                            Scan::Failed(p, m) => SParse::Failed(ar2, p, m),
                                            Scan::Done(e4) => match ws(text, e4 as int) {
                                                Scan::Failed(p, m) => SParse::Failed(ar2, p, m),
                                                Scan::Done(w4) => if !fwd(text, w4 as int, off) {
                                                    sfail(ar2)
                                                } else {
                                                    match stmt_p(text, w4 as int, d, ar2) {
                                                        SParse::Done(ar3, f, e5) => stmt_added(
                                                            ar3,
                                                            StmtView::If(pos_at(text, off), ExpressionId(test as usize), StatementId(t as usize), StatementId(f as usize)),
                                                            e5 as int,
                                                        ),
                                                        fl => fl,
                                                    }
                                                },
                                            },
                                        }
                                    } else {
                                        let ar3 = Arenas {
                                            exprs: ar2.exprs,
                                            vars: ar2.vars,
                                            stmts: ar2.stmts.push(StmtView::Skip(pos_at(text, off), None)),
                                        };
                                        stmt_added(
                                            ar3,
                                            StmtView::If(pos_at(text, off), ExpressionId(test as usize), StatementId(t as usize), StatementId(ar2.stmts.len() as usize)),
                                            w3 as int,
                                        )
                                    },
                                },
                            }
                        },
                    },
                },
            },
        }
    }
}

/// `while (test) statement`.
pub closed spec fn while_p(text: Seq<u8>, off: int, d: int, ar: Arenas) -> SParse
    decreases MAX_LEVEL - d, text.len() - off, 9int,
{
    if !(0 <= off <= text.len()) || !(0 <= d <= MAX_LEVEL) {
        sfail(ar)
    } else {
        match keyword_scan(text, off, "while".spec_bytes()) {
            Scan::Failed(p, m) => SParse::Failed(ar, p, m),
            Scan::Done(e1) => match ws(text, e1 as int) {
                Scan::Failed(p, m) => SParse::Failed(ar, p, m),
                Scan::Done(w1) => match paren_p(text, w1 as int, d, ar.exprs) {
                    Parse::Failed(a1, p, m) => SParse::Failed(exprs_to(ar, a1), p, m),
                    Parse::Done(a1, test, e2) => match ws(text, e2 as int) {
                        Scan::Failed(p, m) => SParse::Failed(exprs_to(ar, a1), p, m),
                        Scan::Done(w2) => if !fwd(text, w2 as int, off) {
                            sfail(ar)
                        } else {
                            match stmt_p(text, w2 as int, d, exprs_to(ar, a1)) {
                                SParse::Done(ar2, body, e3) => stmt_added(
                                    ar2,
                                    StmtView::While(pos_at(text, off), ExpressionId(test as usize), StatementId(body as usize), None),
                                    e3 as int,
                                ),
                                fl => fl,
                            }
                        },
                    },
                },
            },
        }
    }
}

/// The end of `break` (`brk`) or `continue`: `;` at `w`, with the label `label`.
pub open spec fn jump_end(text: Seq<u8>, off: int, w: int, ar: Arenas, brk: bool, label: Option<Seq<u8>>) -> SParse {
    match string_scan(text, w, ";".spec_bytes()) {
        Scan::Failed(p, m) => SParse::Failed(ar, p, m),
        Scan::Done(e) => stmt_added(
            ar,
            if brk { StmtView::Break(pos_at(text, off), label, None) } else { StmtView::Continue(pos_at(text, off), label, None) },
            e as int,
        ),
    }
}

/// `break label;` (`brk`) or `continue label;`, the label optional.
pub closed spec fn jump_p(text: Seq<u8>, off: int, ar: Arenas, brk: bool) -> SParse {
    match keyword_scan(text, off, if brk { "break".spec_bytes() } else { "continue".spec_bytes() }) {
        Scan::Failed(p, m) => SParse::Failed(ar, p, m),
        Scan::Done(e1) => match ws(text, e1 as int) {
            Scan::Failed(p, m) => SParse::Failed(ar, p, m),
            Scan::Done(w1) => if identifier_at(text, w1 as int) {
                match ident_scan(text, w1 as int) {
                    Scan::Failed(p, m) => SParse::Failed(ar, p, m),
                    Scan::Done(e2) => match ws(text, e2 as int) {
                        Scan::Failed(p, m) => SParse::Failed(ar, p, m),
                        Scan::Done(w2) => jump_end(text, off, w2 as int, ar, brk, Some(name_at(text, w1 as int))),
                    },
                }
            } else {
                jump_end(text, off, w1 as int, ar, brk, None)
            },
        },
    }
}

/// `synchronous (parameters) statement`, the parameters optional; without them the body
/// must be a block or `skip`.
pub closed spec fn sync_p(text: Seq<u8>, off: int, d: int, ar: Arenas) -> SParse
    decreases MAX_LEVEL - d, text.len() - off, 9int,
{
    if !(0 <= off <= text.len()) || !(0 <= d <= MAX_LEVEL) {
        sfail(ar)
    } else {
        match keyword_scan(text, off, "synchronous".spec_bytes()) {
            Scan::Failed(p, m) => SParse::Failed(ar, p, m),
            Scan::Done(e1) => match ws(text, e1 as int) {
                Scan::Failed(p, m) => SParse::Failed(ar, p, m),
                Scan::Done(w1) => if string_at(text, w1 as int, "(".spec_bytes()) {
                    match params_p(text, w1 as int, ar) {
                        VarsParse::Failed(ar1, p, m) => SParse::Failed(ar1, p, m),
                        VarsParse::Done(ar1, ps, e2) => match ws(text, e2 as int) {
                            Scan::Failed(p, m) => SParse::Failed(ar1, p, m),
                            Scan::Done(w2) => sync_body_p(text, off, w2 as int, d, ar1, ps),
                        },
                    }
                } else if !keyword_at(text, w1 as int, "skip".spec_bytes()) && !string_at(text, w1 as int, "{".spec_bytes()) {
                    SParse::Failed(ar, w1, "Expected block statement".spec_bytes())
                } else {
                    sync_body_p(text, off, w1 as int, d, ar, Seq::empty())
                },
            },
        }
    }
}

/// The body at `w` of the synchronous statement at `off`, with parameters `ps`.
pub closed spec fn sync_body_p(text: Seq<u8>, off: int, w: int, d: int, ar: Arenas, ps: Seq<VariableId>) -> SParse
    decreases MAX_LEVEL - d, text.len() - off, 8int,
{
    if !(0 <= off <= text.len()) || !(0 <= d <= MAX_LEVEL) || !fwd(text, w, off) {
        sfail(ar)
    } else {
        match stmt_p(text, w, d, ar) {
            SParse::Done(ar1, body, e) => stmt_added(ar1, StmtView::Synchronous(pos_at(text, off), ps, StatementId(body as usize)), e as int),
            fl => fl,
        }
    }
}

/// `type name`: a parameter.
pub closed spec fn param_p(text: Seq<u8>, off: int, ar: Arenas) -> SParse {
    match type_scan(text, off) {
        Scan::Failed(p, m) => SParse::Failed(ar, p, m),
        Scan::Done(e1) => match wsx(text, e1 as int) {
            Scan::Failed(p, m) => SParse::Failed(ar, p, m),
            Scan::Done(w1) => match ident_scan(text, w1 as int) {
                Scan::Failed(p, m) => SParse::Failed(ar, p, m),
                Scan::Done(e2) => SParse::Done(
                    var_added(ar, VarView { identifier: name_at(text, w1 as int), the_type: type_at(text, off) }),
                    ar.vars.len(),
                    e2,
                ),
            },
        },
    }
}

/// The parameters from `at` up to the closing parenthesis, after `ps`.
pub closed spec fn plist_p(text: Seq<u8>, at: int, ar: Arenas, ps: Seq<VariableId>) -> VarsParse
    decreases text.len() - at,
{
    if !(0 <= at <= text.len()) {
        VarsParse::Failed(ar, 0, Seq::empty())
    } else if byte(text, at) is None {
        VarsParse::Done(ar, ps, at as nat)
    } else {
        match param_p(text, at, ar) {
            SParse::Failed(ar1, p, m) => VarsParse::Failed(ar1, p, m),
            SParse::Done(ar1, v, e1) => match ws(text, e1 as int) {
                Scan::Failed(p, m) => VarsParse::Failed(ar1, p, m),
                Scan::Done(w) => if string_at(text, w as int, ")".spec_bytes()) {
                    VarsParse::Done(ar1, ps.push(VariableId(v as usize)), w)
                } else {
                    match string_scan(text, w as int, ",".spec_bytes()) {
                        Scan::Failed(p, m) => VarsParse::Failed(ar1, p, m),
                        Scan::Done(e2) => match ws(text, e2 as int) {
                            Scan::Failed(p, m) => VarsParse::Failed(ar1, p, m),
                            Scan::Done(w2) => if !fwd(text, w2 as int, at) {
                                VarsParse::Failed(ar1, 0, Seq::empty())
                            } else {
                                plist_p(text, w2 as int, ar1, ps.push(VariableId(v as usize)))
                            },
                        },
                    }
                },
            },
        }
    }
}

/// `( parameters )`.
pub closed spec fn params_p(text: Seq<u8>, off: int, ar: Arenas) -> VarsParse {
    match string_scan(text, off, "(".spec_bytes()) {
        Scan::Failed(p, m) => VarsParse::Failed(ar, p, m),
        Scan::Done(e1) => match ws(text, e1 as int) {
            Scan::Failed(p, m) => VarsParse::Failed(ar, p, m),
            Scan::Done(w1) => {
                let inner = if string_at(text, w1 as int, ")".spec_bytes()) {
                    VarsParse::Done(ar, Seq::empty(), w1)
                } else {
                    plist_p(text, w1 as int, ar, Seq::empty())
                };
                match inner {
                    VarsParse::Done(ar1, ps, e2) => match string_scan(text, e2 as int, ")".spec_bytes()) {
                        Scan::Failed(p, m) => VarsParse::Failed(ar1, p, m),
                        Scan::Done(e3) => VarsParse::Done(ar1, ps, e3),
                    },
                    fl => fl,
                }
            },
        },
    }
}

/// `return e;` (`ret`) or `assert e;`, the expression in parentheses or not.
pub closed spec fn result_p(text: Seq<u8>, off: int, d: int, ar: Arenas, ret: bool) -> SParse {
    match keyword_scan(text, off, if ret { "return".spec_bytes() } else { "assert".spec_bytes() }) {
        Scan::Failed(p, m) => SParse::Failed(ar, p, m),
        Scan::Done(e1) => match ws(text, e1 as int) {
            Scan::Failed(p, m) => SParse::Failed(ar, p, m),
            Scan::Done(w1) => {
                let ep = if string_at(text, w1 as int, "(".spec_bytes()) {
                    paren_p(text, w1 as int, d, ar.exprs)
                } else {
                    expr_p(text, w1 as int, d, ar.exprs)
                };
                match ep {
                    Parse::Failed(a1, p, m) => SParse::Failed(exprs_to(ar, a1), p, m),
                    Parse::Done(a1, eid, e2) => match ws(text, e2 as int) {
                        Scan::Failed(p, m) => SParse::Failed(exprs_to(ar, a1), p, m),
                        Scan::Done(w2) => match string_scan(text, w2 as int, ";".spec_bytes()) {
                            Scan::Failed(p, m) => SParse::Failed(exprs_to(ar, a1), p, m),
                            Scan::Done(e3) => stmt_added(
                                exprs_to(ar, a1),
                                if ret {
                                    StmtView::Return(pos_at(text, off), ExpressionId(eid as usize))
                                } else {
                                    StmtView::Assert(pos_at(text, off), ExpressionId(eid as usize), None)
                                },
                                e3 as int,
                            ),
                        },
                    },
                }
            },
        },
    }
}

/// `goto label;`.
pub closed spec fn goto_p(text: Seq<u8>, off: int, ar: Arenas) -> SParse {
    match keyword_scan(text, off, "goto".spec_bytes()) {
        Scan::Failed(p, m) => SParse::Failed(ar, p, m),
        Scan::Done(e1) => match ws(text, e1 as int) {
            Scan::Failed(p, m) => SParse::Failed(ar, p, m),
            Scan::Done(w1) => match ident_scan(text, w1 as int) {
                Scan::Failed(p, m) => SParse::Failed(ar, p, m),
                Scan::Done(e2) => match ws(text, e2 as int) {
                    Scan::Failed(p, m) => SParse::Failed(ar, p, m),
                    Scan::Done(w2) => match string_scan(text, w2 as int, ";".spec_bytes()) {
                        Scan::Failed(p, m) => SParse::Failed(ar, p, m),
                        Scan::Done(e3) => stmt_added(ar, StmtView::Goto(pos_at(text, off), name_at(text, w1 as int), None), e3 as int),
                    },
                },
            },
        },
    }
}

/// `new call;`.
pub closed spec fn new_p(text: Seq<u8>, off: int, d: int, ar: Arenas) -> SParse {
    match keyword_scan(text, off, "new".spec_bytes()) {
        Scan::Failed(p, m) => SParse::Failed(ar, p, m),
        Scan::Done(e1) => match ws(text, e1 as int) {
            Scan::Failed(p, m) => SParse::Failed(ar, p, m),
            Scan::Done(w1) => match call_p(text, w1 as int, d, ar.exprs) {
                Parse::Failed(a1, p, m) => SParse::Failed(exprs_to(ar, a1), p, m),
                Parse::Done(a1, eid, e2) => match ws(text, e2 as int) {
                    Scan::Failed(p, m) => SParse::Failed(exprs_to(ar, a1), p, m),
                    Scan::Done(w2) => match string_scan(text, w2 as int, ";".spec_bytes()) {
                        Scan::Failed(p, m) => SParse::Failed(exprs_to(ar, a1), p, m),
                        Scan::Done(e3) => stmt_added(exprs_to(ar, a1), StmtView::New(pos_at(text, off), ExpressionId(eid as usize), None), e3 as int),
                    },
                },
            },
        },
    }
}

/// `put(port, message);`.
pub closed spec fn put_p(text: Seq<u8>, off: int, d: int, ar: Arenas) -> SParse {
    match keyword_scan(text, off, "put".spec_bytes()) {
        Scan::Failed(p, m) => SParse::Failed(ar, p, m),
        Scan::Done(e1) => match ws(text, e1 as int) {
            Scan::Failed(p, m) => SParse::Failed(ar, p, m),
            Scan::Done(w1) => match string_scan(text, w1 as int, "(".spec_bytes()) {
                Scan::Failed(p, m) => SParse::Failed(ar, p, m),
                Scan::Done(e2) => match expr_p(text, e2 as int, d, ar.exprs) {
                    Parse::Failed(a1, p, m) => SParse::Failed(exprs_to(ar, a1), p, m),
                    Parse::Done(a1, port, e3) => put_rest_p(text, off, e3 as int, d, exprs_to(ar, a1), port),
                },
            },
        },
    }
}

/// The rest of `put` after its port expression `port`, which ends at `e3`.
pub closed spec fn put_rest_p(text: Seq<u8>, off: int, e3: int, d: int, ar: Arenas, port: nat) -> SParse {
    match ws(text, e3) {
        Scan::Failed(p, m) => SParse::Failed(ar, p, m),
        Scan::Done(w3) => match string_scan(text, w3 as int, ",".spec_bytes()) {
            Scan::Failed(p, m) => SParse::Failed(ar, p, m),
            Scan::Done(e4) => match ws(text, e4 as int) {
                Scan::Failed(p, m) => SParse::Failed(ar, p, m),
                Scan::Done(w4) => match expr_p(text, w4 as int, d, ar.exprs) {
                    Parse::Failed(a2, p, m) => SParse::Failed(exprs_to(ar, a2), p, m),
                    Parse::Done(a2, msg, e5) => {
                        let ar2 = exprs_to(ar, a2);
                        match ws(text, e5 as int) {
                            Scan::Failed(p, m) => SParse::Failed(ar2, p, m),
                            Scan::Done(w5) => match string_scan(text, w5 as int, ")".spec_bytes()) {
                                Scan::Failed(p, m) => SParse::Failed(ar2, p, m),
                                Scan::Done(e6) => match ws(text, e6 as int) {
                                    Scan::Failed(p, m) => SParse::Failed(ar2, p, m),
                                    Scan::Done(w6) => match string_scan(text, w6 as int, ";".spec_bytes()) {
                                        Scan::Failed(p, m) => SParse::Failed(ar2, p, m),
                                        Scan::Done(e7) => stmt_added(
                                            ar2,
                                            StmtView::Put(pos_at(text, off), ExpressionId(port as usize), ExpressionId(msg as usize), None),
                                            e7 as int,
                                        ),
                                    },
                                },
                            },
                        }
                    },
                },
            },
        },
    }
}

/// `e;`.
pub closed spec fn exprstmt_p(text: Seq<u8>, off: int, d: int, ar: Arenas) -> SParse {
    match expr_p(text, off, d, ar.exprs) {
        Parse::Failed(a1, p, m) => SParse::Failed(exprs_to(ar, a1), p, m),
        Parse::Done(a1, eid, e1) => match ws(text, e1 as int) {
            Scan::Failed(p, m) => SParse::Failed(exprs_to(ar, a1), p, m),
            Scan::Done(w1) => match string_scan(text, w1 as int, ";".spec_bytes()) {
                Scan::Failed(p, m) => SParse::Failed(exprs_to(ar, a1), p, m),
                Scan::Done(e2) => stmt_added(exprs_to(ar, a1), StmtView::Expression(pos_at(text, off), ExpressionId(eid as usize), None), e2 as int),
            },
        },
    }
}

/// The definition of [`stmt_p`].
pub proof fn unfold_stmt_p(text: Seq<u8>, off: int, d: int, ar: Arenas)
    ensures
        stmt_p(text, off, d, ar) == ({
    if !(0 <= off <= text.len()) || !(0 <= d <= MAX_LEVEL) {
        sfail(ar)
    } else if d >= MAX_LEVEL {
        SParse::Failed(ar, off as nat, "Too deeply nested statement".spec_bytes())
    } else {
        impl_p(text, off, d + 1, ar)
    }
}),
{
}

/// The definition of [`impl_p`].
pub proof fn unfold_impl_p(text: Seq<u8>, off: int, d: int, ar: Arenas)
    ensures
        impl_p(text, off, d, ar) == ({
    if !(0 <= off <= text.len()) || !(0 <= d <= MAX_LEVEL) {
        sfail(ar)
    } else if string_at(text, off, "{".spec_bytes()) {
        block_p(text, off, d, ar)
    } else if keyword_at(text, off, "skip".spec_bytes()) {
        skip_p(text, off, ar)
    } else if keyword_at(text, off, "if".spec_bytes()) {
        if_p(text, off, d, ar)
    } else if keyword_at(text, off, "while".spec_bytes()) {
        while_p(text, off, d, ar)
    } else if keyword_at(text, off, "break".spec_bytes()) {
        jump_p(text, off, ar, true)
    } else if keyword_at(text, off, "continue".spec_bytes()) {
        jump_p(text, off, ar, false)
    } else if keyword_at(text, off, "synchronous".spec_bytes()) {
        sync_p(text, off, d, ar)
    } else if keyword_at(text, off, "return".spec_bytes()) {
        result_p(text, off, d, ar, true)
    } else if keyword_at(text, off, "assert".spec_bytes()) {
        result_p(text, off, d, ar, false)
    } else if keyword_at(text, off, "goto".spec_bytes()) {
        goto_p(text, off, ar)
    } else if keyword_at(text, off, "new".spec_bytes()) {
        new_p(text, off, d, ar)
    } else if keyword_at(text, off, "put".spec_bytes()) {
        put_p(text, off, d, ar)
    } else if ident_then(text, off, ":".spec_bytes()) {
        labeled_p(text, off, d, ar)
    } else {
        exprstmt_p(text, off, d, ar)
    }
}),
{
}

/// The definition of [`block_p`].
pub proof fn unfold_block_p(text: Seq<u8>, off: int, d: int, ar: Arenas)
    ensures
        block_p(text, off, d, ar) == ({
    if !(0 <= off <= text.len()) || !(0 <= d <= MAX_LEVEL) {
        sfail(ar)
    } else {
        match string_scan(text, off, "{".spec_bytes()) {
            Scan::Failed(p, m) => SParse::Failed(ar, p, m),
            Scan::Done(e1) => match ws(text, e1 as int) {
                Scan::Failed(p, m) => SParse::Failed(ar, p, m),
                Scan::Done(w1) => block_rest_p(text, off, w1 as int, d, ar),
            },
        }
    }
}),
{
}

/// The definition of [`block_rest_p`].
pub proof fn unfold_block_rest_p(text: Seq<u8>, off: int, w1: int, d: int, ar: Arenas)
    ensures
        block_rest_p(text, off, w1, d, ar) == ({
    if !(0 <= off <= text.len()) || !(0 <= d <= MAX_LEVEL) || !fwd(text, w1, off) {
        sfail(ar)
    } else {
        match locals_p(text, w1, d, ar, Seq::empty()) {
            StmtsParse::Failed(ar1, p, m) => SParse::Failed(ar1, p, m),
            StmtsParse::Done(ar1, ids, e2) => if !(w1 <= e2 <= text.len()) {
                sfail(ar1)
            } else {
                match body_p(text, e2 as int, d, ar1, ids) {
                    StmtsParse::Failed(ar2, p, m) => SParse::Failed(ar2, p, m),
                    StmtsParse::Done(ar2, ids2, e3) => match string_scan(text, e3 as int, "}".spec_bytes()) {
                        Scan::Failed(p, m) => SParse::Failed(ar2, p, m),
                        Scan::Done(e4) => if ids2.len() == 0 {
                            stmt_added(ar2, StmtView::Skip(pos_at(text, off), None), e4 as int)
                        } else {
                            stmt_added(ar2, StmtView::Block(pos_at(text, off), ids2), e4 as int)
                        },
                    },
                }
            },
        }
    }
}),
{
}

/// The definition of [`locals_p`].
pub proof fn unfold_locals_p(text: Seq<u8>, at: int, d: int, ar: Arenas, ids: Seq<StatementId>)
    ensures
        locals_p(text, at, d, ar, ids) == ({
    if !(0 <= at <= text.len()) || !(0 <= d <= MAX_LEVEL) {
        StmtsParse::Failed(ar, 0, Seq::empty())
    } else if !local_follows(text, at) {
        StmtsParse::Done(ar, ids, at as nat)
    } else {
        match local_p(text, at, d, ar) {
            SParse::Failed(ar1, p, m) => StmtsParse::Failed(ar1, p, m),
            SParse::Done(ar1, id, e) => match ws(text, e as int) {
                Scan::Failed(p, m) => StmtsParse::Failed(ar1, p, m),
                Scan::Done(w) => if !fwd(text, w as int, at) {
                    StmtsParse::Failed(ar1, 0, Seq::empty())
                } else {
                    locals_p(text, w as int, d, ar1, ids.push(StatementId(id as usize)))
                },
            },
        }
    }
}),
{
}

/// The definition of [`body_p`].
pub proof fn unfold_body_p(text: Seq<u8>, at: int, d: int, ar: Arenas, ids: Seq<StatementId>)
    ensures
        body_p(text, at, d, ar, ids) == ({
    if !(0 <= at <= text.len()) || !(0 <= d <= MAX_LEVEL) {
        StmtsParse::Failed(ar, 0, Seq::empty())
    } else if string_at(text, at, "}".spec_bytes()) {
        StmtsParse::Done(ar, ids, at as nat)
    } else {
        match stmt_p(text, at, d, ar) {
            SParse::Failed(ar1, p, m) => StmtsParse::Failed(ar1, p, m),
            SParse::Done(ar1, id, e) => match ws(text, e as int) {
                Scan::Failed(p, m) => StmtsParse::Failed(ar1, p, m),
                Scan::Done(w) => if !fwd(text, w as int, at) {
                    StmtsParse::Failed(ar1, 0, Seq::empty())
                } else {
                    body_p(text, w as int, d, ar1, ids.push(StatementId(id as usize)))
                },
            },
        }
    }
}),
{
}

/// The definition of [`local_p`].
pub proof fn unfold_local_p(text: Seq<u8>, off: int, d: int, ar: Arenas)
    ensures
        local_p(text, off, d, ar) == ({
    if keyword_at(text, off, "channel".spec_bytes()) {
        channel_p(text, off, ar)
    } else {
        memory_p(text, off, d, ar)
    }
}),
{
}

/// The definition of [`channel_p`].
pub proof fn unfold_channel_p(text: Seq<u8>, off: int, ar: Arenas)
    ensures
        channel_p(text, off, ar) == ({
    match keyword_scan(text, off, "channel".spec_bytes()) {
        Scan::Failed(p, m) => SParse::Failed(ar, p, m),
        Scan::Done(e1) => match wsx(text, e1 as int) {
            Scan::Failed(p, m) => SParse::Failed(ar, p, m),
            Scan::Done(w1) => match ident_scan(text, w1 as int) {
                Scan::Failed(p, m) => SParse::Failed(ar, p, m),
                Scan::Done(e2) => match ws(text, e2 as int) {
                    Scan::Failed(p, m) => SParse::Failed(ar, p, m),
                    Scan::Done(w2) => match string_scan(text, w2 as int, "->".spec_bytes()) {
                        Scan::Failed(p, m) => SParse::Failed(ar, p, m),
                        Scan::Done(e3) => match ws(text, e3 as int) {
                            Scan::Failed(p, m) => SParse::Failed(ar, p, m),
                            Scan::Done(w3) => channel_to_p(text, pos_at(text, off), name_at(text, w1 as int), w3 as int, ar),
                        },
                    },
                },
            },
        },
    }
}),
{
}

/// The definition of [`channel_to_p`].
pub proof fn unfold_channel_to_p(text: Seq<u8>, pos: InputPosition, from: Seq<u8>, w3: int, ar: Arenas)
    ensures
        channel_to_p(text, pos, from, w3, ar) == ({
    match ident_scan(text, w3) {
        Scan::Failed(p, m) => SParse::Failed(ar, p, m),
        Scan::Done(e4) => match ws(text, e4 as int) {
            Scan::Failed(p, m) => SParse::Failed(ar, p, m),
            Scan::Done(w4) => match string_scan(text, w4 as int, ";".spec_bytes()) {
                Scan::Failed(p, m) => SParse::Failed(ar, p, m),
                Scan::Done(e5) => {
                    let fv = VarView {
                        identifier: from,
                        the_type: TypeView { primitive: PrimitiveView::Output, array: false },
                    };
                    let tv = VarView {
                        identifier: name_at(text, w3),
                        the_type: TypeView { primitive: PrimitiveView::Input, array: false },
                    };
                    stmt_added(
                        var_added(var_added(ar, fv), tv),
                        StmtView::Channel(
                            pos,
                            VariableId(ar.vars.len() as usize),
                            VariableId((ar.vars.len() + 1) as usize),
                            None,
                        ),
                        e5 as int,
                    )
                },
            },
        },
    }
}),
{
}

/// The definition of [`memory_p`].
pub proof fn unfold_memory_p(text: Seq<u8>, off: int, d: int, ar: Arenas)
    ensures
        memory_p(text, off, d, ar) == ({
    match type_scan(text, off) {
        Scan::Failed(p, m) => SParse::Failed(ar, p, m),
        Scan::Done(e1) => match wsx(text, e1 as int) {
            Scan::Failed(p, m) => SParse::Failed(ar, p, m),
            Scan::Done(w1) => match ident_scan(text, w1 as int) {
                Scan::Failed(p, m) => SParse::Failed(ar, p, m),
                Scan::Done(e2) => match ws(text, e2 as int) {
                    Scan::Failed(p, m) => SParse::Failed(ar, p, m),
                    Scan::Done(w2) => match string_scan(text, w2 as int, "=".spec_bytes()) {
                        Scan::Failed(p, m) => SParse::Failed(ar, p, m),
                        Scan::Done(e3) => match ws(text, e3 as int) {
                            Scan::Failed(p, m) => SParse::Failed(ar, p, m),
                            Scan::Done(w3) => match expr_p(text, w3 as int, d, ar.exprs) {
                                Parse::Failed(a1, p, m) => SParse::Failed(exprs_to(ar, a1), p, m),
                                Parse::Done(a1, eid, e4) => {
                                    let ar1 = var_added(
                                        exprs_to(ar, a1),
                                        VarView { identifier: name_at(text, w1 as int), the_type: type_at(text, off) },
                                    );
                                    match ws(text, e4 as int) {
                                        Scan::Failed(p, m) => SParse::Failed(ar1, p, m),
                                        Scan::Done(w4) => match string_scan(text, w4 as int, ";".spec_bytes()) {
                                            Scan::Failed(p, m) => SParse::Failed(ar1, p, m),
                                            Scan::Done(e5) => stmt_added(
                                                ar1,
                                                StmtView::Memory(
                                                    pos_at(text, off),
                                                    VariableId(ar.vars.len() as usize),
                                                    ExpressionId(eid as usize),
                                                    None,
                                                ),
                                                e5 as int,
                                            ),
                                        },
                                    }
                                },
                            },
                        },
                    },
                },
            },
        },
    }
}),
{
}

/// The definition of [`labeled_p`].
pub proof fn unfold_labeled_p(text: Seq<u8>, off: int, d: int, ar: Arenas)
    ensures
        labeled_p(text, off, d, ar) == ({
    if !(0 <= off <= text.len()) || !(0 <= d <= MAX_LEVEL) {
        sfail(ar)
    } else {
        match ident_scan(text, off) {
            Scan::Failed(p, m) => SParse::Failed(ar, p, m),
            Scan::Done(e1) => match ws(text, e1 as int) {
                Scan::Failed(p, m) => SParse::Failed(ar, p, m),
                Scan::Done(w1) => match string_scan(text, w1 as int, ":".spec_bytes()) {
                    Scan::Failed(p, m) => SParse::Failed(ar, p, m),
                    Scan::Done(e2) => match ws(text, e2 as int) {
                        Scan::Failed(p, m) => SParse::Failed(ar, p, m),
                        Scan::Done(w2) => if !fwd(text, w2 as int, off) {
                            sfail(ar)
                        } else {
                            match stmt_p(text, w2 as int, d, ar) {
                                SParse::Done(ar1, body, e3) => stmt_added(
                                    ar1,
                                    StmtView::Labeled(pos_at(text, off), name_at(text, off), StatementId(body as usize)),
                                    e3 as int,
                                ),
                                f => f,
                            }
                        },
                    },
                },
            },
        }
    }
}),
{
}

/// The definition of [`skip_p`].
pub proof fn unfold_skip_p(text: Seq<u8>, off: int, ar: Arenas)
    ensures
        skip_p(text, off, ar) == ({
    match keyword_scan(text, off, "skip".spec_bytes()) {
        Scan::Failed(p, m) => SParse::Failed(ar, p, m),
        Scan::Done(e1) => match ws(text, e1 as int) {
            Scan::Failed(p, m) => SParse::Failed(ar, p, m),
            Scan::Done(w1) => match string_scan(text, w1 as int, ";".spec_bytes()) {
                Scan::Failed(p, m) => SParse::Failed(ar, p, m),
                Scan::Done(e2) => stmt_added(ar, StmtView::Skip(pos_at(text, off), None), e2 as int),
            },
        },
    }
}),
{
}

/// The definition of [`if_p`].
pub proof fn unfold_if_p(text: Seq<u8>, off: int, d: int, ar: Arenas)
    ensures
        if_p(text, off, d, ar) == ({
    if !(0 <= off <= text.len()) || !(0 <= d <= MAX_LEVEL) {
        sfail(ar)
    } else {
        match keyword_scan(text, off, "if".spec_bytes()) {
            Scan::Failed(p, m) => SParse::Failed(ar, p, m),
            Scan::Done(e1) => match ws(text, e1 as int) {
                Scan::Failed(p, m) => SParse::Failed(ar, p, m),
                Scan::Done(w1) => match paren_p(text, w1 as int, d, ar.exprs) {
                    Parse::Failed(a1, p, m) => SParse::Failed(exprs_to(ar, a1), p, m),
                    Parse::Done(a1, test, e2) => match ws(text, e2 as int) {
                        Scan::Failed(p, m) => SParse::Failed(exprs_to(ar, a1), p, m),
                        Scan::Done(w2) => if !fwd(text, w2 as int, off) {
                            sfail(ar)
                        } else {
                            match stmt_p(text, w2 as int, d, exprs_to(ar, a1)) {
                                SParse::Failed(ar2, p, m) => SParse::Failed(ar2, p, m),
                                SParse::Done(ar2, t, e3) => match ws(text, e3 as int) {
                                    Scan::Failed(p, m) => SParse::Failed(ar2, p, m),
                                    Scan::Done(w3) => if keyword_at(text, w3 as int, "else".spec_bytes()) {
                                        match keyword_scan(text, w3 as int, "else".spec_bytes()) {
                                            Scan::Failed(p, m) => SParse::Failed(ar2, p, m),
                                            Scan::Done(e4) => match ws(text, e4 as int) {
                                                Scan::Failed(p, m) => SParse::Failed(ar2, p, m),
                                                Scan::Done(w4) => if !fwd(text, w4 as int, off) {
                                                    sfail(ar2)
                                                } else {
                                                    match stmt_p(text, w4 as int, d, ar2) {
                                                        SParse::Done(ar3, f, e5) => stmt_added(
                                                            ar3,
                                                            StmtView::If(pos_at(text, off), ExpressionId(test as usize), StatementId(t as usize), StatementId(f as usize)),
                                                            e5 as int,
                                                        ),
                                                        fl => fl,
                                                    }
                                                },
                                            },
                                        }
                                    } else {
                                        let ar3 = Arenas {
                                            exprs: ar2.exprs,
                                            vars: ar2.vars,
                                            stmts: ar2.stmts.push(StmtView::Skip(pos_at(text, off), None)),
                                        };
                                        stmt_added(
                                            ar3,
                                            StmtView::If(pos_at(text, off), ExpressionId(test as usize), StatementId(t as usize), StatementId(ar2.stmts.len() as usize)),
                                            w3 as int,
                                        )
                                    },
                                },
                            }
                        },
                    },
                },
            },
        }
    }
}),
{
}

/// The definition of [`while_p`].
pub proof fn unfold_while_p(text: Seq<u8>, off: int, d: int, ar: Arenas)
    ensures
        while_p(text, off, d, ar) == ({
    if !(0 <= off <= text.len()) || !(0 <= d <= MAX_LEVEL) {
        sfail(ar)
    } else {
        match keyword_scan(text, off, "while".spec_bytes()) {
            Scan::Failed(p, m) => SParse::Failed(ar, p, m),
            Scan::Done(e1) => match ws(text, e1 as int) {
                Scan::Failed(p, m) => SParse::Failed(ar, p, m),
                Scan::Done(w1) => match paren_p(text, w1 as int, d, ar.exprs) {
                    Parse::Failed(a1, p, m) => SParse::Failed(exprs_to(ar, a1), p, m),
                    Parse::Done(a1, test, e2) => match ws(text, e2 as int) {
                        Scan::Failed(p, m) => SParse::Failed(exprs_to(ar, a1), p, m),
                        Scan::Done(w2) => if !fwd(text, w2 as int, off) {
                            sfail(ar)
                        } else {
                            match stmt_p(text, w2 as int, d, exprs_to(ar, a1)) {
                                SParse::Done(ar2, body, e3) => stmt_added(
                                    ar2,
                                    StmtView::While(pos_at(text, off), ExpressionId(test as usize), StatementId(body as usize), None),
                                    e3 as int,
                                ),
                                fl => fl,
                            }
                        },
                    },
                },
            },
        }
    }
}),
{
}

/// The definition of [`jump_p`].
pub proof fn unfold_jump_p(text: Seq<u8>, off: int, ar: Arenas, brk: bool)
    ensures
        jump_p(text, off, ar, brk) == ({
    match keyword_scan(text, off, if brk { "break".spec_bytes() } else { "continue".spec_bytes() }) {
        Scan::Failed(p, m) => SParse::Failed(ar, p, m),
        Scan::Done(e1) => match ws(text, e1 as int) {
            Scan::Failed(p, m) => SParse::Failed(ar, p, m),
            Scan::Done(w1) => if identifier_at(text, w1 as int) {
                match ident_scan(text, w1 as int) {
                    Scan::Failed(p, m) => SParse::Failed(ar, p, m),
                    Scan::Done(e2) => match ws(text, e2 as int) {
                        Scan::Failed(p, m) => SParse::Failed(ar, p, m),
                        Scan::Done(w2) => jump_end(text, off, w2 as int, ar, brk, Some(name_at(text, w1 as int))),
                    },
                }
            } else {
                jump_end(text, off, w1 as int, ar, brk, None)
            },
        },
    }
}),
{
}

/// The definition of [`sync_p`].
pub proof fn unfold_sync_p(text: Seq<u8>, off: int, d: int, ar: Arenas)
    ensures
        sync_p(text, off, d, ar) == ({
    if !(0 <= off <= text.len()) || !(0 <= d <= MAX_LEVEL) {
        sfail(ar)
    } else {
        match keyword_scan(text, off, "synchronous".spec_bytes()) {
            Scan::Failed(p, m) => SParse::Failed(ar, p, m),
            Scan::Done(e1) => match ws(text, e1 as int) {
                Scan::Failed(p, m) => SParse::Failed(ar, p, m),
                Scan::Done(w1) => if string_at(text, w1 as int, "(".spec_bytes()) {
                    match params_p(text, w1 as int, ar) {
                        VarsParse::Failed(ar1, p, m) => SParse::Failed(ar1, p, m),
                        VarsParse::Done(ar1, ps, e2) => match ws(text, e2 as int) {
                            Scan::Failed(p, m) => SParse::Failed(ar1, p, m),
                            Scan::Done(w2) => sync_body_p(text, off, w2 as int, d, ar1, ps),
                        },
                    }
                } else if !keyword_at(text, w1 as int, "skip".spec_bytes()) && !string_at(text, w1 as int, "{".spec_bytes()) {
                    SParse::Failed(ar, w1, "Expected block statement".spec_bytes())
                } else {
                    sync_body_p(text, off, w1 as int, d, ar, Seq::empty())
                },
            },
        }
    }
}),
{
}

/// The definition of [`sync_body_p`].
pub proof fn unfold_sync_body_p(text: Seq<u8>, off: int, w: int, d: int, ar: Arenas, ps: Seq<VariableId>)
    ensures
        sync_body_p(text, off, w, d, ar, ps) == ({
    if !(0 <= off <= text.len()) || !(0 <= d <= MAX_LEVEL) || !fwd(text, w, off) {
        sfail(ar)
    } else {
        match stmt_p(text, w, d, ar) {
            SParse::Done(ar1, body, e) => stmt_added(ar1, StmtView::Synchronous(pos_at(text, off), ps, StatementId(body as usize)), e as int),
            fl => fl,
        }
    }
}),
{
}

/// The definition of [`param_p`].
pub proof fn unfold_param_p(text: Seq<u8>, off: int, ar: Arenas)
    ensures
        param_p(text, off, ar) == ({
    match type_scan(text, off) {
        Scan::Failed(p, m) => SParse::Failed(ar, p, m),
        Scan::Done(e1) => match wsx(text, e1 as int) {
            Scan::Failed(p, m) => SParse::Failed(ar, p, m),
            Scan::Done(w1) => match ident_scan(text, w1 as int) {
                Scan::Failed(p, m) => SParse::Failed(ar, p, m),
                Scan::Done(e2) => SParse::Done(
                    var_added(ar, VarView { identifier: name_at(text, w1 as int), the_type: type_at(text, off) }),
                    ar.vars.len(),
                    e2,
                ),
            },
        },
    }
}),
{
}

/// The definition of [`plist_p`].
pub proof fn unfold_plist_p(text: Seq<u8>, at: int, ar: Arenas, ps: Seq<VariableId>)
    ensures
        plist_p(text, at, ar, ps) == ({
    if !(0 <= at <= text.len()) {
        VarsParse::Failed(ar, 0, Seq::empty())
    } else if byte(text, at) is None {
        VarsParse::Done(ar, ps, at as nat)
    } else {
        match param_p(text, at, ar) {
            SParse::Failed(ar1, p, m) => VarsParse::Failed(ar1, p, m),
            SParse::Done(ar1, v, e1) => match ws(text, e1 as int) {
                Scan::Failed(p, m) => VarsParse::Failed(ar1, p, m),
                Scan::Done(w) => if string_at(text, w as int, ")".spec_bytes()) {
                    VarsParse::Done(ar1, ps.push(VariableId(v as usize)), w)
                } else {
                    match string_scan(text, w as int, ",".spec_bytes()) {
                        Scan::Failed(p, m) => VarsParse::Failed(ar1, p, m),
                        Scan::Done(e2) => match ws(text, e2 as int) {
                            Scan::Failed(p, m) => VarsParse::Failed(ar1, p, m),
                            Scan::Done(w2) => if !fwd(text, w2 as int, at) {
                                VarsParse::Failed(ar1, 0, Seq::empty())
                            } else {
                                plist_p(text, w2 as int, ar1, ps.push(VariableId(v as usize)))
                            },
                        },
                    }
                },
            },
        }
    }
}),
{
}

/// The definition of [`params_p`].
pub proof fn unfold_params_p(text: Seq<u8>, off: int, ar: Arenas)
    ensures
        params_p(text, off, ar) == ({
    match string_scan(text, off, "(".spec_bytes()) {
        Scan::Failed(p, m) => VarsParse::Failed(ar, p, m),
        Scan::Done(e1) => match ws(text, e1 as int) {
            Scan::Failed(p, m) => VarsParse::Failed(ar, p, m),
            Scan::Done(w1) => {
                let inner = if string_at(text, w1 as int, ")".spec_bytes()) {
                    VarsParse::Done(ar, Seq::empty(), w1)
                } else {
                    plist_p(text, w1 as int, ar, Seq::empty())
                };
                match inner {
                    VarsParse::Done(ar1, ps, e2) => match string_scan(text, e2 as int, ")".spec_bytes()) {
                        Scan::Failed(p, m) => VarsParse::Failed(ar1, p, m),
                        Scan::Done(e3) => VarsParse::Done(ar1, ps, e3),
                    },
                    fl => fl,
                }
            },
        },
    }
}),
{
}

/// The definition of [`result_p`].
pub proof fn unfold_result_p(text: Seq<u8>, off: int, d: int, ar: Arenas, ret: bool)
    ensures
        result_p(text, off, d, ar, ret) == ({
    match keyword_scan(text, off, if ret { "return".spec_bytes() } else { "assert".spec_bytes() }) {
        Scan::Failed(p, m) => SParse::Failed(ar, p, m),
        Scan::Done(e1) => match ws(text, e1 as int) {
            Scan::Failed(p, m) => SParse::Failed(ar, p, m),
            Scan::Done(w1) => {
                let ep = if string_at(text, w1 as int, "(".spec_bytes()) {
                    paren_p(text, w1 as int, d, ar.exprs)
                } else {
                    expr_p(text, w1 as int, d, ar.exprs)
                };
                match ep {
                    Parse::Failed(a1, p, m) => SParse::Failed(exprs_to(ar, a1), p, m),
                    Parse::Done(a1, eid, e2) => match ws(text, e2 as int) {
                        Scan::Failed(p, m) => SParse::Failed(exprs_to(ar, a1), p, m),
                        Scan::Done(w2) => match string_scan(text, w2 as int, ";".spec_bytes()) {
                            Scan::Failed(p, m) => SParse::Failed(exprs_to(ar, a1), p, m),
                            Scan::Done(e3) => stmt_added(
                                exprs_to(ar, a1),
                                if ret {
                                    StmtView::Return(pos_at(text, off), ExpressionId(eid as usize))
                                } else {
                                    StmtView::Assert(pos_at(text, off), ExpressionId(eid as usize), None)
                                },
                                e3 as int,
                            ),
                        },
                    },
                }
            },
        },
    }
}),
{
}

/// The definition of [`goto_p`].
pub proof fn unfold_goto_p(text: Seq<u8>, off: int, ar: Arenas)
    ensures
        goto_p(text, off, ar) == ({
    match keyword_scan(text, off, "goto".spec_bytes()) {
        Scan::Failed(p, m) => SParse::Failed(ar, p, m),
        Scan::Done(e1) => match ws(text, e1 as int) {
            Scan::Failed(p, m) => SParse::Failed(ar, p, m),
            Scan::Done(w1) => match ident_scan(text, w1 as int) {
                Scan::Failed(p, m) => SParse::Failed(ar, p, m),
                Scan::Done(e2) => match ws(text, e2 as int) {
                    Scan::Failed(p, m) => SParse::Failed(ar, p, m),
                    Scan::Done(w2) => match string_scan(text, w2 as int, ";".spec_bytes()) {
                        Scan::Failed(p, m) => SParse::Failed(ar, p, m),
                        Scan::Done(e3) => stmt_added(ar, StmtView::Goto(pos_at(text, off), name_at(text, w1 as int), None), e3 as int),
                    },
                },
            },
        },
    }
}),
{
}

/// The definition of [`new_p`].
pub proof fn unfold_new_p(text: Seq<u8>, off: int, d: int, ar: Arenas)
    ensures
        new_p(text, off, d, ar) == ({
    match keyword_scan(text, off, "new".spec_bytes()) {
        Scan::Failed(p, m) => SParse::Failed(ar, p, m),
        Scan::Done(e1) => match ws(text, e1 as int) {
            Scan::Failed(p, m) => SParse::Failed(ar, p, m),
            Scan::Done(w1) => match call_p(text, w1 as int, d, ar.exprs) {
                Parse::Failed(a1, p, m) => SParse::Failed(exprs_to(ar, a1), p, m),
                Parse::Done(a1, eid, e2) => match ws(text, e2 as int) {
                    Scan::Failed(p, m) => SParse::Failed(exprs_to(ar, a1), p, m),
                    Scan::Done(w2) => match string_scan(text, w2 as int, ";".spec_bytes()) {
                        Scan::Failed(p, m) => SParse::Failed(exprs_to(ar, a1), p, m),
                        Scan::Done(e3) => stmt_added(exprs_to(ar, a1), StmtView::New(pos_at(text, off), ExpressionId(eid as usize), None), e3 as int),
                    },
                },
            },
        },
    }
}),
{
}

/// The definition of [`put_p`].
pub proof fn unfold_put_p(text: Seq<u8>, off: int, d: int, ar: Arenas)
    ensures
        put_p(text, off, d, ar) == ({
    match keyword_scan(text, off, "put".spec_bytes()) {
        Scan::Failed(p, m) => SParse::Failed(ar, p, m),
        Scan::Done(e1) => match ws(text, e1 as int) {
            Scan::Failed(p, m) => SParse::Failed(ar, p, m),
            Scan::Done(w1) => match string_scan(text, w1 as int, "(".spec_bytes()) {
                Scan::Failed(p, m) => SParse::Failed(ar, p, m),
                Scan::Done(e2) => match expr_p(text, e2 as int, d, ar.exprs) {
                    Parse::Failed(a1, p, m) => SParse::Failed(exprs_to(ar, a1), p, m),
                    Parse::Done(a1, port, e3) => put_rest_p(text, off, e3 as int, d, exprs_to(ar, a1), port),
                },
            },
        },
    }
}),
{
}

/// The definition of [`put_rest_p`].
pub proof fn unfold_put_rest_p(text: Seq<u8>, off: int, e3: int, d: int, ar: Arenas, port: nat)
    ensures
        put_rest_p(text, off, e3, d, ar, port) == ({
    match ws(text, e3) {
        Scan::Failed(p, m) => SParse::Failed(ar, p, m),
        Scan::Done(w3) => match string_scan(text, w3 as int, ",".spec_bytes()) {
            Scan::Failed(p, m) => SParse::Failed(ar, p, m),
            Scan::Done(e4) => match ws(text, e4 as int) {
                Scan::Failed(p, m) => SParse::Failed(ar, p, m),
                Scan::Done(w4) => match expr_p(text, w4 as int, d, ar.exprs) {
                    Parse::Failed(a2, p, m) => SParse::Failed(exprs_to(ar, a2), p, m),
                    Parse::Done(a2, msg, e5) => {
                        let ar2 = exprs_to(ar, a2);
                        match ws(text, e5 as int) {
                            Scan::Failed(p, m) => SParse::Failed(ar2, p, m),
                            Scan::Done(w5) => match string_scan(text, w5 as int, ")".spec_bytes()) {
                                Scan::Failed(p, m) => SParse::Failed(ar2, p, m),
                                Scan::Done(e6) => match ws(text, e6 as int) {
                                    Scan::Failed(p, m) => SParse::Failed(ar2, p, m),
                                    Scan::Done(w6) => match string_scan(text, w6 as int, ";".spec_bytes()) {
                                        Scan::Failed(p, m) => SParse::Failed(ar2, p, m),
                                        Scan::Done(e7) => stmt_added(
                                            ar2,
                                            StmtView::Put(pos_at(text, off), ExpressionId(port as usize), ExpressionId(msg as usize), None),
                                            e7 as int,
                                        ),
                                    },
                                },
                            },
                        }
                    },
                },
            },
        },
    }
}),
{
}

/// The definition of [`exprstmt_p`].
pub proof fn unfold_exprstmt_p(text: Seq<u8>, off: int, d: int, ar: Arenas)
    ensures
        exprstmt_p(text, off, d, ar) == ({
    match expr_p(text, off, d, ar.exprs) {
        Parse::Failed(a1, p, m) => SParse::Failed(exprs_to(ar, a1), p, m),
        Parse::Done(a1, eid, e1) => match ws(text, e1 as int) {
            Scan::Failed(p, m) => SParse::Failed(exprs_to(ar, a1), p, m),
            Scan::Done(w1) => match string_scan(text, w1 as int, ";".spec_bytes()) {
                Scan::Failed(p, m) => SParse::Failed(exprs_to(ar, a1), p, m),
                Scan::Done(e2) => stmt_added(exprs_to(ar, a1), StmtView::Expression(pos_at(text, off), ExpressionId(eid as usize), None), e2 as int),
            },
        },
    }
}),
{
}

} // verus!
