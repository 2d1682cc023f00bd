use vstd::prelude::*;
use vstd::string::StringSliceAdditionalSpecFns;
use crate::ast::{
    BinaryOperator, ConstantView, ExprView, ExpressionId, FieldView, MethodView, UnaryOperation,
};
use crate::inputsource::{position_at, InputPosition};
use crate::lexer::{
    after_break, assignment_choice, assignment_of, assignment_text, block_end, builtin_keyword_at,
    byte, digit, ident_end, ident_rest, ident_scan, ident_then, integer_rest, keyword_at,
    keyword_scan, lemma_block_end, lemma_line_stop, line_scan, line_stop, string_at, string_scan,
    vchar, whitespace_scan, ws_scan, Scan, MAX_LEVEL,
};

verus! {

/// How parsing an expression ends: with the expressions allocated so far (the arena), the
/// index of the expression read and the offset after it; or with the arena and an error
/// reported at an offset with a message.
pub enum Parse {
    Done(Seq<ExprView>, nat, nat),
    Failed(Seq<ExprView>, nat, Seq<u8>),
}

/// How parsing a list of expressions ends: the arena, the indices of the expressions read
/// and the offset after them; or an error as for [`Parse`].
pub enum ListParse {
    Done(Seq<ExprView>, Seq<ExpressionId>, nat),
    Failed(Seq<ExprView>, nat, Seq<u8>),
}

/// Skipping blanks and comments from `i`.
pub open spec fn ws(text: Seq<u8>, i: int) -> Scan {
    whitespace_scan(text, i, false)
}

/// A case that the parser never reaches (an end before the start).
pub open spec fn stuck(a: Seq<ExprView>) -> Parse {
    Parse::Failed(a, 0, Seq::empty())
}

/// The position of offset `x`.
pub open spec fn pos_at(text: Seq<u8>, x: int) -> InputPosition {
    position_at(text, x as nat)
}

/// `x` lies after `from`, within the text.
pub open spec fn fwd(text: Seq<u8>, x: int, from: int) -> bool {
    from < x <= text.len()
}

/// The arena `a` with `e` added at its end, and the index `e` gets.
pub open spec fn allocated(a: Seq<ExprView>, e: ExprView, end: int) -> Parse {
    Parse::Done(a.push(e), a.len(), end as nat)
}

pub proof fn lemma_ws_scan_mono(text: Seq<u8>, i: int)
    requires
        0 <= i,
    ensures
        ws_scan(text, i).0 matches Scan::Done(e) ==> i <= e,
        ws_scan(text, i).0 matches Scan::Failed(p, _) ==> i <= p,
    decreases text.len() - i,
{
    if i < text.len() {
        if text[i] == 32 || text[i] == 9 || text[i] == 13 || text[i] == 10 {
            lemma_ws_scan_mono(text, i + 1);
        } else if text[i] == 47 && i + 1 < text.len() && text[i + 1] == 47 {
            lemma_line_stop(text, i + 2);
            match line_scan(text, i + 2) {
                Scan::Done(e) => {
                    lemma_ws_scan_mono(text, e as int);
                },
                Scan::Failed(_, _) => {},
            }
        } else if text[i] == 47 && i + 1 < text.len() && text[i + 1] == 42 {
            lemma_block_end(text, i + 2);
            lemma_ws_scan_mono(text, block_end(text, i + 2));
        }
    }
}

pub proof fn lemma_ws_mono(text: Seq<u8>, i: int)
    requires
        0 <= i,
    ensures
        ws(text, (i) as int) matches Scan::Done(e) ==> i <= e,
        ws(text, (i) as int) matches Scan::Failed(p, _) ==> i <= p,
{
    lemma_ws_scan_mono(text, i);
}

pub proof fn lemma_ident_end(text: Seq<u8>, i: int)
    ensures
        i <= ident_end(text, i),
    decreases text.len() - i,
{
    if 0 <= i < text.len() && ident_rest(text[i]) {
        lemma_ident_end(text, i + 1);
    }
}

/// The text of a binary operator.
pub open spec fn op_text(op: BinaryOperator) -> Seq<u8> {
    match op {
        BinaryOperator::Concatenate => "@".spec_bytes(),
        BinaryOperator::LogicalOr => "||".spec_bytes(),
        BinaryOperator::LogicalAnd => "&&".spec_bytes(),
        BinaryOperator::BitwiseOr => "|".spec_bytes(),
        BinaryOperator::BitwiseXor => "^".spec_bytes(),
        BinaryOperator::BitwiseAnd => "&".spec_bytes(),
        BinaryOperator::Equality => "==".spec_bytes(),
        BinaryOperator::Inequality => "!=".spec_bytes(),
        BinaryOperator::LessThan => "<".spec_bytes(),
        BinaryOperator::GreaterThan => ">".spec_bytes(),
        BinaryOperator::LessThanEqual => "<=".spec_bytes(),
        BinaryOperator::GreaterThanEqual => ">=".spec_bytes(),
        BinaryOperator::ShiftLeft => "<<".spec_bytes(),
        BinaryOperator::ShiftRight => ">>".spec_bytes(),
        BinaryOperator::Add => "+".spec_bytes(),
        BinaryOperator::Subtract => "-".spec_bytes(),
        BinaryOperator::Multiply => "*".spec_bytes(),
        BinaryOperator::Divide => "/".spec_bytes(),
        BinaryOperator::Remainder => "%".spec_bytes(),
    }
}

/// Every assignment operator's text is one to three bytes long.
pub proof fn lemma_assignment_text(k: int)
    requires
        0 <= k < 11,
    ensures
        1 <= assignment_text(k).len() <= 3,
{
    reveal_strlit("=");
    vstd::string::is_ascii_spec_bytes("=");
    reveal_strlit("*=");
    vstd::string::is_ascii_spec_bytes("*=");
    reveal_strlit("/=");
    vstd::string::is_ascii_spec_bytes("/=");
    reveal_strlit("%=");
    vstd::string::is_ascii_spec_bytes("%=");
    reveal_strlit("+=");
    vstd::string::is_ascii_spec_bytes("+=");
    reveal_strlit("-=");
    vstd::string::is_ascii_spec_bytes("-=");
    reveal_strlit("<<=");
    vstd::string::is_ascii_spec_bytes("<<=");
    reveal_strlit(">>=");
    vstd::string::is_ascii_spec_bytes(">>=");
    reveal_strlit("&=");
    vstd::string::is_ascii_spec_bytes("&=");
    reveal_strlit("^=");
    vstd::string::is_ascii_spec_bytes("^=");
    reveal_strlit("|=");
    vstd::string::is_ascii_spec_bytes("|=");
}

/// Every operator's text is one or two bytes long.
pub proof fn lemma_op_text(op: BinaryOperator)
    ensures
        1 <= op_text(op).len() <= 2,
{
    match op {
        BinaryOperator::Concatenate => {
            reveal_strlit("@");
            vstd::string::is_ascii_spec_bytes("@");
        },
        BinaryOperator::LogicalOr => {
            reveal_strlit("||");
            vstd::string::is_ascii_spec_bytes("||");
        },
        BinaryOperator::LogicalAnd => {
            reveal_strlit("&&");
            vstd::string::is_ascii_spec_bytes("&&");
        },
        BinaryOperator::BitwiseOr => {
            reveal_strlit("|");
            vstd::string::is_ascii_spec_bytes("|");
        },
        BinaryOperator::BitwiseXor => {
            reveal_strlit("^");
            vstd::string::is_ascii_spec_bytes("^");
        },
        BinaryOperator::BitwiseAnd => {
            reveal_strlit("&");
            vstd::string::is_ascii_spec_bytes("&");
        },
        BinaryOperator::Equality => {
            reveal_strlit("==");
            vstd::string::is_ascii_spec_bytes("==");
        },
        BinaryOperator::Inequality => {
            reveal_strlit("!=");
            vstd::string::is_ascii_spec_bytes("!=");
        },
        BinaryOperator::LessThan => {
            reveal_strlit("<");
            vstd::string::is_ascii_spec_bytes("<");
        },
        BinaryOperator::GreaterThan => {
            reveal_strlit(">");
            vstd::string::is_ascii_spec_bytes(">");
        },
        BinaryOperator::LessThanEqual => {
            reveal_strlit("<=");
            vstd::string::is_ascii_spec_bytes("<=");
        },
        BinaryOperator::GreaterThanEqual => {
            reveal_strlit(">=");
            vstd::string::is_ascii_spec_bytes(">=");
        },
        BinaryOperator::ShiftLeft => {
            reveal_strlit("<<");
            vstd::string::is_ascii_spec_bytes("<<");
        },
        BinaryOperator::ShiftRight => {
            reveal_strlit(">>");
            vstd::string::is_ascii_spec_bytes(">>");
        },
        BinaryOperator::Add => {
            reveal_strlit("+");
            vstd::string::is_ascii_spec_bytes("+");
        },
        BinaryOperator::Subtract => {
            reveal_strlit("-");
            vstd::string::is_ascii_spec_bytes("-");
        },
        BinaryOperator::Multiply => {
            reveal_strlit("*");
            vstd::string::is_ascii_spec_bytes("*");
        },
        BinaryOperator::Divide => {
            reveal_strlit("/");
            vstd::string::is_ascii_spec_bytes("/");
        },
        BinaryOperator::Remainder => {
            reveal_strlit("%");
            vstd::string::is_ascii_spec_bytes("%");
        },
    }
}

/// The operator of precedence level `k` (0, `@`, binds loosest; 10, `*` `/` `%`, binds
/// tightest) that stands at `w`; none where the level's operators do not.
pub open spec fn level_op(text: Seq<u8>, w: int, k: int) -> Option<BinaryOperator> {
    if k == 0 {
        if string_at(text, w, "@".spec_bytes()) { Some(BinaryOperator::Concatenate) } else { None }
    } else if k == 1 {
        if string_at(text, w, "||".spec_bytes()) { Some(BinaryOperator::LogicalOr) } else { None }
    } else if k == 2 {
        if string_at(text, w, "&&".spec_bytes()) { Some(BinaryOperator::LogicalAnd) } else { None }
    } else if k == 3 {
        if string_at(text, w, "|".spec_bytes()) && !string_at(text, w, "||".spec_bytes()) && !string_at(text, w, "|=".spec_bytes()) { Some(BinaryOperator::BitwiseOr) } else { None }
    } else if k == 4 {
        if string_at(text, w, "^".spec_bytes()) && !string_at(text, w, "^=".spec_bytes()) { Some(BinaryOperator::BitwiseXor) } else { None }
    } else if k == 5 {
        if string_at(text, w, "&".spec_bytes()) && !string_at(text, w, "&&".spec_bytes()) && !string_at(text, w, "&=".spec_bytes()) { Some(BinaryOperator::BitwiseAnd) } else { None }
    } else if k == 6 {
        if string_at(text, w, "==".spec_bytes()) {
            Some(BinaryOperator::Equality)
        } else if string_at(text, w, "!=".spec_bytes()) {
            Some(BinaryOperator::Inequality)
        } else {
            None
        }
    } else if k == 7 {
        if !(string_at(text, w, "<=".spec_bytes()) || string_at(text, w, ">=".spec_bytes()) || string_at(text, w, "<".spec_bytes()) && !string_at(text, w, "<<=".spec_bytes()) || string_at(text, w, ">".spec_bytes()) && !string_at(text, w, ">>=".spec_bytes())) {
            None
        } else if string_at(text, w, "<=".spec_bytes()) {
            Some(BinaryOperator::LessThanEqual)
        } else if string_at(text, w, ">=".spec_bytes()) {
            Some(BinaryOperator::GreaterThanEqual)
        } else if string_at(text, w, "<".spec_bytes()) {
            Some(BinaryOperator::LessThan)
        } else {
            Some(BinaryOperator::GreaterThan)
        }
    } else if k == 8 {
        if !(string_at(text, w, "<<".spec_bytes()) && !string_at(text, w, "<<=".spec_bytes()) || string_at(text, w, ">>".spec_bytes()) && !string_at(text, w, ">>=".spec_bytes())) {
            None
        } else if string_at(text, w, "<<".spec_bytes()) {
            Some(BinaryOperator::ShiftLeft)
        } else {
            Some(BinaryOperator::ShiftRight)
        }
    } else if k == 9 {
        if !(string_at(text, w, "+".spec_bytes()) && !string_at(text, w, "+=".spec_bytes()) || string_at(text, w, "-".spec_bytes()) && !string_at(text, w, "-=".spec_bytes())) {
            None
        } else if string_at(text, w, "+".spec_bytes()) {
            Some(BinaryOperator::Add)
        } else {
            Some(BinaryOperator::Subtract)
        }
    } else {
        if !(string_at(text, w, "*".spec_bytes()) && !string_at(text, w, "*=".spec_bytes()) || string_at(text, w, "/".spec_bytes()) && !string_at(text, w, "/=".spec_bytes()) || string_at(text, w, "%".spec_bytes()) && !string_at(text, w, "%=".spec_bytes())) {
            None
        } else if string_at(text, w, "*".spec_bytes()) {
            Some(BinaryOperator::Multiply)
        } else if string_at(text, w, "/".spec_bytes()) {
            Some(BinaryOperator::Divide)
        } else {
            Some(BinaryOperator::Remainder)
        }
    }
}

/// The prefix operator that stands at `off`, with the number of bytes it takes.
pub open spec fn prefix_op(text: Seq<u8>, off: int) -> Option<(int, UnaryOperation)> {
    if string_at(text, off, "+".spec_bytes()) {
        if string_at(text, off + 1, "+".spec_bytes()) { Some((2, UnaryOperation::PreIncrement)) } else { Some((1, UnaryOperation::Positive)) }
    } else if string_at(text, off, "-".spec_bytes()) {
        if string_at(text, off + 1, "-".spec_bytes()) { Some((2, UnaryOperation::PreDecrement)) } else { Some((1, UnaryOperation::Negative)) }
    } else if string_at(text, off, "~".spec_bytes()) {
        Some((1, UnaryOperation::BitwiseNot))
    } else if string_at(text, off, "!".spec_bytes()) {
        Some((1, UnaryOperation::LogicalNot))
    } else {
        None
    }
}

/// The end of the body of a character literal, looking from `i`: the first byte that is a
/// quote, or neither visible nor a space.
pub open spec fn char_end(text: Seq<u8>, i: int) -> int
    decreases text.len() - i,
{
    if 0 <= i < text.len() && text[i] != 39 && (vchar(text[i]) || text[i] == 32) {
        char_end(text, i + 1)
    } else {
        i
    }
}

/// The end of an integer literal, looking from `i`.
pub open spec fn integer_end(text: Seq<u8>, i: int) -> int
    decreases text.len() - i,
{
    if 0 <= i < text.len() && integer_rest(text[i]) {
        integer_end(text, i + 1)
    } else {
        i
    }
}

/// `consume_expression` at `off` with nesting level `d`.
pub closed spec fn expr_p(text: Seq<u8>, off: int, d: int, a: Seq<ExprView>) -> Parse
    decreases MAX_LEVEL - d, text.len() - off, 0int,
{
    if !(0 <= off <= text.len()) || !(0 <= d <= MAX_LEVEL) {
        stuck(a)
    } else if d >= MAX_LEVEL {
        Parse::Failed(a, off as nat, "Too deeply nested expression".spec_bytes())
    } else {
        assign_p(text, off, d + 1, a)
    }
}

/// An assignment: a conditional expression, then an assignment operator and the expression
/// assigned, if one follows.
pub closed spec fn assign_p(text: Seq<u8>, off: int, d: int, a: Seq<ExprView>) -> Parse
    decreases MAX_LEVEL - d, text.len() - off, 50int,
{
    if !(0 <= off <= text.len()) || !(0 <= d <= MAX_LEVEL) {
        stuck(a)
    } else {
        match cond_p(text, off, d, a) {
            Parse::Done(a1, id, e1) => match ws(text, e1 as int) {
                Scan::Failed(p, m) => Parse::Failed(a1, p, m),
                Scan::Done(w) => {
                    let k = assignment_choice(text, w as int);
                    if k < 11 {
                        let e2 = w + assignment_text(k).len();
                        match ws(text, (e2) as int) {
                            Scan::Failed(p, m) => Parse::Failed(a1, p, m),
                            Scan::Done(w2) => if !fwd(text, w2 as int, off as int) {
                                stuck(a1)
                            } else {
                                match expr_p(text, w2 as int, d, a1) {
                                    Parse::Done(a2, rid, e3) => allocated(
                                        a2,
                                        ExprView::Assignment(pos_at(text, w as int), ExpressionId(id as usize), assignment_of(k), ExpressionId(rid as usize)),
                                        e3 as int,
                                    ),
                                    f => f,
                                }
                            },
                        }
                    } else {
                        Parse::Done(a1, id, w)
                    }
                },
            },
            f => f,
        }
    }
}

/// A conditional expression: a concatenation, then `? e : e` if a question mark follows.
pub closed spec fn cond_p(text: Seq<u8>, off: int, d: int, a: Seq<ExprView>) -> Parse
    decreases MAX_LEVEL - d, text.len() - off, 49int,
{
    if !(0 <= off <= text.len()) || !(0 <= d <= MAX_LEVEL) {
        stuck(a)
    } else {
        match level_p(text, off, d, a, 0) {
            Parse::Done(a1, id, e1) => match ws(text, e1 as int) {
                Scan::Failed(p, m) => Parse::Failed(a1, p, m),
                Scan::Done(w) => if !string_at(text, w as int, "?".spec_bytes()) {
                    Parse::Done(a1, id, w)
                } else {
                    match ws(text, (w + 1) as int) {
                        Scan::Failed(p, m) => Parse::Failed(a1, p, m),
                        Scan::Done(w1) => if !fwd(text, w1 as int, off as int) {
                            stuck(a1)
                        } else {
                            match expr_p(text, w1 as int, d, a1) {
                                Parse::Done(a2, tid, e2) => match ws(text, e2 as int) {
                                    Scan::Failed(p, m) => Parse::Failed(a2, p, m),
                                    Scan::Done(w2) => match string_scan(text, w2 as int, ":".spec_bytes()) {
                                        Scan::Failed(p, m) => Parse::Failed(a2, p, m),
                                        Scan::Done(e3) => match ws(text, e3 as int) {
                                            Scan::Failed(p, m) => Parse::Failed(a2, p, m),
                                            Scan::Done(w3) => if !fwd(text, w3 as int, off as int) {
                                                stuck(a2)
                                            } else {
                                                match expr_p(text, w3 as int, d, a2) {
                                                    Parse::Done(a3, fid, e4) => allocated(
                                                        a3,
                                                        ExprView::Conditional(pos_at(text, w as int), ExpressionId(id as usize), ExpressionId(tid as usize), ExpressionId(fid as usize)),
                                                        e4 as int,
                                                    ),
                                                    f => f,
                                                }
                                            },
                                        },
                                    },
                                },
                                f => f,
                            }
                        },
                    }
                },
            },
            f => f,
        }
    }
}

/// An expression of precedence level `k`: operands of the next level joined, left to
/// right, by the operators of level `k`.
pub closed spec fn level_p(text: Seq<u8>, off: int, d: int, a: Seq<ExprView>, k: int) -> Parse
    decreases MAX_LEVEL - d, text.len() - off, 48 - 2 * k,
{
    if !(0 <= off <= text.len()) || !(0 <= d <= MAX_LEVEL) || !(0 <= k <= 10) {
        stuck(a)
    } else {
        match operand_p(text, off, d, a, k) {
            Parse::Done(a1, id, e1) => match ws(text, e1 as int) {
                Scan::Failed(p, m) => Parse::Failed(a1, p, m),
                Scan::Done(w) => if !(off <= w && w <= text.len()) {
                    stuck(a1)
                } else {
                    loop_p(text, w as int, d, a1, k, id)
                },
            },
            f => f,
        }
    }
}

/// The operand of level `k`: an expression of level `k + 1`, or a prefix expression
/// after the last level.
pub closed spec fn operand_p(text: Seq<u8>, off: int, d: int, a: Seq<ExprView>, k: int) -> Parse
    decreases MAX_LEVEL - d, text.len() - off, 47 - 2 * k,
{
    if !(0 <= off <= text.len()) || !(0 <= d <= MAX_LEVEL) || !(0 <= k <= 10) {
        stuck(a)
    } else if k < 10 {
        level_p(text, off, d, a, k + 1)
    } else {
        prefix_p(text, off, d, a)
    }
}

/// The rest of an expression of level `k` whose left operand `left` ends at `w`.
pub closed spec fn loop_p(text: Seq<u8>, w: int, d: int, a: Seq<ExprView>, k: int, left: nat) -> Parse
    decreases MAX_LEVEL - d, text.len() - w, 47 - 2 * k,
{
    if !(0 <= w <= text.len()) || !(0 <= d <= MAX_LEVEL) || !(0 <= k <= 10) {
        stuck(a)
    } else {
        match level_op(text, w, k) {
            None => Parse::Done(a, left, w as nat),
            Some(op) => {
                let e1 = w + op_text(op).len();
                match ws(text, (e1) as int) {
                    Scan::Failed(p, m) => Parse::Failed(a, p, m),
                    Scan::Done(w1) => if !fwd(text, w1 as int, w as int) {
                        stuck(a)
                    } else {
                        match operand_p(text, w1 as int, d, a, k) {
                            Parse::Done(a2, rid, e2) => match ws(text, e2 as int) {
                                Scan::Failed(p, m) => Parse::Failed(a2, p, m),
                                Scan::Done(w2) => if !fwd(text, w2 as int, w as int) {
                                    stuck(a2)
                                } else {
                                    loop_p(
                                        text,
                                        w2 as int,
                                        d,
                                        a2.push(ExprView::Binary(pos_at(text, w), ExpressionId(left as usize), op, ExpressionId(rid as usize))),
                                        k,
                                        a2.len(),
                                    )
                                },
                            },
                            f => f,
                        }
                    },
                }
            },
        }
    }
}

/// A prefix expression: prefix operators, then a postfix expression.
pub closed spec fn prefix_p(text: Seq<u8>, off: int, d: int, a: Seq<ExprView>) -> Parse
    decreases MAX_LEVEL - d, text.len() - off, 26int,
{
    if !(0 <= off <= text.len()) || !(0 <= d <= MAX_LEVEL) {
        stuck(a)
    } else {
        match prefix_op(text, off) {
            None => postfix_p(text, off, d, a),
            Some((n, op)) => match ws(text, (off + n) as int) {
                Scan::Failed(p, m) => Parse::Failed(a, p, m),
                Scan::Done(w) => if d >= MAX_LEVEL {
                    Parse::Failed(a, w, "Too deeply nested expression".spec_bytes())
                } else {
                    match prefix_p(text, w as int, d + 1, a) {
                        Parse::Done(a1, id, e) => allocated(a1, ExprView::Unary(pos_at(text, off), op, ExpressionId(id as usize)), e as int),
                        f => f,
                    }
                },
            },
        }
    }
}

/// A postfix expression: a primary expression, then increments, decrements, indexing,
/// slicing and selections.
pub closed spec fn postfix_p(text: Seq<u8>, off: int, d: int, a: Seq<ExprView>) -> Parse
    decreases MAX_LEVEL - d, text.len() - off, 25int,
{
    if !(0 <= off <= text.len()) || !(0 <= d <= MAX_LEVEL) {
        stuck(a)
    } else {
        match primary_p(text, off, d, a) {
            Parse::Done(a1, id, e1) => match ws(text, e1 as int) {
                Scan::Failed(p, m) => Parse::Failed(a1, p, m),
                Scan::Done(w) => if !(off <= w && w <= text.len()) {
                    stuck(a1)
                } else {
                    ploop_p(text, w as int, d, a1, id)
                },
            },
            f => f,
        }
    }
}

/// Whether a postfix operator stands at `w`.
pub open spec fn postfix_follows(text: Seq<u8>, w: int) -> bool {
    string_at(text, w, "++".spec_bytes()) || string_at(text, w, "--".spec_bytes()) || string_at(text, w, "[".spec_bytes())
        || (string_at(text, w, ".".spec_bytes()) && !string_at(text, w, "..".spec_bytes()))
}

/// The rest of a postfix expression whose subject `subject` ends at `w`.
pub closed spec fn ploop_p(text: Seq<u8>, w: int, d: int, a: Seq<ExprView>, subject: nat) -> Parse
    decreases MAX_LEVEL - d, text.len() - w, 24int,
{
    if !(0 <= w <= text.len()) || !(0 <= d <= MAX_LEVEL) {
        stuck(a)
    } else if !postfix_follows(text, (w) as int) {
        Parse::Done(a, subject, w as nat)
    } else {
        let pos = pos_at(text, w);
        let sid = ExpressionId(subject as usize);
        if string_at(text, w, "++".spec_bytes()) || string_at(text, w, "--".spec_bytes()) {
            let op = if string_at(text, w, "++".spec_bytes()) { UnaryOperation::PostIncrement } else { UnaryOperation::PostDecrement };
            match ws(text, (w + 2) as int) {
                Scan::Failed(p, m) => Parse::Failed(a, p, m),
                Scan::Done(w1) => if !fwd(text, w1 as int, w as int) {
                    stuck(a)
                } else {
                    ploop_p(text, w1 as int, d, a.push(ExprView::Unary(pos, op, sid)), a.len())
                },
            }
        } else if string_at(text, w, "[".spec_bytes()) {
            match ws(text, (w + 1) as int) {
                Scan::Failed(p, m) => Parse::Failed(a, p, m),
                Scan::Done(w1) => if !fwd(text, w1 as int, w as int) {
                    stuck(a)
                } else {
                    match expr_p(text, w1 as int, d, a) {
                        Parse::Done(a1, iid, e1) => match ws(text, e1 as int) {
                            Scan::Failed(p, m) => Parse::Failed(a1, p, m),
                            Scan::Done(w2) => {
                                let slicing = string_at(text, w2 as int, "..".spec_bytes()) || string_at(text, w2 as int, ":".spec_bytes());
                                let inner: Parse = if slicing {
                                    let n = if string_at(text, w2 as int, "..".spec_bytes()) { 2int } else { 1int };
                                    match ws(text, (w2 + n) as int) {
                                        Scan::Failed(p, m) => Parse::Failed(a1, p, m),
                                        Scan::Done(w3) => if !fwd(text, w3 as int, w as int) {
                                            stuck(a1)
                                        } else {
                                            match expr_p(text, w3 as int, d, a1) {
                                                Parse::Done(a2, tid, e2) => match ws(text, e2 as int) {
                                                    Scan::Failed(p, m) => Parse::Failed(a2, p, m),
                                                    Scan::Done(w4) => allocated(
                                                        a2,
                                                        ExprView::Slicing(pos_at(text, w2 as int), sid, ExpressionId(iid as usize), ExpressionId(tid as usize)),
                                                        w4 as int,
                                                    ),
                                                },
                                                f => f,
                                            }
                                        },
                                    }
                                } else {
                                    allocated(a1, ExprView::Indexing(pos, sid, ExpressionId(iid as usize)), w2 as int)
                                };
                                match inner {
                                    Parse::Done(a3, rid, e3) => match string_scan(text, e3 as int, "]".spec_bytes()) {
                                        Scan::Failed(p, m) => Parse::Failed(a3, p, m),
                                        Scan::Done(e4) => match ws(text, e4 as int) {
                                            Scan::Failed(p, m) => Parse::Failed(a3, p, m),
                                            Scan::Done(w5) => if !fwd(text, w5 as int, w as int) {
                                                stuck(a3)
                                            } else {
                                                ploop_p(text, w5 as int, d, a3, rid)
                                            },
                                        },
                                    },
                                    f => f,
                                }
                            },
                        },
                        f => f,
                    }
                },
            }
        } else {
            select_p(text, w, d, a, subject)
        }
    }
}

/// Reading the field name of a selection at `w1`: `length`, or an identifier.
pub open spec fn field_scan(text: Seq<u8>, w1: int) -> (Scan, FieldView) {
    if keyword_at(text, w1, "length".spec_bytes()) {
        (keyword_scan(text, w1, "length".spec_bytes()), FieldView::Length)
    } else {
        (ident_scan(text, w1), FieldView::Symbolic(text.subrange(w1, ident_end(text, w1 + 1))))
    }
}

/// The rest of a postfix expression whose subject `subject` ends at `w`, where `.` and a
/// field name stand at `w`.
pub closed spec fn select_p(text: Seq<u8>, w: int, d: int, a: Seq<ExprView>, subject: nat) -> Parse
    decreases MAX_LEVEL - d, text.len() - w, 23int,
{
    if !(0 <= w <= text.len()) || !(0 <= d <= MAX_LEVEL) {
        stuck(a)
    } else {
        let pos = pos_at(text, w);
        let sid = ExpressionId(subject as usize);
        match ws(text, (w + 1) as int) {
            Scan::Failed(p, m) => Parse::Failed(a, p, m),
            Scan::Done(w1) => {
                let (s, field) = field_scan(text, w1 as int);
                match s {
                    Scan::Failed(p, m) => Parse::Failed(a, p, m),
                    Scan::Done(e) => if !fwd(text, e as int, w as int) {
                        stuck(a)
                    } else {
                        ploop_p(text, e as int, d, a.push(ExprView::Select(pos, sid, field)), a.len())
                    },
                }
            },
        }
    }
}

/// A primary expression: a parenthesised expression, an array, a constant, a call, or a
/// variable.
pub closed spec fn primary_p(text: Seq<u8>, off: int, d: int, a: Seq<ExprView>) -> Parse
    decreases MAX_LEVEL - d, text.len() - off, 23int,
{
    if !(0 <= off <= text.len()) || !(0 <= d <= MAX_LEVEL) {
        stuck(a)
    } else if string_at(text, off, "(".spec_bytes()) {
        paren_p(text, off, d, a)
    } else if string_at(text, off, "{".spec_bytes()) {
        array_p(text, off, d, a)
    } else if (byte(text, off) matches Some(c) && (digit(c) || c == 39)) || keyword_at(text, off, "null".spec_bytes())
        || keyword_at(text, off, "true".spec_bytes()) || keyword_at(text, off, "false".spec_bytes()) {
        constant_p(text, off, a)
    } else if builtin_keyword_at(text, off) || ident_then(text, off, "(".spec_bytes()) {
        call_p(text, off, d, a)
    } else {
        variable_p(text, off, a)
    }
}

/// `( e )`.
pub closed spec fn paren_p(text: Seq<u8>, off: int, d: int, a: Seq<ExprView>) -> Parse
    decreases MAX_LEVEL - d, text.len() - off, 22int,
{
    if !(0 <= off <= text.len()) || !(0 <= d <= MAX_LEVEL) {
        stuck(a)
    } else {
        match string_scan(text, off, "(".spec_bytes()) {
            Scan::Failed(p, m) => Parse::Failed(a, p, m),
            Scan::Done(e1) => match ws(text, e1 as int) {
                Scan::Failed(p, m) => Parse::Failed(a, p, m),
                Scan::Done(w1) => if !fwd(text, w1 as int, off as int) {
                    stuck(a)
                } else {
                    match expr_p(text, w1 as int, d, a) {
                        Parse::Done(a1, id, e2) => match ws(text, e2 as int) {
                            Scan::Failed(p, m) => Parse::Failed(a1, p, m),
                            Scan::Done(w2) => match string_scan(text, w2 as int, ")".spec_bytes()) {
                                Scan::Failed(p, m) => Parse::Failed(a1, p, m),
                                Scan::Done(e3) => Parse::Done(a1, id, e3),
                            },
                        },
                        f => f,
                    }
                },
            },
        }
    }
}

/// The expressions of a list, from `at` on, separated by commas and ended where `close`
/// stands (which is not consumed) or at the end of the text.
pub closed spec fn list_p(text: Seq<u8>, at: int, d: int, a: Seq<ExprView>, ids: Seq<ExpressionId>, close: Seq<u8>) -> ListParse
    decreases MAX_LEVEL - d, text.len() - at, 100int,
{
    if !(0 <= at <= text.len()) || !(0 <= d <= MAX_LEVEL) {
        ListParse::Failed(a, 0, Seq::empty())
    } else if byte(text, at) is None {
        ListParse::Done(a, ids, at as nat)
    } else {
        match expr_p(text, at, d, a) {
            Parse::Done(a1, id, e1) => match ws(text, e1 as int) {
                Scan::Failed(p, m) => ListParse::Failed(a1, p, m),
                Scan::Done(w) => if string_at(text, w as int, close) {
                    ListParse::Done(a1, ids.push(ExpressionId(id as usize)), w)
                } else {
                    match string_scan(text, w as int, ",".spec_bytes()) {
                        Scan::Failed(p, m) => ListParse::Failed(a1, p, m),
                        Scan::Done(e2) => match ws(text, e2 as int) {
                            Scan::Failed(p, m) => ListParse::Failed(a1, p, m),
                            Scan::Done(w2) => if !fwd(text, w2 as int, at as int) {
                                ListParse::Failed(a1, 0, Seq::empty())
                            } else {
                                list_p(text, w2 as int, d, a1, ids.push(ExpressionId(id as usize)), close)
                            },
                        },
                    }
                },
            },
            Parse::Failed(a1, p, m) => ListParse::Failed(a1, p, m),
        }
    }
}

/// The list of expressions after an opening bracket at `w1`, up to and including `close`.
pub closed spec fn items_p(text: Seq<u8>, w1: int, d: int, a: Seq<ExprView>, close: Seq<u8>) -> ListParse
    decreases MAX_LEVEL - d, text.len() - w1, 101int,
{
    if !(0 <= w1 <= text.len()) || !(0 <= d <= MAX_LEVEL) {
        ListParse::Failed(a, 0, Seq::empty())
    } else {
        let inner = if string_at(text, w1, close) {
            ListParse::Done(a, Seq::empty(), w1 as nat)
        } else {
            list_p(text, w1, d, a, Seq::empty(), close)
        };
        match inner {
            ListParse::Done(a1, ids, e) => match string_scan(text, e as int, close) {
                Scan::Failed(p, m) => ListParse::Failed(a1, p, m),
                Scan::Done(e2) => ListParse::Done(a1, ids, e2),
            },
            f => f,
        }
    }
}

/// `{ e, ... }`.
pub closed spec fn array_p(text: Seq<u8>, off: int, d: int, a: Seq<ExprView>) -> Parse
    decreases MAX_LEVEL - d, text.len() - off, 22int,
{
    if !(0 <= off <= text.len()) || !(0 <= d <= MAX_LEVEL) {
        stuck(a)
    } else {
        match string_scan(text, off, "{".spec_bytes()) {
            Scan::Failed(p, m) => Parse::Failed(a, p, m),
            Scan::Done(e1) => match ws(text, e1 as int) {
                Scan::Failed(p, m) => Parse::Failed(a, p, m),
                Scan::Done(w1) => if !fwd(text, w1 as int, off as int) {
                    stuck(a)
                } else {
                    match items_p(text, w1 as int, d, a, "}".spec_bytes()) {
                        ListParse::Done(a1, ids, e) => allocated(a1, ExprView::Array(pos_at(text, off), ids), e as int),
                        ListParse::Failed(a1, p, m) => Parse::Failed(a1, p, m),
                    }
                },
            },
        }
    }
}

/// A constant: `null`, `true`, `false`, a character literal, or an integer literal.
pub open spec fn constant_p(text: Seq<u8>, off: int, a: Seq<ExprView>) -> Parse {
    let pos = pos_at(text, off);
    if keyword_at(text, off, "null".spec_bytes()) {
        keyword_constant(text, off, a, "null".spec_bytes(), ConstantView::Null)
    } else if keyword_at(text, off, "true".spec_bytes()) {
        keyword_constant(text, off, a, "true".spec_bytes(), ConstantView::True)
    } else if keyword_at(text, off, "false".spec_bytes()) {
        keyword_constant(text, off, a, "false".spec_bytes(), ConstantView::False)
    } else if byte(text, off) == Some(39u8) {
        let j = char_end(text, off + 1);
        if byte(text, j) != Some(39u8) || j == off + 1 {
            Parse::Failed(a, j as nat, "Expected character constant".spec_bytes())
        } else {
            allocated(a, ExprView::Constant(pos, ConstantView::Character(text.subrange(off + 1, j))), j + 1)
        }
    } else if !(byte(text, off) matches Some(c) && digit(c)) {
        Parse::Failed(a, off as nat, "Expected integer constant".spec_bytes())
    } else {
        let j = integer_end(text, off);
        allocated(a, ExprView::Constant(pos, ConstantView::Integer(text.subrange(off, j))), j)
    }
}

/// The keyword `kw` read as the constant `c`.
pub open spec fn keyword_constant(text: Seq<u8>, off: int, a: Seq<ExprView>, kw: Seq<u8>, c: ConstantView) -> Parse {
    match keyword_scan(text, off, kw) {
        Scan::Failed(p, m) => Parse::Failed(a, p, m),
        Scan::Done(e) => allocated(a, ExprView::Constant(pos_at(text, off), c), e as int),
    }
}

/// Reading the function name of a call at `off`: a builtin function, or an identifier.
pub open spec fn method_scan(text: Seq<u8>, off: int) -> (Scan, MethodView) {
    if keyword_at(text, off, "get".spec_bytes()) {
        (keyword_scan(text, off, "get".spec_bytes()), MethodView::Get)
    } else if keyword_at(text, off, "fires".spec_bytes()) {
        (keyword_scan(text, off, "fires".spec_bytes()), MethodView::Fires)
    } else if keyword_at(text, off, "create".spec_bytes()) {
        (keyword_scan(text, off, "create".spec_bytes()), MethodView::Create)
    } else {
        (ident_scan(text, off), MethodView::Symbolic(text.subrange(off, ident_end(text, off + 1))))
    }
}

/// A call: a builtin function name or an identifier, then arguments in parentheses.
pub closed spec fn call_p(text: Seq<u8>, off: int, d: int, a: Seq<ExprView>) -> Parse
    decreases MAX_LEVEL - d, text.len() - off, 22int,
{
    if !(0 <= off <= text.len()) || !(0 <= d <= MAX_LEVEL) {
        stuck(a)
    } else {
        let (s, method) = method_scan(text, off);
        match s {
            Scan::Failed(p, m) => Parse::Failed(a, p, m),
            Scan::Done(e1) => match ws(text, e1 as int) {
                Scan::Failed(p, m) => Parse::Failed(a, p, m),
                Scan::Done(w) => match string_scan(text, w as int, "(".spec_bytes()) {
                    Scan::Failed(p, m) => Parse::Failed(a, p, m),
                    Scan::Done(e2) => match ws(text, e2 as int) {
                        Scan::Failed(p, m) => Parse::Failed(a, p, m),
                        Scan::Done(w1) => if !fwd(text, w1 as int, off as int) {
                            stuck(a)
                        } else {
                            match items_p(text, w1 as int, d, a, ")".spec_bytes()) {
                                ListParse::Done(a1, ids, e) => allocated(a1, ExprView::Call(pos_at(text, off), method, ids, None), e as int),
                                ListParse::Failed(a1, p, m) => Parse::Failed(a1, p, m),
                            }
                        },
                    },
                },
            },
        }
    }
}

/// A variable: an identifier.
pub open spec fn variable_p(text: Seq<u8>, off: int, a: Seq<ExprView>) -> Parse {
    match ident_scan(text, off) {
        Scan::Failed(p, m) => Parse::Failed(a, p, m),
        Scan::Done(e) => allocated(
            a,
            ExprView::Variable(pos_at(text, off), text.subrange(off, ident_end(text, off + 1)), None),
            e as int,
        ),
    }
}

/// The definition of [`expr_p`].
pub proof fn unfold_expr_p(text: Seq<u8>, off: int, d: int, a: Seq<ExprView>)
    ensures
        expr_p(text, off, d, a) == ({
    if !(0 <= off <= text.len()) || !(0 <= d <= MAX_LEVEL) {
        stuck(a)
    } else if d >= MAX_LEVEL {
        Parse::Failed(a, off as nat, "Too deeply nested expression".spec_bytes())
    } else {
        assign_p(text, off, d + 1, a)
    }
        }),
{
}

/// The definition of [`assign_p`].
pub proof fn unfold_assign_p(text: Seq<u8>, off: int, d: int, a: Seq<ExprView>)
    ensures
        assign_p(text, off, d, a) == ({
    if !(0 <= off <= text.len()) || !(0 <= d <= MAX_LEVEL) {
        stuck(a)
    } else {
        match cond_p(text, off, d, a) {
            Parse::Done(a1, id, e1) => match ws(text, e1 as int) {
                Scan::Failed(p, m) => Parse::Failed(a1, p, m),
                Scan::Done(w) => {
                    let k = assignment_choice(text, w as int);
                    if k < 11 {
                        let e2 = w + assignment_text(k).len();
                        match ws(text, (e2) as int) {
                            Scan::Failed(p, m) => Parse::Failed(a1, p, m),
                            Scan::Done(w2) => if !fwd(text, w2 as int, off as int) {
                                stuck(a1)
                            } else {
                                match expr_p(text, w2 as int, d, a1) {
                                    Parse::Done(a2, rid, e3) => allocated(
                                        a2,
                                        ExprView::Assignment(pos_at(text, w as int), ExpressionId(id as usize), assignment_of(k), ExpressionId(rid as usize)),
                                        e3 as int,
                                    ),
                                    f => f,
                                }
                            },
                        }
                    } else {
                        Parse::Done(a1, id, w)
                    }
                },
            },
            f => f,
        }
    }
        }),
{
}

/// The definition of [`cond_p`].
pub proof fn unfold_cond_p(text: Seq<u8>, off: int, d: int, a: Seq<ExprView>)
    ensures
        cond_p(text, off, d, a) == ({
    if !(0 <= off <= text.len()) || !(0 <= d <= MAX_LEVEL) {
        stuck(a)
    } else {
        match level_p(text, off, d, a, 0) {
            Parse::Done(a1, id, e1) => match ws(text, e1 as int) {
                Scan::Failed(p, m) => Parse::Failed(a1, p, m),
                Scan::Done(w) => if !string_at(text, w as int, "?".spec_bytes()) {
                    Parse::Done(a1, id, w)
                } else {
                    match ws(text, (w + 1) as int) {
                        Scan::Failed(p, m) => Parse::Failed(a1, p, m),
                        Scan::Done(w1) => if !fwd(text, w1 as int, off as int) {
                            stuck(a1)
                        } else {
                            match expr_p(text, w1 as int, d, a1) {
                                Parse::Done(a2, tid, e2) => match ws(text, e2 as int) {
                                    Scan::Failed(p, m) => Parse::Failed(a2, p, m),
                                    Scan::Done(w2) => match string_scan(text, w2 as int, ":".spec_bytes()) {
                                        Scan::Failed(p, m) => Parse::Failed(a2, p, m),
                                        Scan::Done(e3) => match ws(text, e3 as int) {
                                            Scan::Failed(p, m) => Parse::Failed(a2, p, m),
                                            Scan::Done(w3) => if !fwd(text, w3 as int, off as int) {
                                                stuck(a2)
                                            } else {
                                                match expr_p(text, w3 as int, d, a2) {
                                                    Parse::Done(a3, fid, e4) => allocated(
                                                        a3,
                                                        ExprView::Conditional(pos_at(text, w as int), ExpressionId(id as usize), ExpressionId(tid as usize), ExpressionId(fid as usize)),
                                                        e4 as int,
                                                    ),
                                                    f => f,
                                                }
                                            },
                                        },
                                    },
                                },
                                f => f,
                            }
                        },
                    }
                },
            },
            f => f,
        }
    }
        }),
{
}

/// The definition of [`level_p`].
pub proof fn unfold_level_p(text: Seq<u8>, off: int, d: int, a: Seq<ExprView>, k: int)
    ensures
        level_p(text, off, d, a, k) == ({
    if !(0 <= off <= text.len()) || !(0 <= d <= MAX_LEVEL) || !(0 <= k <= 10) {
        stuck(a)
    } else {
        match operand_p(text, off, d, a, k) {
            Parse::Done(a1, id, e1) => match ws(text, e1 as int) {
                Scan::Failed(p, m) => Parse::Failed(a1, p, m),
                Scan::Done(w) => if !(off <= w && w <= text.len()) {
                    stuck(a1)
                } else {
                    loop_p(text, w as int, d, a1, k, id)
                },
            },
            f => f,
        }
    }
        }),
{
}

/// The definition of [`operand_p`].
pub proof fn unfold_operand_p(text: Seq<u8>, off: int, d: int, a: Seq<ExprView>, k: int)
    ensures
        operand_p(text, off, d, a, k) == ({
    if !(0 <= off <= text.len()) || !(0 <= d <= MAX_LEVEL) || !(0 <= k <= 10) {
        stuck(a)
    } else if k < 10 {
        level_p(text, off, d, a, k + 1)
    } else {
        prefix_p(text, off, d, a)
    }
        }),
{
}

/// The definition of [`loop_p`].
pub proof fn unfold_loop_p(text: Seq<u8>, w: int, d: int, a: Seq<ExprView>, k: int, left: nat)
    ensures
        loop_p(text, w, d, a, k, left) == ({
    if !(0 <= w <= text.len()) || !(0 <= d <= MAX_LEVEL) || !(0 <= k <= 10) {
        stuck(a)
    } else {
        match level_op(text, w, k) {
            None => Parse::Done(a, left, w as nat),
            Some(op) => {
                let e1 = w + op_text(op).len();
                match ws(text, (e1) as int) {
                    Scan::Failed(p, m) => Parse::Failed(a, p, m),
                    Scan::Done(w1) => if !fwd(text, w1 as int, w as int) {
                        stuck(a)
                    } else {
                        match operand_p(text, w1 as int, d, a, k) {
                            Parse::Done(a2, rid, e2) => match ws(text, e2 as int) {
                                Scan::Failed(p, m) => Parse::Failed(a2, p, m),
                                Scan::Done(w2) => if !fwd(text, w2 as int, w as int) {
                                    stuck(a2)
                                } else {
                                    loop_p(
                                        text,
                                        w2 as int,
                                        d,
                                        a2.push(ExprView::Binary(pos_at(text, w), ExpressionId(left as usize), op, ExpressionId(rid as usize))),
                                        k,
                                        a2.len(),
                                    )
                                },
                            },
                            f => f,
                        }
                    },
                }
            },
        }
    }
        }),
{
}

/// The definition of [`prefix_p`].
pub proof fn unfold_prefix_p(text: Seq<u8>, off: int, d: int, a: Seq<ExprView>)
    ensures
        prefix_p(text, off, d, a) == ({
    if !(0 <= off <= text.len()) || !(0 <= d <= MAX_LEVEL) {
        stuck(a)
    } else {
        match prefix_op(text, off) {
            None => postfix_p(text, off, d, a),
            Some((n, op)) => match ws(text, (off + n) as int) {
                Scan::Failed(p, m) => Parse::Failed(a, p, m),
                Scan::Done(w) => if d >= MAX_LEVEL {
                    Parse::Failed(a, w, "Too deeply nested expression".spec_bytes())
                } else {
                    match prefix_p(text, w as int, d + 1, a) {
                        Parse::Done(a1, id, e) => allocated(a1, ExprView::Unary(pos_at(text, off), op, ExpressionId(id as usize)), e as int),
                        f => f,
                    }
                },
            },
        }
    }
        }),
{
}

/// The definition of [`postfix_p`].
pub proof fn unfold_postfix_p(text: Seq<u8>, off: int, d: int, a: Seq<ExprView>)
    ensures
        postfix_p(text, off, d, a) == ({
    if !(0 <= off <= text.len()) || !(0 <= d <= MAX_LEVEL) {
        stuck(a)
    } else {
        match primary_p(text, off, d, a) {
            Parse::Done(a1, id, e1) => match ws(text, e1 as int) {
                Scan::Failed(p, m) => Parse::Failed(a1, p, m),
                Scan::Done(w) => if !(off <= w && w <= text.len()) {
                    stuck(a1)
                } else {
                    ploop_p(text, w as int, d, a1, id)
                },
            },
            f => f,
        }
    }
        }),
{
}

/// The definition of [`ploop_p`].
pub proof fn unfold_ploop_p(text: Seq<u8>, w: int, d: int, a: Seq<ExprView>, subject: nat)
    ensures
        ploop_p(text, w, d, a, subject) == ({
    if !(0 <= w <= text.len()) || !(0 <= d <= MAX_LEVEL) {
        stuck(a)
    } else if !postfix_follows(text, (w) as int) {
        Parse::Done(a, subject, w as nat)
    } else {
        let pos = pos_at(text, w);
        let sid = ExpressionId(subject as usize);
        if string_at(text, w, "++".spec_bytes()) || string_at(text, w, "--".spec_bytes()) {
            let op = if string_at(text, w, "++".spec_bytes()) { UnaryOperation::PostIncrement } else { UnaryOperation::PostDecrement };
            match ws(text, (w + 2) as int) {
                Scan::Failed(p, m) => Parse::Failed(a, p, m),
                Scan::Done(w1) => if !fwd(text, w1 as int, w as int) {
                    stuck(a)
                } else {
                    ploop_p(text, w1 as int, d, a.push(ExprView::Unary(pos, op, sid)), a.len())
                },
            }
        } else if string_at(text, w, "[".spec_bytes()) {
            match ws(text, (w + 1) as int) {
                Scan::Failed(p, m) => Parse::Failed(a, p, m),
                Scan::Done(w1) => if !fwd(text, w1 as int, w as int) {
                    stuck(a)
                } else {
                    match expr_p(text, w1 as int, d, a) {
                        Parse::Done(a1, iid, e1) => match ws(text, e1 as int) {
                            Scan::Failed(p, m) => Parse::Failed(a1, p, m),
                            Scan::Done(w2) => {
                                let slicing = string_at(text, w2 as int, "..".spec_bytes()) || string_at(text, w2 as int, ":".spec_bytes());
                                let inner: Parse = if slicing {
                                    let n = if string_at(text, w2 as int, "..".spec_bytes()) { 2int } else { 1int };
                                    match ws(text, (w2 + n) as int) {
                                        Scan::Failed(p, m) => Parse::Failed(a1, p, m),
                                        Scan::Done(w3) => if !fwd(text, w3 as int, w as int) {
                                            stuck(a1)
                                        } else {
                                            match expr_p(text, w3 as int, d, a1) {
                                                Parse::Done(a2, tid, e2) => match ws(text, e2 as int) {
                                                    Scan::Failed(p, m) => Parse::Failed(a2, p, m),
                                                    Scan::Done(w4) => allocated(
                                                        a2,
                                                        ExprView::Slicing(pos_at(text, w2 as int), sid, ExpressionId(iid as usize), ExpressionId(tid as usize)),
                                                        w4 as int,
                                                    ),
                                                },
                                                f => f,
                                            }
                                        },
                                    }
                                } else {
                                    allocated(a1, ExprView::Indexing(pos, sid, ExpressionId(iid as usize)), w2 as int)
                                };
                                match inner {
                                    Parse::Done(a3, rid, e3) => match string_scan(text, e3 as int, "]".spec_bytes()) {
                                        Scan::Failed(p, m) => Parse::Failed(a3, p, m),
                                        Scan::Done(e4) => match ws(text, e4 as int) {
                                            Scan::Failed(p, m) => Parse::Failed(a3, p, m),
                                            Scan::Done(w5) => if !fwd(text, w5 as int, w as int) {
                                                stuck(a3)
                                            } else {
                                                ploop_p(text, w5 as int, d, a3, rid)
                                            },
                                        },
                                    },
                                    f => f,
                                }
                            },
                        },
                        f => f,
                    }
                },
            }
        } else {
            select_p(text, w, d, a, subject)
        }
    }
        }),
{
}

/// Where `.` (and not `..`) stands at `w`, the rest of a postfix expression is a selection.
pub proof fn lemma_ploop_select(text: Seq<u8>, w: int, d: int, a: Seq<ExprView>, subject: nat)
    requires
        0 <= w <= text.len(),
        0 <= d <= MAX_LEVEL,
        string_at(text, w, ".".spec_bytes()),
        !string_at(text, w, "..".spec_bytes()),
        !string_at(text, w, "++".spec_bytes()),
        !string_at(text, w, "--".spec_bytes()),
        !string_at(text, w, "[".spec_bytes()),
    ensures
        ploop_p(text, w, d, a, subject) == select_p(text, w, d, a, subject),
{
}

/// The definition of [`select_p`].
pub proof fn unfold_select_p(text: Seq<u8>, w: int, d: int, a: Seq<ExprView>, subject: nat)
    ensures
        select_p(text, w, d, a, subject) == ({
    if !(0 <= w <= text.len()) || !(0 <= d <= MAX_LEVEL) {
        stuck(a)
    } else {
        let pos = pos_at(text, w);
        let sid = ExpressionId(subject as usize);
        match ws(text, (w + 1) as int) {
            Scan::Failed(p, m) => Parse::Failed(a, p, m),
            Scan::Done(w1) => {
                let (s, field) = field_scan(text, w1 as int);
                match s {
                    Scan::Failed(p, m) => Parse::Failed(a, p, m),
                    Scan::Done(e) => if !fwd(text, e as int, w as int) {
                        stuck(a)
                    } else {
                        ploop_p(text, e as int, d, a.push(ExprView::Select(pos, sid, field)), a.len())
                    },
                }
            },
        }
    }
        }),
{
}

/// The definition of [`primary_p`].
pub proof fn unfold_primary_p(text: Seq<u8>, off: int, d: int, a: Seq<ExprView>)
    ensures
        primary_p(text, off, d, a) == ({
    if !(0 <= off <= text.len()) || !(0 <= d <= MAX_LEVEL) {
        stuck(a)
    } else if string_at(text, off, "(".spec_bytes()) {
        paren_p(text, off, d, a)
    } else if string_at(text, off, "{".spec_bytes()) {
        array_p(text, off, d, a)
    } else if (byte(text, off) matches Some(c) && (digit(c) || c == 39)) || keyword_at(text, off, "null".spec_bytes())
        || keyword_at(text, off, "true".spec_bytes()) || keyword_at(text, off, "false".spec_bytes()) {
        constant_p(text, off, a)
    } else if builtin_keyword_at(text, off) || ident_then(text, off, "(".spec_bytes()) {
        call_p(text, off, d, a)
    } else {
        variable_p(text, off, a)
    }
        }),
{
}

/// The definition of [`paren_p`].
pub proof fn unfold_paren_p(text: Seq<u8>, off: int, d: int, a: Seq<ExprView>)
    ensures
        paren_p(text, off, d, a) == ({
    if !(0 <= off <= text.len()) || !(0 <= d <= MAX_LEVEL) {
        stuck(a)
    } else {
        match string_scan(text, off, "(".spec_bytes()) {
            Scan::Failed(p, m) => Parse::Failed(a, p, m),
            Scan::Done(e1) => match ws(text, e1 as int) {
                Scan::Failed(p, m) => Parse::Failed(a, p, m),
                Scan::Done(w1) => if !fwd(text, w1 as int, off as int) {
                    stuck(a)
                } else {
                    match expr_p(text, w1 as int, d, a) {
                        Parse::Done(a1, id, e2) => match ws(text, e2 as int) {
                            Scan::Failed(p, m) => Parse::Failed(a1, p, m),
                            Scan::Done(w2) => match string_scan(text, w2 as int, ")".spec_bytes()) {
                                Scan::Failed(p, m) => Parse::Failed(a1, p, m),
                                Scan::Done(e3) => Parse::Done(a1, id, e3),
                            },
                        },
                        f => f,
                    }
                },
            },
        }
    }
        }),
{
}

/// The definition of [`list_p`].
pub proof fn unfold_list_p(text: Seq<u8>, at: int, d: int, a: Seq<ExprView>, ids: Seq<ExpressionId>, close: Seq<u8>)
    ensures
        list_p(text, at, d, a, ids, close) == ({
    if !(0 <= at <= text.len()) || !(0 <= d <= MAX_LEVEL) {
        ListParse::Failed(a, 0, Seq::empty())
    } else if byte(text, at) is None {
        ListParse::Done(a, ids, at as nat)
    } else {
        match expr_p(text, at, d, a) {
            Parse::Done(a1, id, e1) => match ws(text, e1 as int) {
                Scan::Failed(p, m) => ListParse::Failed(a1, p, m),
                Scan::Done(w) => if string_at(text, w as int, close) {
                    ListParse::Done(a1, ids.push(ExpressionId(id as usize)), w)
                } else {
                    match string_scan(text, w as int, ",".spec_bytes()) {
                        Scan::Failed(p, m) => ListParse::Failed(a1, p, m),
                        Scan::Done(e2) => match ws(text, e2 as int) {
                            Scan::Failed(p, m) => ListParse::Failed(a1, p, m),
                            Scan::Done(w2) => if !fwd(text, w2 as int, at as int) {
                                ListParse::Failed(a1, 0, Seq::empty())
                            } else {
                                list_p(text, w2 as int, d, a1, ids.push(ExpressionId(id as usize)), close)
                            },
                        },
                    }
                },
            },
            Parse::Failed(a1, p, m) => ListParse::Failed(a1, p, m),
        }
    }
        }),
{
}

/// The definition of [`items_p`].
pub proof fn unfold_items_p(text: Seq<u8>, w1: int, d: int, a: Seq<ExprView>, close: Seq<u8>)
    ensures
        items_p(text, w1, d, a, close) == ({
    if !(0 <= w1 <= text.len()) || !(0 <= d <= MAX_LEVEL) {
        ListParse::Failed(a, 0, Seq::empty())
    } else {
        let inner = if string_at(text, w1, close) {
            ListParse::Done(a, Seq::empty(), w1 as nat)
        } else {
            list_p(text, w1, d, a, Seq::empty(), close)
        };
        match inner {
            ListParse::Done(a1, ids, e) => match string_scan(text, e as int, close) {
                Scan::Failed(p, m) => ListParse::Failed(a1, p, m),
                Scan::Done(e2) => ListParse::Done(a1, ids, e2),
            },
            f => f,
        }
    }
        }),
{
}

/// The definition of [`array_p`].
pub proof fn unfold_array_p(text: Seq<u8>, off: int, d: int, a: Seq<ExprView>)
    ensures
        array_p(text, off, d, a) == ({
    if !(0 <= off <= text.len()) || !(0 <= d <= MAX_LEVEL) {
        stuck(a)
    } else {
        match string_scan(text, off, "{".spec_bytes()) {
            Scan::Failed(p, m) => Parse::Failed(a, p, m),
            Scan::Done(e1) => match ws(text, e1 as int) {
                Scan::Failed(p, m) => Parse::Failed(a, p, m),
                Scan::Done(w1) => if !fwd(text, w1 as int, off as int) {
                    stuck(a)
                } else {
                    match items_p(text, w1 as int, d, a, "}".spec_bytes()) {
                        ListParse::Done(a1, ids, e) => allocated(a1, ExprView::Array(pos_at(text, off), ids), e as int),
                        ListParse::Failed(a1, p, m) => Parse::Failed(a1, p, m),
                    }
                },
            },
        }
    }
        }),
{
}

/// The definition of [`call_p`].
pub proof fn unfold_call_p(text: Seq<u8>, off: int, d: int, a: Seq<ExprView>)
    ensures
        call_p(text, off, d, a) == ({
    if !(0 <= off <= text.len()) || !(0 <= d <= MAX_LEVEL) {
        stuck(a)
    } else {
        let (s, method) = method_scan(text, off);
        match s {
            Scan::Failed(p, m) => Parse::Failed(a, p, m),
            Scan::Done(e1) => match ws(text, e1 as int) {
                Scan::Failed(p, m) => Parse::Failed(a, p, m),
                Scan::Done(w) => match string_scan(text, w as int, "(".spec_bytes()) {
                    Scan::Failed(p, m) => Parse::Failed(a, p, m),
                    Scan::Done(e2) => match ws(text, e2 as int) {
                        Scan::Failed(p, m) => Parse::Failed(a, p, m),
                        Scan::Done(w1) => if !fwd(text, w1 as int, off as int) {
                            stuck(a)
                        } else {
                            match items_p(text, w1 as int, d, a, ")".spec_bytes()) {
                                ListParse::Done(a1, ids, e) => allocated(a1, ExprView::Call(pos_at(text, off), method, ids, None), e as int),
                                ListParse::Failed(a1, p, m) => Parse::Failed(a1, p, m),
                            }
                        },
                    },
                },
            },
        }
    }
        }),
{
}

/// The precedence level of a binary operator, from 0 (`@`, binds loosest) to 10 (`*`, `/`
/// and `%`, bind tightest).
pub open spec fn precedence(op: BinaryOperator) -> int {
    match op {
        BinaryOperator::Concatenate => 0,
        BinaryOperator::LogicalOr => 1,
        BinaryOperator::LogicalAnd => 2,
        BinaryOperator::BitwiseOr => 3,
        BinaryOperator::BitwiseXor => 4,
        BinaryOperator::BitwiseAnd => 5,
        BinaryOperator::Equality | BinaryOperator::Inequality => 6,
        BinaryOperator::LessThan | BinaryOperator::GreaterThan | BinaryOperator::LessThanEqual
            | BinaryOperator::GreaterThanEqual => 7,
        BinaryOperator::ShiftLeft | BinaryOperator::ShiftRight => 8,
        BinaryOperator::Add | BinaryOperator::Subtract => 9,
        BinaryOperator::Multiply | BinaryOperator::Divide | BinaryOperator::Remainder => 10,
    }
}

/// An operator that the parser finds at a level of precedence is one of that level, and
/// its text stands where it was found.
pub proof fn law_level_op_precedence(text: Seq<u8>, w: int, k: int)
    requires
        0 <= k <= 10,
    ensures
        level_op(text, w, k) matches Some(op) ==> precedence(op) == k && string_at(text, w, op_text(op)),
{
}

/// The remainder operator binds as tightly as multiplication: where `%` (and not `%=`)
/// stands, the multiplicative level finds the remainder, and no looser level finds it.
pub proof fn law_remainder_is_multiplicative(text: Seq<u8>, w: int)
    requires
        string_at(text, w, "%".spec_bytes()),
        !string_at(text, w, "%=".spec_bytes()),
    ensures
        level_op(text, w, 10) == Some(BinaryOperator::Remainder),
        forall|k: int| 0 <= k < 10 ==> level_op(text, w, k) != Some(BinaryOperator::Remainder),
{
    reveal_strlit("%");
    reveal_strlit("*");
    reveal_strlit("/");
    vstd::string::is_ascii_spec_bytes("%");
    vstd::string::is_ascii_spec_bytes("*");
    vstd::string::is_ascii_spec_bytes("/");
    assert(text.subrange(w, w + 1)[0] == text[w]);
    assert("%".spec_bytes()[0] == '%' as u8);
    assert(text[w] == '%' as u8);
    assert(!string_at(text, w, "*".spec_bytes())) by {
        if string_at(text, w, "*".spec_bytes()) {
            assert("*".spec_bytes()[0] == '*' as u8);
        }
    }
    assert(!string_at(text, w, "/".spec_bytes())) by {
        if string_at(text, w, "/".spec_bytes()) {
            assert("/".spec_bytes()[0] == '/' as u8);
        }
    }
    assert forall|k: int| 0 <= k < 10 implies level_op(text, w, k) != Some(BinaryOperator::Remainder) by {
        law_level_op_precedence(text, w, k);
    }
}

} // verus!
