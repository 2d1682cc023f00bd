use vstd::prelude::*;
use vstd::utf8::encode_utf8;
use vstd::string::StringSliceAdditionalSpecFns;
use crate::ast::{
    expr_views, ArrayExpression, AssignmentExpression, BinaryExpression, BinaryOperator,
    CallExpression, ConditionalExpression, Constant, ConstantExpression, ExprView, Expression,
    ExpressionId, Field, Heap, IndexingExpression, Method, SelectExpression, SlicingExpression,
    UnaryExpression, UnaryOperation, VariableExpression,
};
use crate::grammar::{
    array_p, assign_p, call_p, char_end, cond_p, constant_p, expr_p, fwd, integer_end, items_p,
    keyword_constant, lemma_ident_end, lemma_ws_mono, level_op, level_p, list_p, loop_p, op_text,
    operand_p, paren_p, ploop_p, postfix_follows, postfix_p, prefix_op, prefix_p, primary_p,
    variable_p, ws, ListParse, Parse, unfold_expr_p, unfold_assign_p, unfold_cond_p, unfold_level_p,
    unfold_operand_p, unfold_loop_p, unfold_prefix_p, unfold_postfix_p, unfold_ploop_p,
    unfold_primary_p, unfold_paren_p, unfold_list_p, unfold_items_p, unfold_array_p, unfold_call_p, lemma_op_text, lemma_assignment_text, unfold_select_p, field_scan, select_p, lemma_ploop_select, pos_at, method_scan,
};
use crate::inputsource::{position_at, ParseError};
use vstd::pervasive::unreached;
use crate::lexer::{
    assignment_choice, assignment_text, byte, digit, ident_end, ident_scan, integer_rest,
    keyword_scan, lemma_match_len, lemma_string_scan, lowered, match_len, reports, string_at,
    string_scan, vchar, Lexer, Scan, MAX_LEVEL, type_scan, primitive_choice, primitive_keyword,
    primitive_scan,
};

verus! {

/// `r`, the read offset `cursor` and the expressions `arena` are what the parse `p` of
/// `text` describes.
pub open spec fn parsed(text: Seq<u8>, r: Result<ExpressionId, ParseError>, cursor: nat, arena: Seq<ExprView>, p: Parse) -> bool {
    match p {
        Parse::Done(a, id, e) => r matches Ok(x) && x.0 == id && cursor == e && arena == a,
        Parse::Failed(a, pos, m) => r matches Err(err) && cursor == pos && arena == a && err.spec_position()
            == position_at(text, pos) && encode_utf8(err.spec_message()) == m,
    }
}

/// As [`parsed`], for a list of expressions.
pub open spec fn listed(text: Seq<u8>, r: Result<Vec<ExpressionId>, ParseError>, cursor: nat, arena: Seq<ExprView>, p: ListParse) -> bool {
    match p {
        ListParse::Done(a, ids, e) => r matches Ok(v) && v@ == ids && cursor == e && arena == a,
        ListParse::Failed(a, pos, m) => r matches Err(err) && cursor == pos && arena == a && err.spec_position()
            == position_at(text, pos) && encode_utf8(err.spec_message()) == m,
    }
}

/// Only the expressions of `h1` may differ from those of `h0`.
pub open spec fn rest_kept(h0: Heap, h1: Heap) -> bool {
    &&& h1.variables == h0.variables
    &&& h1.statements == h0.statements
    &&& h1.definitions == h0.definitions
}


/// What every parsing method ensures: the lexer reads the same text, no further back;
/// only the expressions of the heap change; and the outcome is the parse `p`.
pub open spec fn parse_post(l0: Lexer, l1: Lexer, h0: Heap, h1: Heap, r: Result<ExpressionId, ParseError>, p: Parse) -> bool {
    &&& l1.wf()
    &&& l1.same_text(&l0)
    &&& l0.at() <= l1.at()
    &&& rest_kept(h0, h1)
    &&& parsed(l0.text(), r, l1.at(), expr_views(h1.expressions@), p)
}

/// Adds `e` to the expressions of `h`, giving its index.
fn allocate_expression(h: &mut Heap, e: Expression) -> (r: ExpressionId)
    ensures
        expr_views(final(h).expressions@) == expr_views(old(h).expressions@).push(e@),
        r.0 == old(h).expressions@.len(),
        rest_kept(*old(h), *final(h)),
{
    h.expressions.push(e);
    let ghost before = old(h).expressions@;
    assert(expr_views(h.expressions@) =~= expr_views(before).push(e@));
    ExpressionId(h.expressions.len() - 1)
}

proof fn lemma_scan_forward(text: Seq<u8>, off: int, s: Seq<u8>)
    requires
        0 <= off,
    ensures
        string_scan(text, off, s) matches Scan::Done(e) ==> e == off + s.len(),
        string_scan(text, off, s) matches Scan::Failed(p, _) ==> off <= p,
        keyword_scan(text, off, s) matches Scan::Done(e) ==> e == off + s.len(),
        keyword_scan(text, off, s) matches Scan::Failed(p, _) ==> off <= p,
{
    lemma_match_len(text, off, s, 0);
    lemma_match_len(text, off, lowered(s), 0);
}


/// Reading a type never goes back.
pub(crate) proof fn lemma_type_scan_forward(text: Seq<u8>, off: int)
    requires
        0 <= off,
    ensures
        type_scan(text, off) matches Scan::Done(e) ==> off <= e,
        type_scan(text, off) matches Scan::Failed(p, _) ==> off <= p,
{
    let k = primitive_choice(text, off);
    if k < 8 {
        lemma_scan_forward(text, off, primitive_keyword(k));
    } else {
        lemma_ident_end(text, off + 1);
    }
    match primitive_scan(text, off) {
        Scan::Done(e) => lemma_scan_forward(text, e as int, "[]".spec_bytes()),
        Scan::Failed(_, _) => {},
    }
}

/// The lengths of the one- and two-byte literals the expression parser reads.
pub(crate) proof fn lemma_short_literals()
    ensures
        "+".spec_bytes().len() == 1,
        "-".spec_bytes().len() == 1,
        "~".spec_bytes().len() == 1,
        "!".spec_bytes().len() == 1,
        "[".spec_bytes().len() == 1,
        "]".spec_bytes().len() == 1,
        ".".spec_bytes().len() == 1,
        ":".spec_bytes().len() == 1,
        "..".spec_bytes().len() == 2,
        "++".spec_bytes().len() == 2,
        "--".spec_bytes().len() == 2,
        "?".spec_bytes().len() == 1,
        "(".spec_bytes().len() == 1,
        ")".spec_bytes().len() == 1,
        "{".spec_bytes().len() == 1,
        "}".spec_bytes().len() == 1,
        ",".spec_bytes().len() == 1,
{
    reveal_strlit("+");
    reveal_strlit("-");
    reveal_strlit("~");
    reveal_strlit("!");
    reveal_strlit("[");
    reveal_strlit("]");
    reveal_strlit(".");
    reveal_strlit(":");
    reveal_strlit("..");
    reveal_strlit("++");
    reveal_strlit("--");
    reveal_strlit("?");
    vstd::string::is_ascii_spec_bytes("+");
    vstd::string::is_ascii_spec_bytes("-");
    vstd::string::is_ascii_spec_bytes("~");
    vstd::string::is_ascii_spec_bytes("!");
    vstd::string::is_ascii_spec_bytes("[");
    vstd::string::is_ascii_spec_bytes("]");
    vstd::string::is_ascii_spec_bytes(".");
    vstd::string::is_ascii_spec_bytes(":");
    vstd::string::is_ascii_spec_bytes("..");
    vstd::string::is_ascii_spec_bytes("++");
    vstd::string::is_ascii_spec_bytes("--");
    vstd::string::is_ascii_spec_bytes("?");
    assert("+".spec_bytes() =~= seq![43u8]);
    assert("-".spec_bytes() =~= seq![45u8]);
    assert("~".spec_bytes() =~= seq![126u8]);
    assert("!".spec_bytes() =~= seq![33u8]);
    reveal_strlit("(");
    vstd::string::is_ascii_spec_bytes("(");
    reveal_strlit(")");
    vstd::string::is_ascii_spec_bytes(")");
    reveal_strlit("{");
    vstd::string::is_ascii_spec_bytes("{");
    reveal_strlit("}");
    vstd::string::is_ascii_spec_bytes("}");
    reveal_strlit(",");
    vstd::string::is_ascii_spec_bytes(",");
    assert("[".spec_bytes() =~= seq![91u8]);
    assert("]".spec_bytes() =~= seq![93u8]);
    assert(".".spec_bytes() =~= seq![46u8]);
    assert(":".spec_bytes() =~= seq![58u8]);
    assert("..".spec_bytes() =~= seq![46u8, 46u8]);
    assert("++".spec_bytes() =~= seq![43u8, 43u8]);
    assert("--".spec_bytes() =~= seq![45u8, 45u8]);
    assert("?".spec_bytes() =~= seq![63u8]);
}

/// A byte of the body of a character literal: visible or a space, but not a quote.
fn char_body(x: Option<u8>) -> (r: bool)
    ensures
        r == (x matches Some(c) && c != 39 && (vchar(c) || c == 32)),
{
    match x {
        Some(c) => c != 39u8 && (c >= 0x21u8 && c <= 0x7Eu8 || c == 32u8),
        None => false,
    }
}

fn digit_byte(x: Option<u8>) -> (r: bool)
    ensures
        r == (x matches Some(c) && digit(c)),
{
    match x {
        Some(c) => c >= 48u8 && c <= 57u8,
        None => false,
    }
}

fn integer_byte(x: Option<u8>) -> (r: bool)
    ensures
        r == (x matches Some(c) && integer_rest(c)),
{
    match x {
        Some(c) => c >= 48u8 && c <= 57u8 || c >= 97u8 && c <= 102u8 || c >= 65u8 && c <= 70u8 || c == 120u8 || c == 88u8,
        None => false,
    }
}

impl Lexer {
    /// Skips blanks and comments.
    pub(crate) fn skip_ws(&mut self) -> (r: Result<(), ParseError>)
        requires
            old(self).wf(),
        ensures
            final(self).wf(),
            final(self).same_text(old(self)),
            old(self).at() <= final(self).at(),
            reports(old(self).text(), r, final(self).at(), ws(old(self).text(), old(self).at() as int)),
    {
        proof {
            lemma_ws_mono(self.text(), self.at() as int);
        }
        self.consume_whitespace(false)
    }

    /// Reads `s`, which must stand at the read position.
    pub(crate) fn expect(&mut self, s: &[u8]) -> (r: Result<(), ParseError>)
        requires
            old(self).wf(),
        ensures
            final(self).wf(),
            final(self).same_text(old(self)),
            old(self).at() <= final(self).at(),
            reports(old(self).text(), r, final(self).at(), string_scan(old(self).text(), old(self).at() as int, s@)),
            r is Ok ==> final(self).at() == old(self).at() + s@.len(),
    {
        proof {
            lemma_scan_forward(self.text(), self.at() as int, s@);
        }
        self.consume_string(s)
    }

    /// Reads the keyword `kw`, which must stand at the read position.
    pub(crate) fn expect_keyword(&mut self, kw: &[u8]) -> (r: Result<(), ParseError>)
        requires
            old(self).wf(),
        ensures
            final(self).wf(),
            final(self).same_text(old(self)),
            old(self).at() <= final(self).at(),
            reports(old(self).text(), r, final(self).at(), keyword_scan(old(self).text(), old(self).at() as int, kw@)),
            r is Ok ==> final(self).at() == old(self).at() + kw@.len(),
    {
        proof {
            lemma_scan_forward(self.text(), self.at() as int, kw@);
        }
        self.consume_keyword(kw)
    }

    /// Reads an identifier.
    pub(crate) fn expect_ident(&mut self) -> (r: Result<Vec<u8>, ParseError>)
        requires
            old(self).wf(),
        ensures
            final(self).wf(),
            final(self).same_text(old(self)),
            old(self).at() <= final(self).at(),
            reports(old(self).text(), r, final(self).at(), ident_scan(old(self).text(), old(self).at() as int)),
            r matches Ok(v) ==> v@ == old(self).text().subrange(
                old(self).at() as int,
                ident_end(old(self).text(), old(self).at() as int + 1),
            ) && old(self).at() < final(self).at(),
    {
        proof {
            lemma_ident_end(self.text(), self.at() as int + 1);
        }
        self.consume_ident()
    }

    /// Reads a variable: an identifier.
    pub fn consume_variable_expression(&mut self, h: &mut Heap) -> (r: Result<ExpressionId, ParseError>)
        requires
            old(self).wf(),
        ensures
            final(self).wf(),
            final(self).same_text(old(self)),
            old(self).at() <= final(self).at(),
            rest_kept(*old(h), *final(h)),
            parsed(old(self).text(), r, final(self).at(), expr_views(final(h).expressions@), variable_p(old(self).text(), old(self).at() as int, expr_views(old(h).expressions@))),
    {
        let position = self.position();
        let identifier = match self.expect_ident() {
            Ok(v) => v,
            Err(e) => return Err(e),
        };
        Ok(allocate_expression(h, Expression::Variable(VariableExpression { position, identifier, declaration: None })))
    }

    /// Reads a constant: `null`, `true`, `false`, a character literal in single quotes, or
    /// an integer literal.
    pub fn consume_constant_expression(&mut self, h: &mut Heap) -> (r: Result<ExpressionId, ParseError>)
        requires
            old(self).wf(),
        ensures
            final(self).wf(),
            final(self).same_text(old(self)),
            old(self).at() <= final(self).at(),
            rest_kept(*old(h), *final(h)),
            parsed(old(self).text(), r, final(self).at(), expr_views(final(h).expressions@), constant_p(old(self).text(), old(self).at() as int, expr_views(old(h).expressions@))),
    {
        let ghost text = self.text();
        let ghost off = self.at() as int;
        let position = self.position();
        let value;
        if self.has_keyword("null".as_bytes()) {
            match self.expect_keyword("null".as_bytes()) {
                Ok(()) => {},
                Err(e) => return Err(e),
            }
            value = Constant::Null;
        } else if self.has_keyword("true".as_bytes()) {
            match self.expect_keyword("true".as_bytes()) {
                Ok(()) => {},
                Err(e) => return Err(e),
            }
            value = Constant::True;
        } else if self.has_keyword("false".as_bytes()) {
            match self.expect_keyword("false".as_bytes()) {
                Ok(()) => {},
                Err(e) => return Err(e),
            }
            value = Constant::False;
        } else if self.peek() == Some(39u8) {
            self.advance();
            let mut data: Vec<u8> = Vec::new();
            let mut next = self.peek();
            while char_body(next)
                invariant
                    self.wf(),
                    self.same_text(old(self)),
                    text == self.text(),
                    0 <= off,
                    off + 1 <= self.at() <= text.len(),
                    next == byte(text, self.at() as int),
                    char_end(text, off + 1) == char_end(text, self.at() as int),
                    data@ == text.subrange(off + 1, self.at() as int),
                decreases text.len() - self.at(),
            {
                let ghost here = self.at() as int;
                let c = next.unwrap();
                assert(c == text[here]);
                data.push(c);
                self.advance();
                next = self.peek();
                assert(self.at() == here + 1);
                assert(self.at() <= text.len());
                assert(0 <= off + 1 <= here < text.len());
                assert(text.subrange(off + 1, here + 1) =~= text.subrange(off + 1, here).push(text[here]));
            }
            if next != Some(39u8) || data.len() == 0 {
                let message = "Expected character constant".to_owned();
                return Err(self.error_here(message));
            }
            self.advance();
            value = Constant::Character(data);
        } else {
            let mut data: Vec<u8> = Vec::new();
            let mut next = self.peek();
            if !digit_byte(next) {
                let message = "Expected integer constant".to_owned();
                return Err(self.error_here(message));
            }
            while integer_byte(next)
                invariant
                    self.wf(),
                    self.same_text(old(self)),
                    text == self.text(),
                    0 <= off <= self.at() <= text.len(),
                    next == byte(text, self.at() as int),
                    integer_end(text, off) == integer_end(text, self.at() as int),
                    data@ == text.subrange(off, self.at() as int),
                decreases text.len() - self.at(),
            {
                let ghost here = self.at() as int;
                let c = next.unwrap();
                assert(c == text[here]);
                data.push(c);
                self.advance();
                next = self.peek();
                assert(self.at() == here + 1);
                assert(text.subrange(off, here + 1) =~= text.subrange(off, here).push(text[here]));
            }
            value = Constant::Integer(data);
        }
        Ok(allocate_expression(h, Expression::Constant(ConstantExpression { position, value })))
    }
}


/// The text of a binary operator.
fn operator_text(op: &BinaryOperator) -> (r: &'static [u8])
    ensures
        r@ == op_text(*op),
{
    match op {
        BinaryOperator::Concatenate => "@".as_bytes(),
        BinaryOperator::LogicalOr => "||".as_bytes(),
        BinaryOperator::LogicalAnd => "&&".as_bytes(),
        BinaryOperator::BitwiseOr => "|".as_bytes(),
        BinaryOperator::BitwiseXor => "^".as_bytes(),
        BinaryOperator::BitwiseAnd => "&".as_bytes(),
        BinaryOperator::Equality => "==".as_bytes(),
        BinaryOperator::Inequality => "!=".as_bytes(),
        BinaryOperator::LessThan => "<".as_bytes(),
        BinaryOperator::GreaterThan => ">".as_bytes(),
        BinaryOperator::LessThanEqual => "<=".as_bytes(),
        BinaryOperator::GreaterThanEqual => ">=".as_bytes(),
        BinaryOperator::ShiftLeft => "<<".as_bytes(),
        BinaryOperator::ShiftRight => ">>".as_bytes(),
        BinaryOperator::Add => "+".as_bytes(),
        BinaryOperator::Subtract => "-".as_bytes(),
        BinaryOperator::Multiply => "*".as_bytes(),
        BinaryOperator::Divide => "/".as_bytes(),
        BinaryOperator::Remainder => "%".as_bytes(),
    }
}

impl Lexer {
    /// The operator of precedence level `k` at the read position, if any.
    fn level_operator(&self, k: usize) -> (r: Option<BinaryOperator>)
        requires
            self.wf(),
            k <= 10,
        ensures
            r == level_op(self.text(), self.at() as int, k as int),
    {
        if k == 0 {
            if self.has_string("@".as_bytes()) { Some(BinaryOperator::Concatenate) } else { None }
        } else if k == 1 {
            if self.has_string("||".as_bytes()) { Some(BinaryOperator::LogicalOr) } else { None }
        } else if k == 2 {
            if self.has_string("&&".as_bytes()) { Some(BinaryOperator::LogicalAnd) } else { None }
        } else if k == 3 {
            if self.has_string("|".as_bytes()) && !self.has_string("||".as_bytes()) && !self.has_string("|=".as_bytes()) {
                Some(BinaryOperator::BitwiseOr)
            } else {
                None
            }
        } else if k == 4 {
            if self.has_string("^".as_bytes()) && !self.has_string("^=".as_bytes()) { Some(BinaryOperator::BitwiseXor) } else { None }
        } else if k == 5 {
            if self.has_string("&".as_bytes()) && !self.has_string("&&".as_bytes()) && !self.has_string("&=".as_bytes()) {
                Some(BinaryOperator::BitwiseAnd)
            } else {
                None
            }
        } else if k == 6 {
            if self.has_string("==".as_bytes()) {
                Some(BinaryOperator::Equality)
            } else if self.has_string("!=".as_bytes()) {
                Some(BinaryOperator::Inequality)
            } else {
                None
            }
        } else if k == 7 {
            if !(self.has_string("<=".as_bytes()) || self.has_string(">=".as_bytes())
                || self.has_string("<".as_bytes()) && !self.has_string("<<=".as_bytes())
                || self.has_string(">".as_bytes()) && !self.has_string(">>=".as_bytes())) {
                None
            } else if self.has_string("<=".as_bytes()) {
                Some(BinaryOperator::LessThanEqual)
            } else if self.has_string(">=".as_bytes()) {
                Some(BinaryOperator::GreaterThanEqual)
            } else if self.has_string("<".as_bytes()) {
                Some(BinaryOperator::LessThan)
            } else {
                Some(BinaryOperator::GreaterThan)
            }
        } else if k == 8 {
            if !(self.has_string("<<".as_bytes()) && !self.has_string("<<=".as_bytes())
                || self.has_string(">>".as_bytes()) && !self.has_string(">>=".as_bytes())) {
                None
            } else if self.has_string("<<".as_bytes()) {
                Some(BinaryOperator::ShiftLeft)
            } else {
                Some(BinaryOperator::ShiftRight)
            }
        } else if k == 9 {
            if !(self.has_string("+".as_bytes()) && !self.has_string("+=".as_bytes())
                || self.has_string("-".as_bytes()) && !self.has_string("-=".as_bytes())) {
                None
            } else if self.has_string("+".as_bytes()) {
                Some(BinaryOperator::Add)
            } else {
                Some(BinaryOperator::Subtract)
            }
        } else {
            if !(self.has_string("*".as_bytes()) && !self.has_string("*=".as_bytes())
                || self.has_string("/".as_bytes()) && !self.has_string("/=".as_bytes())
                || self.has_string("%".as_bytes()) && !self.has_string("%=".as_bytes())) {
                None
            } else if self.has_string("*".as_bytes()) {
                Some(BinaryOperator::Multiply)
            } else if self.has_string("/".as_bytes()) {
                Some(BinaryOperator::Divide)
            } else {
                Some(BinaryOperator::Remainder)
            }
        }
    }
}


impl Lexer {
    /// Reads an expression, one nesting level deeper; fails where the nesting is too deep.
    pub fn consume_expression(&mut self, h: &mut Heap) -> (r: Result<ExpressionId, ParseError>)
        requires
            old(self).wf(),
            old(self).depth() <= MAX_LEVEL,
        ensures
            parse_post(*old(self), *final(self), *old(h), *final(h), r, expr_p(old(self).text(), old(self).at() as int, old(self).depth() as int, expr_views(old(h).expressions@))),
        decreases MAX_LEVEL - old(self).depth(), old(self).text().len() - old(self).at(), 0int,
    {
        proof {
            unfold_expr_p(self.text(), self.at() as int, self.depth() as int, expr_views(h.expressions@));
        }
        proof {
            self.lemma_bounds();
        }
        if self.level() >= MAX_LEVEL {
            let message = "Too deeply nested expression".to_owned();
            return Err(self.error_here(message));
        }
        self.descend();
        let result = self.consume_assignment_expression(h);
        self.ascend();
        result
    }

    /// Reads an assignment: a conditional expression, then an assignment operator and the
    /// expression assigned, if one follows.
    pub fn consume_assignment_expression(&mut self, h: &mut Heap) -> (r: Result<ExpressionId, ParseError>)
        requires
            old(self).wf(),
            old(self).depth() <= MAX_LEVEL,
        ensures
            parse_post(*old(self), *final(self), *old(h), *final(h), r, assign_p(old(self).text(), old(self).at() as int, old(self).depth() as int, expr_views(old(h).expressions@))),
        decreases MAX_LEVEL - old(self).depth(), old(self).text().len() - old(self).at(), 50int,
    {
        proof {
            unfold_assign_p(self.text(), self.at() as int, self.depth() as int, expr_views(h.expressions@));
        }
        proof {
            self.lemma_bounds();
        }
        let left = match self.consume_conditional_expression(h) {
            Ok(id) => id,
            Err(e) => return Err(e),
        };
        match self.skip_ws() {
            Ok(()) => {},
            Err(e) => return Err(e),
        }
        if self.has_assignment_operator() {
            let position = self.position();
            proof {
                lemma_assignment_text(assignment_choice(self.text(), self.at() as int));
            }
            let operation = match self.consume_assignment_operator() {
                Ok(op) => op,
                Err(e) => return Err(e),
            };
            match self.skip_ws() {
                Ok(()) => {},
                Err(e) => return Err(e),
            }
            proof {
                self.lemma_bounds();
            }
            let right = match self.consume_expression(h) {
                Ok(id) => id,
                Err(e) => return Err(e),
            };
            Ok(allocate_expression(h, Expression::Assignment(AssignmentExpression { position, left, operation, right })))
        } else {
            Ok(left)
        }
    }

    /// Reads a conditional expression: a concatenation, then `? e : e` if a question mark
    /// follows.
    pub fn consume_conditional_expression(&mut self, h: &mut Heap) -> (r: Result<ExpressionId, ParseError>)
        requires
            old(self).wf(),
            old(self).depth() <= MAX_LEVEL,
        ensures
            parse_post(*old(self), *final(self), *old(h), *final(h), r, cond_p(old(self).text(), old(self).at() as int, old(self).depth() as int, expr_views(old(h).expressions@))),
        decreases MAX_LEVEL - old(self).depth(), old(self).text().len() - old(self).at(), 49int,
    {
        proof {
            unfold_cond_p(self.text(), self.at() as int, self.depth() as int, expr_views(h.expressions@));
        }
        proof {
            self.lemma_bounds();
        }
        let test = match self.consume_binary_level(h, 0) {
            Ok(id) => id,
            Err(e) => return Err(e),
        };
        match self.skip_ws() {
            Ok(()) => {},
            Err(e) => return Err(e),
        }
        if !self.has_string("?".as_bytes()) {
            return Ok(test);
        }
        let position = self.position();
        proof {
            lemma_string_scan(self.text(), self.at() as int, "?".spec_bytes());
            lemma_short_literals();
        }
        match self.expect("?".as_bytes()) {
            Ok(()) => {},
            Err(e) => return Err(e),
        }
        match self.skip_ws() {
            Ok(()) => {},
            Err(e) => return Err(e),
        }
        proof {
            self.lemma_bounds();
        }
        let true_expression = match self.consume_expression(h) {
            Ok(id) => id,
            Err(e) => return Err(e),
        };
        match self.skip_ws() {
            Ok(()) => {},
            Err(e) => return Err(e),
        }
        match self.expect(":".as_bytes()) {
            Ok(()) => {},
            Err(e) => return Err(e),
        }
        match self.skip_ws() {
            Ok(()) => {},
            Err(e) => return Err(e),
        }
        proof {
            self.lemma_bounds();
        }
        let false_expression = match self.consume_expression(h) {
            Ok(id) => id,
            Err(e) => return Err(e),
        };
        Ok(allocate_expression(h, Expression::Conditional(ConditionalExpression { position, test, true_expression, false_expression })))
    }

    /// Reads an expression of precedence level `k`: operands of the next level joined, left
    /// to right, by the operators of level `k`.
    pub fn consume_binary_level(&mut self, h: &mut Heap, k: usize) -> (r: Result<ExpressionId, ParseError>)
        requires
            old(self).wf(),
            old(self).depth() <= MAX_LEVEL,
            k <= 10,
        ensures
            parse_post(*old(self), *final(self), *old(h), *final(h), r, level_p(old(self).text(), old(self).at() as int, old(self).depth() as int, expr_views(old(h).expressions@), k as int)),
        decreases MAX_LEVEL - old(self).depth(), old(self).text().len() - old(self).at(), 48 - 2 * k,
    {
        proof {
            unfold_level_p(self.text(), self.at() as int, self.depth() as int, expr_views(h.expressions@), k as int);
        }
        let ghost text = self.text();
        let ghost off = self.at() as int;
        let ghost d = self.depth() as int;
        let ghost a0 = expr_views(h.expressions@);
        proof {
            self.lemma_bounds();
        }
        let mut result = match self.consume_operand(h, k) {
            Ok(id) => id,
            Err(e) => return Err(e),
        };
        match self.skip_ws() {
            Ok(()) => {},
            Err(e) => return Err(e),
        }
        proof {
            self.lemma_bounds();
        }
        loop
            invariant
                self.wf(),
                self.same_text(old(self)),
                text == old(self).text(),
                text == self.text(),
                off == old(self).at(),
                d == old(self).depth(),
                d <= MAX_LEVEL,
                k <= 10,
                off <= self.at() <= text.len(),
                rest_kept(*old(h), *h),
                a0 == expr_views(old(h).expressions@),
                level_p(text, off, d, a0, k as int) == loop_p(text, self.at() as int, d, expr_views(h.expressions@), k as int, result.0 as nat),
            decreases text.len() - self.at(),
        {
            let ghost w = self.at() as int;
            proof {
                unfold_loop_p(text, w, d, expr_views(h.expressions@), k as int, result.0 as nat);
            }
            match self.level_operator(k) {
                None => {
                    return Ok(result);
                },
                Some(operation) => {
                    let position = self.position();
                    let s = operator_text(&operation);
                    proof {
                        lemma_string_scan(text, w, s@);
                        lemma_op_text(operation);
                    }
                    match self.expect(s) {
                        Ok(()) => {},
                        Err(e) => return Err(e),
                    }
                    match self.skip_ws() {
                        Ok(()) => {},
                        Err(e) => return Err(e),
                    }
                    proof {
                        self.lemma_bounds();
                    }
                    let right = match self.consume_operand(h, k) {
                        Ok(id) => id,
                        Err(e) => return Err(e),
                    };
                    match self.skip_ws() {
                        Ok(()) => {},
                        Err(e) => return Err(e),
                    }
                    proof {
                        self.lemma_bounds();
                    }
                    let left = result;
                    result = allocate_expression(h, Expression::Binary(BinaryExpression { position, left, operation, right }));
                },
            }
        }
    }

    /// Reads an operand of precedence level `k`: an expression of level `k + 1`, or a
    /// prefix expression after the last level.
    pub fn consume_operand(&mut self, h: &mut Heap, k: usize) -> (r: Result<ExpressionId, ParseError>)
        requires
            old(self).wf(),
            old(self).depth() <= MAX_LEVEL,
            k <= 10,
        ensures
            parse_post(*old(self), *final(self), *old(h), *final(h), r, operand_p(old(self).text(), old(self).at() as int, old(self).depth() as int, expr_views(old(h).expressions@), k as int)),
        decreases MAX_LEVEL - old(self).depth(), old(self).text().len() - old(self).at(), 47 - 2 * k,
    {
        proof {
            unfold_operand_p(self.text(), self.at() as int, self.depth() as int, expr_views(h.expressions@), k as int);
        }
        proof {
            self.lemma_bounds();
        }
        if k < 10 {
            self.consume_binary_level(h, k + 1)
        } else {
            self.consume_prefix_expression(h)
        }
    }

    /// Reads a prefix expression: `+`, `++`, `-`, `--`, `~` or `!` before a prefix
    /// expression, or else a postfix expression.
    pub fn consume_prefix_expression(&mut self, h: &mut Heap) -> (r: Result<ExpressionId, ParseError>)
        requires
            old(self).wf(),
            old(self).depth() <= MAX_LEVEL,
        ensures
            parse_post(*old(self), *final(self), *old(h), *final(h), r, prefix_p(old(self).text(), old(self).at() as int, old(self).depth() as int, expr_views(old(h).expressions@))),
        decreases MAX_LEVEL - old(self).depth(), old(self).text().len() - old(self).at(), 26int,
    {
        proof {
            unfold_prefix_p(self.text(), self.at() as int, self.depth() as int, expr_views(h.expressions@));
            lemma_short_literals();
        }
        let ghost text = self.text();
        let ghost off = self.at() as int;
        proof {
            self.lemma_bounds();
        }
        if self.has_string("+".as_bytes()) || self.has_string("-".as_bytes()) || self.has_string("~".as_bytes())
            || self.has_string("!".as_bytes()) {
            let position = self.position();
            let operation;
            if self.has_string("+".as_bytes()) {
                proof {
                    lemma_string_scan(text, off, "+".spec_bytes());
                }
                match self.expect("+".as_bytes()) {
                    Ok(()) => {},
                    Err(e) => return Err(e),
                }
                if self.has_string("+".as_bytes()) {
                    proof {
                        lemma_string_scan(text, off + 1, "+".spec_bytes());
                    }
                    match self.expect("+".as_bytes()) {
                        Ok(()) => {},
                        Err(e) => return Err(e),
                    }
                    operation = UnaryOperation::PreIncrement;
                } else {
                    operation = UnaryOperation::Positive;
                }
            } else if self.has_string("-".as_bytes()) {
                proof {
                    lemma_string_scan(text, off, "-".spec_bytes());
                }
                match self.expect("-".as_bytes()) {
                    Ok(()) => {},
                    Err(e) => return Err(e),
                }
                if self.has_string("-".as_bytes()) {
                    proof {
                        lemma_string_scan(text, off + 1, "-".spec_bytes());
                    }
                    match self.expect("-".as_bytes()) {
                        Ok(()) => {},
                        Err(e) => return Err(e),
                    }
                    operation = UnaryOperation::PreDecrement;
                } else {
                    operation = UnaryOperation::Negative;
                }
            } else if self.has_string("~".as_bytes()) {
                proof {
                    lemma_string_scan(text, off, "~".spec_bytes());
                }
                match self.expect("~".as_bytes()) {
                    Ok(()) => {},
                    Err(e) => return Err(e),
                }
                operation = UnaryOperation::BitwiseNot;
            } else {
                proof {
                    lemma_string_scan(text, off, "!".spec_bytes());
                }
                match self.expect("!".as_bytes()) {
                    Ok(()) => {},
                    Err(e) => return Err(e),
                }
                operation = UnaryOperation::LogicalNot;
            }
            match self.skip_ws() {
                Ok(()) => {},
                Err(e) => return Err(e),
            }
            if self.level() >= MAX_LEVEL {
                let message = "Too deeply nested expression".to_owned();
                return Err(self.error_here(message));
            }
            self.descend();
            let result = self.consume_prefix_expression(h);
            self.ascend();
            let expression = match result {
                Ok(id) => id,
                Err(e) => return Err(e),
            };
            return Ok(allocate_expression(h, Expression::Unary(UnaryExpression { position, operation, expression })));
        }
        self.consume_postfix_expression(h)
    }

    /// Reads a postfix expression: a primary expression, then increments, decrements,
    /// indexing, slicing and selections.
    pub fn consume_postfix_expression(&mut self, h: &mut Heap) -> (r: Result<ExpressionId, ParseError>)
        requires
            old(self).wf(),
            old(self).depth() <= MAX_LEVEL,
        ensures
            parse_post(*old(self), *final(self), *old(h), *final(h), r, postfix_p(old(self).text(), old(self).at() as int, old(self).depth() as int, expr_views(old(h).expressions@))),
        decreases MAX_LEVEL - old(self).depth(), old(self).text().len() - old(self).at(), 25int,
    {
        proof {
            unfold_postfix_p(self.text(), self.at() as int, self.depth() as int, expr_views(h.expressions@));
            self.lemma_bounds();
        }
        let ghost text = self.text();
        let ghost off = self.at() as int;
        let ghost d = self.depth() as int;
        let ghost a0 = expr_views(h.expressions@);
        let mut result = match self.consume_primary_expression(h) {
            Ok(id) => id,
            Err(e) => return Err(e),
        };
        match self.skip_ws() {
            Ok(()) => {},
            Err(e) => return Err(e),
        }
        proof {
            self.lemma_bounds();
        }
        loop
            invariant
                self.wf(),
                self.same_text(old(self)),
                text == old(self).text(),
                text == self.text(),
                off == old(self).at(),
                d == old(self).depth(),
                d <= MAX_LEVEL,
                off <= self.at() <= text.len(),
                rest_kept(*old(h), *h),
                a0 == expr_views(old(h).expressions@),
                postfix_p(text, off, d, a0) == ploop_p(text, self.at() as int, d, expr_views(h.expressions@), result.0 as nat),
            decreases text.len() - self.at(),
        {
            proof {
                unfold_ploop_p(text, self.at() as int, d, expr_views(h.expressions@), result.0 as nat);
            }
            if !self.has_postfix_operator() {
                return Ok(result);
            }
            result = match self.consume_postfix_operator(h, result) {
                Ok(id) => id,
                Err(e) => return Err(e),
            };
            proof {
                self.lemma_bounds();
            }
        }
    }

    /// Whether a postfix operator stands at the read position.
    fn has_postfix_operator(&self) -> (r: bool)
        requires
            self.wf(),
        ensures
            r == postfix_follows(self.text(), self.at() as int),
    {
        self.has_string("++".as_bytes()) || self.has_string("--".as_bytes()) || self.has_string("[".as_bytes())
            || (self.has_string(".".as_bytes()) && !self.has_string("..".as_bytes()))
    }

    /// Reads one postfix operator applied to `subject`, with the blanks after it: the step
    /// of [`ploop_p`].
    fn consume_postfix_operator(&mut self, h: &mut Heap, subject: ExpressionId) -> (r: Result<ExpressionId, ParseError>)
        requires
            old(self).wf(),
            old(self).depth() <= MAX_LEVEL,
            postfix_follows(old(self).text(), old(self).at() as int),
        ensures
            final(self).wf(),
            final(self).same_text(old(self)),
            rest_kept(*old(h), *final(h)),
            r matches Ok(x) ==> old(self).at() < final(self).at() && ploop_p(old(self).text(), old(self).at() as int, old(self).depth() as int, expr_views(old(h).expressions@), subject.0 as nat)
                == ploop_p(old(self).text(), final(self).at() as int, old(self).depth() as int, expr_views(final(h).expressions@), x.0 as nat),
            r is Err ==> old(self).at() <= final(self).at() && parsed(old(self).text(), r, final(self).at(), expr_views(final(h).expressions@), ploop_p(old(self).text(), old(self).at() as int, old(self).depth() as int, expr_views(old(h).expressions@), subject.0 as nat)),
        decreases MAX_LEVEL - old(self).depth(), old(self).text().len() - old(self).at(), 24int,
    {
        if self.has_string("++".as_bytes()) || self.has_string("--".as_bytes()) {
            self.consume_step_postfix(h, subject)
        } else if self.has_string("[".as_bytes()) {
            self.consume_bracket_postfix(h, subject)
        } else {
            self.consume_select_postfix(h, subject)
        }
    }

    /// Reads `++` or `--` applied to `subject`, with the blanks after it.
    fn consume_step_postfix(&mut self, h: &mut Heap, subject: ExpressionId) -> (r: Result<ExpressionId, ParseError>)
        requires
            old(self).wf(),
            old(self).depth() <= MAX_LEVEL,
            string_at(old(self).text(), old(self).at() as int, "++".spec_bytes())
                || string_at(old(self).text(), old(self).at() as int, "--".spec_bytes()),
        ensures
            final(self).wf(),
            final(self).same_text(old(self)),
            rest_kept(*old(h), *final(h)),
            r matches Ok(x) ==> old(self).at() < final(self).at() && ploop_p(old(self).text(), old(self).at() as int, old(self).depth() as int, expr_views(old(h).expressions@), subject.0 as nat)
                == ploop_p(old(self).text(), final(self).at() as int, old(self).depth() as int, expr_views(final(h).expressions@), x.0 as nat),
            r is Err ==> old(self).at() <= final(self).at() && parsed(old(self).text(), r, final(self).at(), expr_views(final(h).expressions@), ploop_p(old(self).text(), old(self).at() as int, old(self).depth() as int, expr_views(old(h).expressions@), subject.0 as nat)),
    {
        let ghost text = self.text();
        let ghost w = self.at() as int;
        proof {
            unfold_ploop_p(text, w, self.depth() as int, expr_views(h.expressions@), subject.0 as nat);
            self.lemma_bounds();
            lemma_short_literals();
        }
        let position = self.position();
        let operation;
        if self.has_string("++".as_bytes()) {
            proof {
                lemma_string_scan(text, w, "++".spec_bytes());
            }
            match self.expect("++".as_bytes()) {
                Ok(()) => {},
                Err(e) => return Err(e),
            }
            operation = UnaryOperation::PostIncrement;
        } else {
            proof {
                lemma_string_scan(text, w, "--".spec_bytes());
            }
            match self.expect("--".as_bytes()) {
                Ok(()) => {},
                Err(e) => return Err(e),
            }
            operation = UnaryOperation::PostDecrement;
        }
        match self.skip_ws() {
            Ok(()) => {},
            Err(e) => return Err(e),
        }
        proof {
            self.lemma_bounds();
        }
        Ok(allocate_expression(h, Expression::Unary(UnaryExpression { position, operation, expression: subject })))
    }

    /// Reads the field name of a selection.
    fn consume_field(&mut self) -> (r: Result<Field, ParseError>)
        requires
            old(self).wf(),
        ensures
            final(self).wf(),
            final(self).same_text(old(self)),
            old(self).at() <= final(self).at(),
            reports(old(self).text(), r, final(self).at(), field_scan(old(self).text(), old(self).at() as int).0),
            r matches Ok(f) ==> f@ == field_scan(old(self).text(), old(self).at() as int).1,
    {
        if self.has_keyword("length".as_bytes()) {
            match self.expect_keyword("length".as_bytes()) {
                Ok(()) => Ok(Field::Length),
                Err(e) => Err(e),
            }
        } else {
            match self.expect_ident() {
                Ok(v) => Ok(Field::Symbolic(v)),
                Err(e) => Err(e),
            }
        }
    }

    /// Reads `.` and a field name applied to `subject`.
    #[verifier::rlimit(80)]
    fn consume_select_postfix(&mut self, h: &mut Heap, subject: ExpressionId) -> (r: Result<ExpressionId, ParseError>)
        requires
            old(self).wf(),
            old(self).depth() <= MAX_LEVEL,
            string_at(old(self).text(), old(self).at() as int, ".".spec_bytes()),
            !string_at(old(self).text(), old(self).at() as int, "..".spec_bytes()),
            !string_at(old(self).text(), old(self).at() as int, "++".spec_bytes()),
            !string_at(old(self).text(), old(self).at() as int, "--".spec_bytes()),
            !string_at(old(self).text(), old(self).at() as int, "[".spec_bytes()),
        ensures
            final(self).wf(),
            final(self).same_text(old(self)),
            rest_kept(*old(h), *final(h)),
            r matches Ok(x) ==> old(self).at() < final(self).at() && ploop_p(old(self).text(), old(self).at() as int, old(self).depth() as int, expr_views(old(h).expressions@), subject.0 as nat)
                == ploop_p(old(self).text(), final(self).at() as int, old(self).depth() as int, expr_views(final(h).expressions@), x.0 as nat),
            r is Err ==> old(self).at() <= final(self).at() && parsed(old(self).text(), r, final(self).at(), expr_views(final(h).expressions@), ploop_p(old(self).text(), old(self).at() as int, old(self).depth() as int, expr_views(old(h).expressions@), subject.0 as nat)),
    {
        let ghost text = self.text();
        let ghost w = self.at() as int;
        proof {
            self.lemma_bounds();
            lemma_ploop_select(text, w, self.depth() as int, expr_views(h.expressions@), subject.0 as nat);
            unfold_select_p(text, w, self.depth() as int, expr_views(h.expressions@), subject.0 as nat);
            lemma_short_literals();
            lemma_string_scan(text, w, ".".spec_bytes());
        }
        let ghost d = self.depth() as int;
        let ghost a = expr_views(h.expressions@);
        let position = self.position();
        match self.expect(".".as_bytes()) {
            Ok(()) => {},
            Err(e) => return Err(e),
        }
        assert(self.at() == w + 1);
        match self.skip_ws() {
            Ok(()) => {},
            Err(e) => return Err(e),
        }
        let ghost w1 = self.at() as int;
        assert(ws(text, w + 1) == Scan::Done(w1 as nat));
        let field = match self.consume_field() {
            Ok(f) => f,
            Err(e) => return Err(e),
        };
        proof {
            self.lemma_bounds();
        }
        assert(field_scan(text, w1).0 == Scan::Done(self.at()));
        assert(field@ == field_scan(text, w1).1);
        assert(fwd(text, self.at() as int, w));
        let ghost e = self.at() as int;
        let ghost sel = ExprView::Select(pos_at(text, w), subject, field@);
        assert(select_p(text, w, d, a, subject.0 as nat) == ploop_p(text, e, d, a.push(sel), a.len()));
        Ok(allocate_expression(h, Expression::Select(SelectExpression { position, subject, field })))
    }

    /// Reads `[ e ]` or `[ e .. e ]` (or `[ e : e ]`) applied to `subject`, with the blanks
    /// after it.
    fn consume_bracket_postfix(&mut self, h: &mut Heap, subject: ExpressionId) -> (r: Result<ExpressionId, ParseError>)
        requires
            old(self).wf(),
            old(self).depth() <= MAX_LEVEL,
            string_at(old(self).text(), old(self).at() as int, "[".spec_bytes()),
            !string_at(old(self).text(), old(self).at() as int, "++".spec_bytes()),
            !string_at(old(self).text(), old(self).at() as int, "--".spec_bytes()),
        ensures
            final(self).wf(),
            final(self).same_text(old(self)),
            rest_kept(*old(h), *final(h)),
            r matches Ok(x) ==> old(self).at() < final(self).at() && ploop_p(old(self).text(), old(self).at() as int, old(self).depth() as int, expr_views(old(h).expressions@), subject.0 as nat)
                == ploop_p(old(self).text(), final(self).at() as int, old(self).depth() as int, expr_views(final(h).expressions@), x.0 as nat),
            r is Err ==> old(self).at() <= final(self).at() && parsed(old(self).text(), r, final(self).at(), expr_views(final(h).expressions@), ploop_p(old(self).text(), old(self).at() as int, old(self).depth() as int, expr_views(old(h).expressions@), subject.0 as nat)),
        decreases MAX_LEVEL - old(self).depth(), old(self).text().len() - old(self).at(), 23int,
    {
        let ghost text = self.text();
        let ghost w = self.at() as int;
        let ghost d = self.depth() as int;
        proof {
            unfold_ploop_p(text, w, d, expr_views(h.expressions@), subject.0 as nat);
            self.lemma_bounds();
            lemma_short_literals();
            lemma_string_scan(text, w, "[".spec_bytes());
        }
        let position = self.position();
        match self.expect("[".as_bytes()) {
            Ok(()) => {},
            Err(e) => return Err(e),
        }
        match self.skip_ws() {
            Ok(()) => {},
            Err(e) => return Err(e),
        }
        proof {
            self.lemma_bounds();
        }
        let index = match self.consume_expression(h) {
            Ok(id) => id,
            Err(e) => return Err(e),
        };
        match self.skip_ws() {
            Ok(()) => {},
            Err(e) => return Err(e),
        }
        proof {
            self.lemma_bounds();
        }
        let result;
        if self.has_string("..".as_bytes()) || self.has_string(":".as_bytes()) {
            let slice_position = self.position();
            if self.has_string("..".as_bytes()) {
                proof {
                    lemma_string_scan(text, self.at() as int, "..".spec_bytes());
                }
                match self.expect("..".as_bytes()) {
                    Ok(()) => {},
                    Err(e) => return Err(e),
                }
            } else {
                proof {
                    lemma_string_scan(text, self.at() as int, ":".spec_bytes());
                }
                match self.expect(":".as_bytes()) {
                    Ok(()) => {},
                    Err(e) => return Err(e),
                }
            }
            match self.skip_ws() {
                Ok(()) => {},
                Err(e) => return Err(e),
            }
            proof {
                self.lemma_bounds();
            }
            let to_index = match self.consume_expression(h) {
                Ok(id) => id,
                Err(e) => return Err(e),
            };
            match self.skip_ws() {
                Ok(()) => {},
                Err(e) => return Err(e),
            }
            result = allocate_expression(h, Expression::Slicing(SlicingExpression { position: slice_position, subject, from_index: index, to_index }));
        } else {
            result = allocate_expression(h, Expression::Indexing(IndexingExpression { position, subject, index }));
        }
        match self.expect("]".as_bytes()) {
            Ok(()) => {},
            Err(e) => return Err(e),
        }
        match self.skip_ws() {
            Ok(()) => {},
            Err(e) => return Err(e),
        }
        proof {
            self.lemma_bounds();
        }
        Ok(result)
    }

    /// Reads a primary expression: a parenthesised expression, an array, a constant, a
    /// call, or a variable.
    pub fn consume_primary_expression(&mut self, h: &mut Heap) -> (r: Result<ExpressionId, ParseError>)
        requires
            old(self).wf(),
            old(self).depth() <= MAX_LEVEL,
        ensures
            parse_post(*old(self), *final(self), *old(h), *final(h), r, primary_p(old(self).text(), old(self).at() as int, old(self).depth() as int, expr_views(old(h).expressions@))),
        decreases MAX_LEVEL - old(self).depth(), old(self).text().len() - old(self).at(), 23int,
    {
        proof {
            unfold_primary_p(self.text(), self.at() as int, self.depth() as int, expr_views(h.expressions@));
            self.lemma_bounds();
        }
        if self.has_string("(".as_bytes()) {
            return self.consume_paren_expression(h);
        }
        if self.has_string("{".as_bytes()) {
            return self.consume_array_expression(h);
        }
        if self.has_constant() || self.has_keyword("null".as_bytes()) || self.has_keyword("true".as_bytes())
            || self.has_keyword("false".as_bytes()) {
            return self.consume_constant_expression(h);
        }
        if self.has_call_expression() {
            return self.consume_call_expression(h);
        }
        self.consume_variable_expression(h)
    }

    /// Reads `( e )`.
    pub fn consume_paren_expression(&mut self, h: &mut Heap) -> (r: Result<ExpressionId, ParseError>)
        requires
            old(self).wf(),
            old(self).depth() <= MAX_LEVEL,
        ensures
            parse_post(*old(self), *final(self), *old(h), *final(h), r, paren_p(old(self).text(), old(self).at() as int, old(self).depth() as int, expr_views(old(h).expressions@))),
        decreases MAX_LEVEL - old(self).depth(), old(self).text().len() - old(self).at(), 22int,
    {
        proof {
            unfold_paren_p(self.text(), self.at() as int, self.depth() as int, expr_views(h.expressions@));
            self.lemma_bounds();
            lemma_short_literals();
        }
        match self.expect("(".as_bytes()) {
            Ok(()) => {},
            Err(e) => return Err(e),
        }
        match self.skip_ws() {
            Ok(()) => {},
            Err(e) => return Err(e),
        }
        proof {
            self.lemma_bounds();
        }
        let result = match self.consume_expression(h) {
            Ok(id) => id,
            Err(e) => return Err(e),
        };
        match self.skip_ws() {
            Ok(()) => {},
            Err(e) => return Err(e),
        }
        match self.expect(")".as_bytes()) {
            Ok(()) => {},
            Err(e) => return Err(e),
        }
        Ok(result)
    }

    /// Reads `{ e, ... }`.
    fn consume_array_expression(&mut self, h: &mut Heap) -> (r: Result<ExpressionId, ParseError>)
        requires
            old(self).wf(),
            old(self).depth() <= MAX_LEVEL,
        ensures
            parse_post(*old(self), *final(self), *old(h), *final(h), r, array_p(old(self).text(), old(self).at() as int, old(self).depth() as int, expr_views(old(h).expressions@))),
        decreases MAX_LEVEL - old(self).depth(), old(self).text().len() - old(self).at(), 22int,
    {
        proof {
            unfold_array_p(self.text(), self.at() as int, self.depth() as int, expr_views(h.expressions@));
            self.lemma_bounds();
            lemma_short_literals();
        }
        let position = self.position();
        match self.expect("{".as_bytes()) {
            Ok(()) => {},
            Err(e) => return Err(e),
        }
        match self.skip_ws() {
            Ok(()) => {},
            Err(e) => return Err(e),
        }
        proof {
            self.lemma_bounds();
        }
        let elements = match self.consume_expression_list(h, "}".as_bytes()) {
            Ok(v) => v,
            Err(e) => return Err(e),
        };
        Ok(allocate_expression(h, Expression::Array(ArrayExpression { position, elements })))
    }

    /// Reads the function name of a call.
    fn consume_method(&mut self) -> (r: Result<Method, ParseError>)
        requires
            old(self).wf(),
        ensures
            final(self).wf(),
            final(self).same_text(old(self)),
            old(self).at() <= final(self).at(),
            reports(old(self).text(), r, final(self).at(), method_scan(old(self).text(), old(self).at() as int).0),
            r matches Ok(m) ==> m@ == method_scan(old(self).text(), old(self).at() as int).1,
    {
        if self.has_keyword("get".as_bytes()) {
            match self.expect_keyword("get".as_bytes()) {
                Ok(()) => Ok(Method::Get),
                Err(e) => Err(e),
            }
        } else if self.has_keyword("fires".as_bytes()) {
            match self.expect_keyword("fires".as_bytes()) {
                Ok(()) => Ok(Method::Fires),
                Err(e) => Err(e),
            }
        } else if self.has_keyword("create".as_bytes()) {
            match self.expect_keyword("create".as_bytes()) {
                Ok(()) => Ok(Method::Create),
                Err(e) => Err(e),
            }
        } else {
            match self.expect_ident() {
                Ok(v) => Ok(Method::Symbolic(v)),
                Err(e) => Err(e),
            }
        }
    }

    /// Reads a call: a builtin function name or an identifier, then arguments in
    /// parentheses.
    pub fn consume_call_expression(&mut self, h: &mut Heap) -> (r: Result<ExpressionId, ParseError>)
        requires
            old(self).wf(),
            old(self).depth() <= MAX_LEVEL,
        ensures
            parse_post(*old(self), *final(self), *old(h), *final(h), r, call_p(old(self).text(), old(self).at() as int, old(self).depth() as int, expr_views(old(h).expressions@))),
        decreases MAX_LEVEL - old(self).depth(), old(self).text().len() - old(self).at(), 22int,
    {
        proof {
            unfold_call_p(self.text(), self.at() as int, self.depth() as int, expr_views(h.expressions@));
            self.lemma_bounds();
            lemma_short_literals();
        }
        let position = self.position();
        let method = match self.consume_method() {
            Ok(m) => m,
            Err(e) => return Err(e),
        };
        match self.skip_ws() {
            Ok(()) => {},
            Err(e) => return Err(e),
        }
        match self.expect("(".as_bytes()) {
            Ok(()) => {},
            Err(e) => return Err(e),
        }
        match self.skip_ws() {
            Ok(()) => {},
            Err(e) => return Err(e),
        }
        proof {
            self.lemma_bounds();
        }
        let arguments = match self.consume_expression_list(h, ")".as_bytes()) {
            Ok(v) => v,
            Err(e) => return Err(e),
        };
        Ok(allocate_expression(h, Expression::Call(CallExpression { position, method, arguments, declaration: None })))
    }

    /// Reads expressions separated by commas up to `close`, and `close` itself.
    fn consume_expression_list(&mut self, h: &mut Heap, close: &[u8]) -> (r: Result<Vec<ExpressionId>, ParseError>)
        requires
            old(self).wf(),
            old(self).depth() <= MAX_LEVEL,
        ensures
            final(self).wf(),
            final(self).same_text(old(self)),
            old(self).at() <= final(self).at(),
            rest_kept(*old(h), *final(h)),
            listed(old(self).text(), r, final(self).at(), expr_views(final(h).expressions@), items_p(old(self).text(), old(self).at() as int, old(self).depth() as int, expr_views(old(h).expressions@), close@)),
        decreases MAX_LEVEL - old(self).depth(), old(self).text().len() - old(self).at(), 101int,
    {
        proof {
            unfold_items_p(self.text(), self.at() as int, self.depth() as int, expr_views(h.expressions@), close@);
            self.lemma_bounds();
            lemma_short_literals();
        }
        let ghost text = self.text();
        let ghost w1 = self.at() as int;
        let ghost d = self.depth() as int;
        let ghost a0 = expr_views(h.expressions@);
        let mut elements: Vec<ExpressionId> = Vec::new();
        if !self.has_string(close) {
            loop
                invariant_except_break
                    list_p(text, w1, d, a0, Seq::empty(), close@) == list_p(text, self.at() as int, d, expr_views(h.expressions@), elements@, close@),
                invariant
                    self.wf(),
                    self.same_text(old(self)),
                    text == old(self).text(),
                    text == self.text(),
                    w1 == old(self).at(),
                    d == old(self).depth(),
                    d <= MAX_LEVEL,
                    w1 <= self.at() <= text.len(),
                    rest_kept(*old(h), *h),
                    a0 == expr_views(old(h).expressions@),
                    ",".spec_bytes().len() == 1,
                    !string_at(text, w1, close@),
                ensures
                    list_p(text, w1, d, a0, Seq::empty(), close@) == ListParse::Done(expr_views(h.expressions@), elements@, self.at()),
                decreases text.len() - self.at(),
            {
                let ghost at = self.at() as int;
                proof {
                    unfold_list_p(text, at, d, expr_views(h.expressions@), elements@, close@);
                    unfold_items_p(text, w1, d, a0, close@);
                }
                if self.peek().is_none() {
                    break;
                }
                let id = match self.consume_expression(h) {
                    Ok(id) => id,
                    Err(e) => return Err(e),
                };
                elements.push(id);
                match self.skip_ws() {
                    Ok(()) => {},
                    Err(e) => return Err(e),
                }
                proof {
                    self.lemma_bounds();
                }
                if self.has_string(close) {
                    break;
                }
                match self.expect(",".as_bytes()) {
                    Ok(()) => {},
                    Err(e) => return Err(e),
                }
                match self.skip_ws() {
                    Ok(()) => {},
                    Err(e) => return Err(e),
                }
                proof {
                    self.lemma_bounds();
                }
            }
        }
        match self.expect(close) {
            Ok(()) => {},
            Err(e) => return Err(e),
        }
        Ok(elements)
    }
}

} // verus!
