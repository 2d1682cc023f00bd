use vstd::prelude::*;
use vstd::utf8::encode_utf8;
use vstd::string::StringSliceAdditionalSpecFns;
use crate::ast::{
    PrimitiveView, StmtView, TypeView, VarView, expr_views, stmt_views, var_views, AssertStatement, BreakStatement, ChannelStatement,
    ContinueStatement, ExpressionStatement, GotoStatement, Heap, LocalStatement, MemoryStatement,
    NewStatement, PrimitiveType, PutStatement, ReturnStatement, SkipStatement, Statement,
    StatementId, Type, Variable, VariableId, ExpressionId, BlockStatement, IfStatement,
    LabeledStatement, SynchronousStatement, WhileStatement,
};
use crate::grammar::{lemma_ws_scan_mono, pos_at, ws};
use crate::inputsource::{position_at, InputPosition, ParseError};
use crate::lexer::{reports, string_at, string_scan, type_scan, whitespace_scan, Lexer, Scan, MAX_LEVEL};
use crate::parser::{lemma_short_literals, parse_post};
use crate::stmt_grammar::{
    exprstmt_p, goto_p, skip_p, unfold_exprstmt_p, unfold_goto_p, unfold_skip_p, wsx, Arenas,
    SParse, type_at, channel_p, memory_p, local_p, jump_p, result_p, new_p, put_p, put_rest_p,
    param_p, unfold_channel_p, channel_to_p, unfold_channel_to_p, name_at, var_added, stmt_added, unfold_memory_p, unfold_local_p, unfold_jump_p, unfold_result_p,
    unfold_new_p, unfold_put_p, unfold_put_rest_p, unfold_param_p, jump_end, params_p, plist_p, unfold_params_p, unfold_plist_p, VarsParse, stmt_p, impl_p, block_p, block_rest_p, locals_p, body_p, labeled_p, if_p, while_p, sync_p, sync_body_p, unfold_stmt_p, unfold_impl_p, unfold_block_p, unfold_block_rest_p, unfold_locals_p, unfold_body_p, unfold_labeled_p, unfold_if_p, unfold_while_p, unfold_sync_p, unfold_sync_body_p, StmtsParse,
};

verus! {

/// The arenas of `h`.
pub open spec fn arenas_of(h: Heap) -> Arenas {
    Arenas { exprs: expr_views(h.expressions@), vars: var_views(h.variables@), stmts: stmt_views(h.statements@) }
}

/// `r`, the read offset `cursor` and the arenas `ar` are what the parse `p` describes.
pub open spec fn sparsed<T>(text: Seq<u8>, r: Result<T, ParseError>, id: Option<nat>, cursor: nat, ar: Arenas, p: SParse) -> bool {
    match p {
        SParse::Done(a, i, e) => r is Ok && id == Some(i) && cursor == e && ar == a,
        SParse::Failed(a, pos, m) => r matches Err(err) && cursor == pos && ar == a && err.spec_position()
            == position_at(text, pos) && encode_utf8(err.spec_message()) == m,
    }
}

/// The index a statement parse returned.
pub open spec fn sid(r: Result<StatementId, ParseError>) -> Option<nat> {
    match r {
        Ok(x) => Some(x.0 as nat),
        Err(_) => None,
    }
}

/// The index a parameter parse returned.
pub open spec fn vid(r: Result<VariableId, ParseError>) -> Option<nat> {
    match r {
        Ok(x) => Some(x.0 as nat),
        Err(_) => None,
    }
}

/// `r`, the read offset `cursor` and the arenas `ar` are what the parse `p` of a parameter
/// list describes.
pub open spec fn vlisted(text: Seq<u8>, r: Result<Vec<VariableId>, ParseError>, cursor: nat, ar: Arenas, p: VarsParse) -> bool {
    match p {
        VarsParse::Done(a, ps, e) => r matches Ok(v) && v@ == ps && cursor == e && ar == a,
        VarsParse::Failed(a, pos, m) => r matches Err(err) && cursor == pos && ar == a && err.spec_position()
            == position_at(text, pos) && encode_utf8(err.spec_message()) == m,
    }
}

/// What every statement parsing method ensures: the lexer reads the same text, no further
/// back, and past something where it succeeds; the definitions of the heap stay; and the
/// outcome is the parse `p`.
pub open spec fn stmt_post(l0: Lexer, l1: Lexer, h0: Heap, h1: Heap, r: Result<StatementId, ParseError>, p: SParse) -> bool {
    &&& l1.wf()
    &&& l1.same_text(&l0)
    &&& l0.at() <= l1.at()
    &&& (r is Ok ==> l0.at() < l1.at())
    &&& h1.definitions == h0.definitions
    &&& sparsed(l0.text(), r, sid(r), l1.at(), arenas_of(h1), p)
}

/// Adds the statement `s` to `h`, giving its index.
fn allocate_statement(h: &mut Heap, s: Statement) -> (r: StatementId)
    ensures
        arenas_of(*final(h)) == (Arenas {
            exprs: arenas_of(*old(h)).exprs,
            vars: arenas_of(*old(h)).vars,
            stmts: arenas_of(*old(h)).stmts.push(s@),
        }),
        r.0 == old(h).statements@.len(),
        final(h).statements@.len() == old(h).statements@.len() + 1,
        final(h).definitions == old(h).definitions,
{
    h.statements.push(s);
    let ghost before = old(h).statements@;
    assert(stmt_views(h.statements@) =~= stmt_views(before).push(s@));
    StatementId(h.statements.len() - 1)
}

/// Adds the variable `v` to `h`, giving its index.
fn allocate_variable(h: &mut Heap, v: Variable) -> (r: VariableId)
    ensures
        arenas_of(*final(h)) == (Arenas {
            exprs: arenas_of(*old(h)).exprs,
            vars: arenas_of(*old(h)).vars.push(v@),
            stmts: arenas_of(*old(h)).stmts,
        }),
        r.0 == old(h).variables@.len(),
        final(h).variables@.len() == old(h).variables@.len() + 1,
        final(h).definitions == old(h).definitions,
{
    h.variables.push(v);
    let ghost before = old(h).variables@;
    assert(var_views(h.variables@) =~= var_views(before).push(v@));
    VariableId(h.variables.len() - 1)
}

/// Adds the two variables a channel declaration declares, `from` (an output) and `to` (an
/// input), and then the declaration itself.
fn add_channel(h: &mut Heap, position: InputPosition, from: Vec<u8>, to: Vec<u8>) -> (r: StatementId)
    ensures
        ({
            let ar = arenas_of(*old(h));
            let fv = VarView { identifier: from@, the_type: TypeView { primitive: PrimitiveView::Output, array: false } };
            let tv = VarView { identifier: to@, the_type: TypeView { primitive: PrimitiveView::Input, array: false } };
            stmt_added(
                var_added(var_added(ar, fv), tv),
                StmtView::Channel(position, VariableId(ar.vars.len() as usize), VariableId((ar.vars.len() + 1) as usize), None),
                0,
            ) == SParse::Done(arenas_of(*final(h)), r.0 as nat, 0)
        }),
        final(h).definitions == old(h).definitions,
{
    let from_variable = Variable { identifier: from, the_type: Type { primitive: PrimitiveType::Output, array: false } };
    let to_variable = Variable { identifier: to, the_type: Type { primitive: PrimitiveType::Input, array: false } };
    let ghost ar = arenas_of(*h);
    let ghost fv = VarView { identifier: from@, the_type: TypeView { primitive: PrimitiveView::Output, array: false } };
    let ghost tv = VarView { identifier: to@, the_type: TypeView { primitive: PrimitiveView::Input, array: false } };
    assert(from_variable@ == fv);
    assert(to_variable@ == tv);
    let from_id = allocate_variable(h, from_variable);
    assert(arenas_of(*h) == var_added(ar, fv));
    let to_id = allocate_variable(h, to_variable);
    assert(arenas_of(*h) == var_added(var_added(ar, fv), tv));
    assert(from_id.0 == ar.vars.len());
    assert(to_id.0 == ar.vars.len() + 1);
    let r = allocate_statement(h, Statement::Local(LocalStatement::Channel(ChannelStatement { position, from: from_id, to: to_id, next: None })));
    assert(r.0 == ar.stmts.len());
    r
}

/// The lengths of the keywords and signs that start or end statements.
pub(crate) proof fn lemma_statement_literals()
    ensures
        "channel".spec_bytes().len() == 7,
        "skip".spec_bytes().len() == 4,
        "if".spec_bytes().len() == 2,
        "else".spec_bytes().len() == 4,
        "while".spec_bytes().len() == 5,
        "break".spec_bytes().len() == 5,
        "continue".spec_bytes().len() == 8,
        "synchronous".spec_bytes().len() == 11,
        "return".spec_bytes().len() == 6,
        "assert".spec_bytes().len() == 6,
        "goto".spec_bytes().len() == 4,
        "new".spec_bytes().len() == 3,
        "put".spec_bytes().len() == 3,
        ";".spec_bytes().len() == 1,
        "=".spec_bytes().len() == 1,
        "->".spec_bytes().len() == 2,
{
    reveal_strlit("channel");
    reveal_strlit("skip");
    reveal_strlit("if");
    reveal_strlit("else");
    reveal_strlit("while");
    reveal_strlit("break");
    reveal_strlit("continue");
    reveal_strlit("synchronous");
    reveal_strlit("return");
    reveal_strlit("assert");
    reveal_strlit("goto");
    reveal_strlit("new");
    reveal_strlit("put");
    reveal_strlit(";");
    reveal_strlit("=");
    reveal_strlit("->");
    vstd::string::is_ascii_spec_bytes("channel");
    vstd::string::is_ascii_spec_bytes("skip");
    vstd::string::is_ascii_spec_bytes("if");
    vstd::string::is_ascii_spec_bytes("else");
    vstd::string::is_ascii_spec_bytes("while");
    vstd::string::is_ascii_spec_bytes("break");
    vstd::string::is_ascii_spec_bytes("continue");
    vstd::string::is_ascii_spec_bytes("synchronous");
    vstd::string::is_ascii_spec_bytes("return");
    vstd::string::is_ascii_spec_bytes("assert");
    vstd::string::is_ascii_spec_bytes("goto");
    vstd::string::is_ascii_spec_bytes("new");
    vstd::string::is_ascii_spec_bytes("put");
    vstd::string::is_ascii_spec_bytes(";");
    vstd::string::is_ascii_spec_bytes("=");
    vstd::string::is_ascii_spec_bytes("->");
}

impl Lexer {
    /// Skips blanks and comments, of which there must be some.
    fn skip_required_ws(&mut self) -> (r: Result<(), ParseError>)
        requires
            old(self).wf(),
        ensures
            final(self).wf(),
            final(self).same_text(old(self)),
            old(self).at() <= final(self).at(),
            reports(old(self).text(), r, final(self).at(), wsx(old(self).text(), old(self).at() as int)),
    {
        proof {
            lemma_ws_scan_mono(self.text(), self.at() as int);
        }
        self.consume_whitespace(true)
    }

    /// Reads a type.
    fn read_type(&mut self) -> (r: Result<Type, ParseError>)
        requires
            old(self).wf(),
        ensures
            final(self).wf(),
            final(self).same_text(old(self)),
            old(self).at() <= final(self).at(),
            reports(old(self).text(), r, final(self).at(), type_scan(old(self).text(), old(self).at() as int)),
            r matches Ok(t) ==> t@ == type_at(old(self).text(), old(self).at() as int),
    {
        proof {
            crate::parser::lemma_type_scan_forward(self.text(), self.at() as int);
        }
        self.consume_type()
    }

    /// Reads a declaration of locals: a channel or a memory declaration.
    pub fn consume_local_statement(&mut self, h: &mut Heap) -> (r: Result<StatementId, ParseError>)
        requires
            old(self).wf(),
            old(self).depth() <= MAX_LEVEL,
        ensures
            stmt_post(*old(self), *final(self), *old(h), *final(h), r, local_p(old(self).text(), old(self).at() as int, old(self).depth() as int, arenas_of(*old(h)))),
    {
        proof {
            unfold_local_p(self.text(), self.at() as int, self.depth() as int, arenas_of(*h));
        }
        if self.has_keyword("channel".as_bytes()) {
            self.consume_channel_statement(h)
        } else {
            self.consume_memory_statement(h)
        }
    }

    /// Reads `channel from -> to;`.
    pub fn consume_channel_statement(&mut self, h: &mut Heap) -> (r: Result<StatementId, ParseError>)
        requires
            old(self).wf(),
        ensures
            stmt_post(*old(self), *final(self), *old(h), *final(h), r, channel_p(old(self).text(), old(self).at() as int, arenas_of(*old(h)))),
    {
        let ghost text = self.text();
        let ghost off = self.at() as int;
        proof {
            unfold_channel_p(text, off, arenas_of(*h));
            lemma_statement_literals();
        }
        let position = self.position();
        match self.expect_keyword("channel".as_bytes()) {
            Ok(()) => {},
            Err(e) => return Err(e),
        }
        match self.skip_required_ws() {
            Ok(()) => {},
            Err(e) => return Err(e),
        }
        let ghost w1 = self.at() as int;
        let from_identifier = match self.expect_ident() {
            Ok(v) => v,
            Err(e) => return Err(e),
        };
        match self.skip_ws() {
            Ok(()) => {},
            Err(e) => return Err(e),
        }
        match self.expect("->".as_bytes()) {
            Ok(()) => {},
            Err(e) => return Err(e),
        }
        match self.skip_ws() {
            Ok(()) => {},
            Err(e) => return Err(e),
        }
        self.consume_channel_end(h, position, from_identifier)
    }

    /// Reads the rest of a channel declaration at `position` that declares
    /// `from_identifier` first, from its second name.
    fn consume_channel_end(&mut self, h: &mut Heap, position: InputPosition, from_identifier: Vec<u8>) -> (r: Result<StatementId, ParseError>)
        requires
            old(self).wf(),
        ensures
            stmt_post(*old(self), *final(self), *old(h), *final(h), r, channel_to_p(old(self).text(), position, from_identifier@, old(self).at() as int, arenas_of(*old(h)))),
    {
        proof {
            unfold_channel_to_p(self.text(), position, from_identifier@, self.at() as int, arenas_of(*h));
            lemma_statement_literals();
        }
        let to_identifier = match self.expect_ident() {
            Ok(v) => v,
            Err(e) => return Err(e),
        };
        match self.skip_ws() {
            Ok(()) => {},
            Err(e) => return Err(e),
        }
        match self.expect(";".as_bytes()) {
            Ok(()) => {},
            Err(e) => return Err(e),
        }
        Ok(add_channel(h, position, from_identifier, to_identifier))
    }

    /// Reads `type name = expression;`.
    pub fn consume_memory_statement(&mut self, h: &mut Heap) -> (r: Result<StatementId, ParseError>)
        requires
            old(self).wf(),
            old(self).depth() <= MAX_LEVEL,
        ensures
            stmt_post(*old(self), *final(self), *old(h), *final(h), r, memory_p(old(self).text(), old(self).at() as int, old(self).depth() as int, arenas_of(*old(h)))),
    {
        proof {
            unfold_memory_p(self.text(), self.at() as int, self.depth() as int, arenas_of(*h));
            lemma_statement_literals();
        }
        let position = self.position();
        let the_type = match self.read_type() {
            Ok(t) => t,
            Err(e) => return Err(e),
        };
        match self.skip_required_ws() {
            Ok(()) => {},
            Err(e) => return Err(e),
        }
        let identifier = match self.expect_ident() {
            Ok(v) => v,
            Err(e) => return Err(e),
        };
        match self.skip_ws() {
            Ok(()) => {},
            Err(e) => return Err(e),
        }
        match self.expect("=".as_bytes()) {
            Ok(()) => {},
            Err(e) => return Err(e),
        }
        match self.skip_ws() {
            Ok(()) => {},
            Err(e) => return Err(e),
        }
        proof {
            self.lemma_bounds();
        }
        let initial = match self.consume_expression(h) {
            Ok(id) => id,
            Err(e) => return Err(e),
        };
        let variable = allocate_variable(h, Variable { identifier, the_type });
        match self.skip_ws() {
            Ok(()) => {},
            Err(e) => return Err(e),
        }
        match self.expect(";".as_bytes()) {
            Ok(()) => {},
            Err(e) => return Err(e),
        }
        Ok(allocate_statement(h, Statement::Local(LocalStatement::Memory(MemoryStatement { position, variable, initial, next: None }))))
    }

    /// Reads `break label;` (`brk`) or `continue label;`, the label optional.
    fn consume_jump_statement(&mut self, h: &mut Heap, brk: bool) -> (r: Result<StatementId, ParseError>)
        requires
            old(self).wf(),
        ensures
            stmt_post(*old(self), *final(self), *old(h), *final(h), r, jump_p(old(self).text(), old(self).at() as int, arenas_of(*old(h)), brk)),
    {
        let ghost text = self.text();
        let ghost off = self.at() as int;
        proof {
            unfold_jump_p(text, off, arenas_of(*h), brk);
            lemma_statement_literals();
        }
        let position = self.position();
        let keyword: &[u8] = if brk { "break".as_bytes() } else { "continue".as_bytes() };
        match self.expect_keyword(keyword) {
            Ok(()) => {},
            Err(e) => return Err(e),
        }
        match self.skip_ws() {
            Ok(()) => {},
            Err(e) => return Err(e),
        }
        let label;
        if self.has_identifier() {
            match self.expect_ident() {
                Ok(v) => {
                    label = Some(v);
                },
                Err(e) => return Err(e),
            }
            match self.skip_ws() {
                Ok(()) => {},
                Err(e) => return Err(e),
            }
        } else {
            label = None;
        }
        proof {
            self.lemma_bounds();
        }
        match self.expect(";".as_bytes()) {
            Ok(()) => {},
            Err(e) => return Err(e),
        }
        let statement = if brk {
            Statement::Break(BreakStatement { position, label, target: None })
        } else {
            Statement::Continue(ContinueStatement { position, label, target: None })
        };
        Ok(allocate_statement(h, statement))
    }

    /// Reads `break;` or `break label;`.
    pub fn consume_break_statement(&mut self, h: &mut Heap) -> (r: Result<StatementId, ParseError>)
        requires
            old(self).wf(),
        ensures
            stmt_post(*old(self), *final(self), *old(h), *final(h), r, jump_p(old(self).text(), old(self).at() as int, arenas_of(*old(h)), true)),
    {
        self.consume_jump_statement(h, true)
    }

    /// Reads `continue;` or `continue label;`.
    pub fn consume_continue_statement(&mut self, h: &mut Heap) -> (r: Result<StatementId, ParseError>)
        requires
            old(self).wf(),
        ensures
            stmt_post(*old(self), *final(self), *old(h), *final(h), r, jump_p(old(self).text(), old(self).at() as int, arenas_of(*old(h)), false)),
    {
        self.consume_jump_statement(h, false)
    }

    /// Reads `return e;` (`ret`) or `assert e;`.
    fn consume_result_statement(&mut self, h: &mut Heap, ret: bool) -> (r: Result<StatementId, ParseError>)
        requires
            old(self).wf(),
            old(self).depth() <= MAX_LEVEL,
        ensures
            stmt_post(*old(self), *final(self), *old(h), *final(h), r, result_p(old(self).text(), old(self).at() as int, old(self).depth() as int, arenas_of(*old(h)), ret)),
    {
        proof {
            unfold_result_p(self.text(), self.at() as int, self.depth() as int, arenas_of(*h), ret);
            lemma_statement_literals();
        }
        let position = self.position();
        let keyword: &[u8] = if ret { "return".as_bytes() } else { "assert".as_bytes() };
        match self.expect_keyword(keyword) {
            Ok(()) => {},
            Err(e) => return Err(e),
        }
        match self.skip_ws() {
            Ok(()) => {},
            Err(e) => return Err(e),
        }
        proof {
            self.lemma_bounds();
        }
        let expression;
        if self.has_string("(".as_bytes()) {
            match self.consume_paren_expression(h) {
                Ok(id) => {
                    expression = id;
                },
                Err(e) => return Err(e),
            }
        } else {
            match self.consume_expression(h) {
                Ok(id) => {
                    expression = id;
                },
                Err(e) => return Err(e),
            }
        }
        match self.skip_ws() {
            Ok(()) => {},
            Err(e) => return Err(e),
        }
        match self.expect(";".as_bytes()) {
            Ok(()) => {},
            Err(e) => return Err(e),
        }
        let statement = if ret {
            Statement::Return(ReturnStatement { position, expression })
        } else {
            Statement::Assert(AssertStatement { position, expression, next: None })
        };
        Ok(allocate_statement(h, statement))
    }

    /// Reads `return e;`.
    pub fn consume_return_statement(&mut self, h: &mut Heap) -> (r: Result<StatementId, ParseError>)
        requires
            old(self).wf(),
            old(self).depth() <= MAX_LEVEL,
        ensures
            stmt_post(*old(self), *final(self), *old(h), *final(h), r, result_p(old(self).text(), old(self).at() as int, old(self).depth() as int, arenas_of(*old(h)), true)),
    {
        self.consume_result_statement(h, true)
    }

    /// Reads `assert e;`.
    pub fn consume_assert_statement(&mut self, h: &mut Heap) -> (r: Result<StatementId, ParseError>)
        requires
            old(self).wf(),
            old(self).depth() <= MAX_LEVEL,
        ensures
            stmt_post(*old(self), *final(self), *old(h), *final(h), r, result_p(old(self).text(), old(self).at() as int, old(self).depth() as int, arenas_of(*old(h)), false)),
    {
        self.consume_result_statement(h, false)
    }

    /// Reads `new call;`.
    pub fn consume_new_statement(&mut self, h: &mut Heap) -> (r: Result<StatementId, ParseError>)
        requires
            old(self).wf(),
            old(self).depth() <= MAX_LEVEL,
        ensures
            stmt_post(*old(self), *final(self), *old(h), *final(h), r, new_p(old(self).text(), old(self).at() as int, old(self).depth() as int, arenas_of(*old(h)))),
    {
        proof {
            unfold_new_p(self.text(), self.at() as int, self.depth() as int, arenas_of(*h));
            lemma_statement_literals();
        }
        let position = self.position();
        match self.expect_keyword("new".as_bytes()) {
            Ok(()) => {},
            Err(e) => return Err(e),
        }
        match self.skip_ws() {
            Ok(()) => {},
            Err(e) => return Err(e),
        }
        proof {
            self.lemma_bounds();
        }
        let expression = match self.consume_call_expression(h) {
            Ok(id) => id,
            Err(e) => return Err(e),
        };
        match self.skip_ws() {
            Ok(()) => {},
            Err(e) => return Err(e),
        }
        match self.expect(";".as_bytes()) {
            Ok(()) => {},
            Err(e) => return Err(e),
        }
        Ok(allocate_statement(h, Statement::New(NewStatement { position, expression, next: None })))
    }

    /// Reads `put(port, message);`.
    pub fn consume_put_statement(&mut self, h: &mut Heap) -> (r: Result<StatementId, ParseError>)
        requires
            old(self).wf(),
            old(self).depth() <= MAX_LEVEL,
        ensures
            stmt_post(*old(self), *final(self), *old(h), *final(h), r, put_p(old(self).text(), old(self).at() as int, old(self).depth() as int, arenas_of(*old(h)))),
    {
        let ghost off = self.at() as int;
        proof {
            unfold_put_p(self.text(), self.at() as int, self.depth() as int, arenas_of(*h));
            lemma_statement_literals();
            lemma_short_literals();
        }
        let position = self.position();
        match self.expect_keyword("put".as_bytes()) {
            Ok(()) => {},
            Err(e) => return Err(e),
        }
        match self.skip_ws() {
            Ok(()) => {},
            Err(e) => return Err(e),
        }
        match self.expect("(".as_bytes()) {
            Ok(()) => {},
            Err(e) => return Err(e),
        }
        proof {
            self.lemma_bounds();
        }
        let port = match self.consume_expression(h) {
            Ok(id) => id,
            Err(e) => return Err(e),
        };
        self.consume_put_end(h, position, port, Ghost(off))
    }

    /// Reads the rest of a `put` at `off`, after its port expression `port`.
    fn consume_put_end(&mut self, h: &mut Heap, position: InputPosition, port: ExpressionId, Ghost(off): Ghost<int>) -> (r: Result<StatementId, ParseError>)
        requires
            old(self).wf(),
            old(self).depth() <= MAX_LEVEL,
            0 <= off < old(self).at(),
            position == pos_at(old(self).text(), off),
        ensures
            stmt_post(*old(self), *final(self), *old(h), *final(h), r, put_rest_p(old(self).text(), off, old(self).at() as int, old(self).depth() as int, arenas_of(*old(h)), port.0 as nat)),
    {
        proof {
            unfold_put_rest_p(self.text(), off, self.at() as int, self.depth() as int, arenas_of(*h), port.0 as nat);
            lemma_statement_literals();
            lemma_short_literals();
        }
        match self.skip_ws() {
            Ok(()) => {},
            Err(e) => return Err(e),
        }
        match self.expect(",".as_bytes()) {
            Ok(()) => {},
            Err(e) => return Err(e),
        }
        match self.skip_ws() {
            Ok(()) => {},
            Err(e) => return Err(e),
        }
        proof {
            self.lemma_bounds();
        }
        let message = match self.consume_expression(h) {
            Ok(id) => id,
            Err(e) => return Err(e),
        };
        match self.skip_ws() {
            Ok(()) => {},
            Err(e) => return Err(e),
        }
        match self.expect(")".as_bytes()) {
            Ok(()) => {},
            Err(e) => return Err(e),
        }
        match self.skip_ws() {
            Ok(()) => {},
            Err(e) => return Err(e),
        }
        match self.expect(";".as_bytes()) {
            Ok(()) => {},
            Err(e) => return Err(e),
        }
        Ok(allocate_statement(h, Statement::Put(PutStatement { position, port, message, next: None })))
    }

    /// Reads a parameter: a type, blanks, and a name.
    pub fn consume_parameter(&mut self, h: &mut Heap) -> (r: Result<VariableId, ParseError>)
        requires
            old(self).wf(),
        ensures
            final(self).wf(),
            final(self).same_text(old(self)),
            old(self).at() <= final(self).at(),
            final(h).definitions == old(h).definitions,
            sparsed(old(self).text(), r, vid(r), final(self).at(), arenas_of(*final(h)), param_p(old(self).text(), old(self).at() as int, arenas_of(*old(h)))),
    {
        proof {
            unfold_param_p(self.text(), self.at() as int, arenas_of(*h));
        }
        let the_type = match self.read_type() {
            Ok(t) => t,
            Err(e) => return Err(e),
        };
        match self.skip_required_ws() {
            Ok(()) => {},
            Err(e) => return Err(e),
        }
        let identifier = match self.expect_ident() {
            Ok(v) => v,
            Err(e) => return Err(e),
        };
        Ok(allocate_variable(h, Variable { identifier, the_type }))
    }

    /// Reads `( parameters )`, the parameters separated by commas.
    pub fn consume_parameters(&mut self, h: &mut Heap) -> (r: Result<Vec<VariableId>, ParseError>)
        requires
            old(self).wf(),
        ensures
            final(self).wf(),
            final(self).same_text(old(self)),
            old(self).at() <= final(self).at(),
            final(h).definitions == old(h).definitions,
            vlisted(old(self).text(), r, final(self).at(), arenas_of(*final(h)), params_p(old(self).text(), old(self).at() as int, arenas_of(*old(h)))),
    {
        let ghost text = self.text();
        let ghost off = self.at() as int;
        let ghost ar0 = arenas_of(*h);
        proof {
            unfold_params_p(text, off, ar0);
            lemma_short_literals();
            self.lemma_bounds();
        }
        match self.expect("(".as_bytes()) {
            Ok(()) => {},
            Err(e) => return Err(e),
        }
        match self.skip_ws() {
            Ok(()) => {},
            Err(e) => return Err(e),
        }
        proof {
            self.lemma_bounds();
        }
        let ghost w1 = self.at() as int;
        let mut params: Vec<VariableId> = Vec::new();
        if !self.has_string(")".as_bytes()) {
            loop
                invariant_except_break
                    plist_p(text, w1, ar0, Seq::empty()) == plist_p(text, self.at() as int, arenas_of(*h), params@),
                invariant
                    self.wf(),
                    self.same_text(old(self)),
                    text == old(self).text(),
                    text == self.text(),
                    off == old(self).at(),
                    off < w1 <= self.at() <= text.len(),
                    h.definitions == old(h).definitions,
                    ar0 == arenas_of(*old(h)),
                    ",".spec_bytes().len() == 1,
                    ws(text, off + 1) == Scan::Done(w1 as nat),
                    string_scan(text, off, "(".spec_bytes()) == Scan::Done((off + 1) as nat),
                    !string_at(text, w1, ")".spec_bytes()),
                ensures
                    plist_p(text, w1, ar0, Seq::empty()) == VarsParse::Done(arenas_of(*h), params@, self.at()),
                decreases text.len() - self.at(),
            {
                let ghost at = self.at() as int;
                proof {
                    unfold_plist_p(text, at, arenas_of(*h), params@);
                    unfold_params_p(text, off, ar0);
                }
                if self.peek().is_none() {
                    break;
                }
                let param = match self.consume_parameter(h) {
                    Ok(id) => id,
                    Err(e) => return Err(e),
                };
                params.push(param);
                match self.skip_ws() {
                    Ok(()) => {},
                    Err(e) => return Err(e),
                }
                proof {
                    self.lemma_bounds();
                }
                if self.has_string(")".as_bytes()) {
                    break;
                }
                match self.expect(",".as_bytes()) {
                    Ok(()) => {},
                    Err(e) => return Err(e),
                }
                match self.skip_ws() {
                    Ok(()) => {},
                    Err(e) => return Err(e),
                }
                proof {
                    self.lemma_bounds();
                }
            }
        }
        match self.expect(")".as_bytes()) {
            Ok(()) => {},
            Err(e) => return Err(e),
        }
        Ok(params)
    }

    /// Reads a statement, one nesting level deeper; fails where the nesting is too deep.
    pub fn consume_statement(&mut self, h: &mut Heap) -> (r: Result<StatementId, ParseError>)
        requires
            old(self).wf(),
            old(self).depth() <= MAX_LEVEL,
        ensures
            stmt_post(*old(self), *final(self), *old(h), *final(h), r, stmt_p(old(self).text(), old(self).at() as int, old(self).depth() as int, arenas_of(*old(h)))),
        decreases MAX_LEVEL - old(self).depth(), old(self).text().len() - old(self).at(), 0int,
    {
        proof {
            unfold_stmt_p(self.text(), self.at() as int, self.depth() as int, arenas_of(*h));
            self.lemma_bounds();
        }
        if self.level() >= MAX_LEVEL {
            let message = "Too deeply nested statement".to_owned();
            return Err(self.error_here(message));
        }
        self.descend();
        let result = self.consume_statement_impl(h);
        self.ascend();
        result
    }

    /// Reads a statement, chosen by what starts it.
    fn consume_statement_impl(&mut self, h: &mut Heap) -> (r: Result<StatementId, ParseError>)
        requires
            old(self).wf(),
            old(self).depth() <= MAX_LEVEL,
        ensures
            stmt_post(*old(self), *final(self), *old(h), *final(h), r, impl_p(old(self).text(), old(self).at() as int, old(self).depth() as int, arenas_of(*old(h)))),
        decreases MAX_LEVEL - old(self).depth(), old(self).text().len() - old(self).at(), 10int,
    {
        proof {
            unfold_impl_p(self.text(), self.at() as int, self.depth() as int, arenas_of(*h));
            self.lemma_bounds();
        }
        if self.has_string("{".as_bytes()) {
            self.consume_block_statement(h)
        } else if self.has_keyword("skip".as_bytes()) {
            self.consume_skip_statement(h)
        } else if self.has_keyword("if".as_bytes()) {
            self.consume_if_statement(h)
        } else if self.has_keyword("while".as_bytes()) {
            self.consume_while_statement(h)
        } else if self.has_keyword("break".as_bytes()) {
            self.consume_break_statement(h)
        } else if self.has_keyword("continue".as_bytes()) {
            self.consume_continue_statement(h)
        } else if self.has_keyword("synchronous".as_bytes()) {
            self.consume_synchronous_statement(h)
        } else if self.has_keyword("return".as_bytes()) {
            self.consume_return_statement(h)
        } else if self.has_keyword("assert".as_bytes()) {
            self.consume_assert_statement(h)
        } else if self.has_keyword("goto".as_bytes()) {
            self.consume_goto_statement(h)
        } else if self.has_keyword("new".as_bytes()) {
            self.consume_new_statement(h)
        } else if self.has_keyword("put".as_bytes()) {
            self.consume_put_statement(h)
        } else if self.has_label() {
            self.consume_labeled_statement(h)
        } else {
            self.consume_expression_statement(h)
        }
    }

    /// Reads `label: statement`.
    pub fn consume_labeled_statement(&mut self, h: &mut Heap) -> (r: Result<StatementId, ParseError>)
        requires
            old(self).wf(),
            old(self).depth() <= MAX_LEVEL,
        ensures
            stmt_post(*old(self), *final(self), *old(h), *final(h), r, labeled_p(old(self).text(), old(self).at() as int, old(self).depth() as int, arenas_of(*old(h)))),
        decreases MAX_LEVEL - old(self).depth(), old(self).text().len() - old(self).at(), 9int,
    {
        proof {
            unfold_labeled_p(self.text(), self.at() as int, self.depth() as int, arenas_of(*h));
            lemma_short_literals();
            self.lemma_bounds();
        }
        let position = self.position();
        let label = match self.expect_ident() {
            Ok(v) => v,
            Err(e) => return Err(e),
        };
        match self.skip_ws() {
            Ok(()) => {},
            Err(e) => return Err(e),
        }
        match self.expect(":".as_bytes()) {
            Ok(()) => {},
            Err(e) => return Err(e),
        }
        match self.skip_ws() {
            Ok(()) => {},
            Err(e) => return Err(e),
        }
        proof {
            self.lemma_bounds();
        }
        let body = match self.consume_statement(h) {
            Ok(id) => id,
            Err(e) => return Err(e),
        };
        Ok(allocate_statement(h, Statement::Labeled(LabeledStatement { position, label, body })))
    }

    /// Reads `while (test) statement`.
    pub fn consume_while_statement(&mut self, h: &mut Heap) -> (r: Result<StatementId, ParseError>)
        requires
            old(self).wf(),
            old(self).depth() <= MAX_LEVEL,
        ensures
            stmt_post(*old(self), *final(self), *old(h), *final(h), r, while_p(old(self).text(), old(self).at() as int, old(self).depth() as int, arenas_of(*old(h)))),
        decreases MAX_LEVEL - old(self).depth(), old(self).text().len() - old(self).at(), 9int,
    {
        proof {
            unfold_while_p(self.text(), self.at() as int, self.depth() as int, arenas_of(*h));
            lemma_statement_literals();
            self.lemma_bounds();
        }
        let position = self.position();
        match self.expect_keyword("while".as_bytes()) {
            Ok(()) => {},
            Err(e) => return Err(e),
        }
        match self.skip_ws() {
            Ok(()) => {},
            Err(e) => return Err(e),
        }
        proof {
            self.lemma_bounds();
        }
        let test = match self.consume_paren_expression(h) {
            Ok(id) => id,
            Err(e) => return Err(e),
        };
        match self.skip_ws() {
            Ok(()) => {},
            Err(e) => return Err(e),
        }
        proof {
            self.lemma_bounds();
        }
        let body = match self.consume_statement(h) {
            Ok(id) => id,
            Err(e) => return Err(e),
        };
        Ok(allocate_statement(h, Statement::While(WhileStatement { position, test, body, next: None })))
    }

    /// Reads `if (test) statement`, then `else statement` if it follows; without one, the
    /// false branch is a `skip`.
    pub fn consume_if_statement(&mut self, h: &mut Heap) -> (r: Result<StatementId, ParseError>)
        requires
            old(self).wf(),
            old(self).depth() <= MAX_LEVEL,
        ensures
            stmt_post(*old(self), *final(self), *old(h), *final(h), r, if_p(old(self).text(), old(self).at() as int, old(self).depth() as int, arenas_of(*old(h)))),
        decreases MAX_LEVEL - old(self).depth(), old(self).text().len() - old(self).at(), 9int,
    {
        proof {
            unfold_if_p(self.text(), self.at() as int, self.depth() as int, arenas_of(*h));
            lemma_statement_literals();
            self.lemma_bounds();
        }
        let position = self.position();
        match self.expect_keyword("if".as_bytes()) {
            Ok(()) => {},
            Err(e) => return Err(e),
        }
        match self.skip_ws() {
            Ok(()) => {},
            Err(e) => return Err(e),
        }
        proof {
            self.lemma_bounds();
        }
        let test = match self.consume_paren_expression(h) {
            Ok(id) => id,
            Err(e) => return Err(e),
        };
        match self.skip_ws() {
            Ok(()) => {},
            Err(e) => return Err(e),
        }
        proof {
            self.lemma_bounds();
        }
        let true_body = match self.consume_statement(h) {
            Ok(id) => id,
            Err(e) => return Err(e),
        };
        match self.skip_ws() {
            Ok(()) => {},
            Err(e) => return Err(e),
        }
        proof {
            self.lemma_bounds();
        }
        let false_body;
        if self.has_keyword("else".as_bytes()) {
            match self.expect_keyword("else".as_bytes()) {
                Ok(()) => {},
                Err(e) => return Err(e),
            }
            match self.skip_ws() {
                Ok(()) => {},
                Err(e) => return Err(e),
            }
            proof {
                self.lemma_bounds();
            }
            match self.consume_statement(h) {
                Ok(id) => {
                    false_body = id;
                },
                Err(e) => return Err(e),
            }
        } else {
            false_body = allocate_statement(h, Statement::Skip(SkipStatement { position, next: None }));
        }
        Ok(allocate_statement(h, Statement::If(IfStatement { position, test, true_body, false_body })))
    }

    /// Reads `synchronous (parameters) statement`, the parameters optional; without them the
    /// body must be a block or `skip`.
    pub fn consume_synchronous_statement(&mut self, h: &mut Heap) -> (r: Result<StatementId, ParseError>)
        requires
            old(self).wf(),
            old(self).depth() <= MAX_LEVEL,
        ensures
            stmt_post(*old(self), *final(self), *old(h), *final(h), r, sync_p(old(self).text(), old(self).at() as int, old(self).depth() as int, arenas_of(*old(h)))),
        decreases MAX_LEVEL - old(self).depth(), old(self).text().len() - old(self).at(), 9int,
    {
        let ghost off = self.at() as int;
        proof {
            unfold_sync_p(self.text(), self.at() as int, self.depth() as int, arenas_of(*h));
            lemma_statement_literals();
            lemma_short_literals();
            self.lemma_bounds();
        }
        let position = self.position();
        match self.expect_keyword("synchronous".as_bytes()) {
            Ok(()) => {},
            Err(e) => return Err(e),
        }
        match self.skip_ws() {
            Ok(()) => {},
            Err(e) => return Err(e),
        }
        proof {
            self.lemma_bounds();
        }
        let parameters;
        if self.has_string("(".as_bytes()) {
            match self.consume_parameters(h) {
                Ok(v) => {
                    parameters = v;
                },
                Err(e) => return Err(e),
            }
            match self.skip_ws() {
                Ok(()) => {},
                Err(e) => return Err(e),
            }
        } else if !self.has_keyword("skip".as_bytes()) && !self.has_string("{".as_bytes()) {
            let message = "Expected block statement".to_owned();
            return Err(self.error_here(message));
        } else {
            parameters = Vec::new();
        }
        self.consume_synchronous_body(h, position, parameters, Ghost(off))
    }

    /// Reads the body of the synchronous statement at `off`, with parameters `parameters`.
    fn consume_synchronous_body(&mut self, h: &mut Heap, position: InputPosition, parameters: Vec<VariableId>, Ghost(off): Ghost<int>) -> (r: Result<StatementId, ParseError>)
        requires
            old(self).wf(),
            old(self).depth() <= MAX_LEVEL,
            0 <= off < old(self).at(),
            position == pos_at(old(self).text(), off),
        ensures
            stmt_post(*old(self), *final(self), *old(h), *final(h), r, sync_body_p(old(self).text(), off, old(self).at() as int, old(self).depth() as int, arenas_of(*old(h)), parameters@)),
        decreases MAX_LEVEL - old(self).depth(), old(self).text().len() - off, 8int,
    {
        proof {
            unfold_sync_body_p(self.text(), off, self.at() as int, self.depth() as int, arenas_of(*h), parameters@);
            self.lemma_bounds();
        }
        let body = match self.consume_statement(h) {
            Ok(id) => id,
            Err(e) => return Err(e),
        };
        Ok(allocate_statement(h, Statement::Synchronous(SynchronousStatement { position, parameters, body })))
    }

    /// Reads a block: `{`, declarations of locals, statements, `}`. An empty block reads as
    /// `skip`.
    pub fn consume_block_statement(&mut self, h: &mut Heap) -> (r: Result<StatementId, ParseError>)
        requires
            old(self).wf(),
            old(self).depth() <= MAX_LEVEL,
        ensures
            stmt_post(*old(self), *final(self), *old(h), *final(h), r, block_p(old(self).text(), old(self).at() as int, old(self).depth() as int, arenas_of(*old(h)))),
        decreases MAX_LEVEL - old(self).depth(), old(self).text().len() - old(self).at(), 9int,
    {
        let ghost text = self.text();
        let ghost off = self.at() as int;
        let ghost d = self.depth() as int;
        let ghost ar0 = arenas_of(*h);
        proof {
            unfold_block_p(text, off, d, ar0);
            lemma_short_literals();
            self.lemma_bounds();
        }
        let position = self.position();
        match self.expect("{".as_bytes()) {
            Ok(()) => {},
            Err(e) => return Err(e),
        }
        match self.skip_ws() {
            Ok(()) => {},
            Err(e) => return Err(e),
        }
        proof {
            self.lemma_bounds();
        }
        let ghost w1 = self.at() as int;
        let mut statements: Vec<StatementId> = Vec::new();
        loop
            invariant_except_break
                locals_p(text, w1, d, ar0, Seq::empty()) == locals_p(text, self.at() as int, d, arenas_of(*h), statements@),
            invariant
                self.wf(),
                self.same_text(old(self)),
                text == old(self).text(),
                text == self.text(),
                off == old(self).at(),
                d == old(self).depth(),
                d <= MAX_LEVEL,
                off < w1 <= self.at() <= text.len(),
                h.definitions == old(h).definitions,
                ar0 == arenas_of(*old(h)),
                block_p(text, off, d, ar0) == block_rest_p(text, off, w1, d, ar0),
            ensures
                locals_p(text, w1, d, ar0, Seq::empty()) == StmtsParse::Done(arenas_of(*h), statements@, self.at()),
            decreases text.len() - self.at(),
        {
            let ghost at = self.at() as int;
            proof {
                unfold_locals_p(text, at, d, arenas_of(*h), statements@);
                unfold_block_rest_p(text, off, w1, d, ar0);
            }
            if !self.has_local_statement() {
                break;
            }
            let local = match self.consume_local_statement(h) {
                Ok(id) => id,
                Err(e) => return Err(e),
            };
            statements.push(local);
            match self.skip_ws() {
                Ok(()) => {},
                Err(e) => return Err(e),
            }
            proof {
                self.lemma_bounds();
            }
        }
        let ghost e2 = self.at() as int;
        let ghost ar1 = arenas_of(*h);
        let ghost ids1 = statements@;
        loop
            invariant_except_break
                body_p(text, e2, d, ar1, ids1) == body_p(text, self.at() as int, d, arenas_of(*h), statements@),
            invariant
                self.wf(),
                self.same_text(old(self)),
                text == old(self).text(),
                text == self.text(),
                off == old(self).at(),
                d == old(self).depth(),
                d <= MAX_LEVEL,
                off < w1 <= e2 <= self.at() <= text.len(),
                h.definitions == old(h).definitions,
                ar0 == arenas_of(*old(h)),
                block_p(text, off, d, ar0) == block_rest_p(text, off, w1, d, ar0),
                locals_p(text, w1, d, ar0, Seq::empty()) == StmtsParse::Done(ar1, ids1, e2 as nat),
            ensures
                body_p(text, e2, d, ar1, ids1) == StmtsParse::Done(arenas_of(*h), statements@, self.at()),
            decreases text.len() - self.at(),
        {
            let ghost at = self.at() as int;
            proof {
                unfold_body_p(text, at, d, arenas_of(*h), statements@);
                unfold_block_rest_p(text, off, w1, d, ar0);
            }
            if self.has_string("}".as_bytes()) {
                break;
            }
            let statement = match self.consume_statement(h) {
                Ok(id) => id,
                Err(e) => return Err(e),
            };
            statements.push(statement);
            match self.skip_ws() {
                Ok(()) => {},
                Err(e) => return Err(e),
            }
            proof {
                self.lemma_bounds();
            }
        }
        proof {
            unfold_block_rest_p(text, off, w1, d, ar0);
        }
        match self.expect("}".as_bytes()) {
            Ok(()) => {},
            Err(e) => return Err(e),
        }
        if statements.len() == 0 {
            Ok(allocate_statement(h, Statement::Skip(SkipStatement { position, next: None })))
        } else {
            Ok(allocate_statement(h, Statement::Block(BlockStatement { position, statements })))
        }
    }

    /// Reads `skip;`.
    pub fn consume_skip_statement(&mut self, h: &mut Heap) -> (r: Result<StatementId, ParseError>)
        requires
            old(self).wf(),
        ensures
            stmt_post(*old(self), *final(self), *old(h), *final(h), r, skip_p(old(self).text(), old(self).at() as int, arenas_of(*old(h)))),
    {
        proof {
            unfold_skip_p(self.text(), self.at() as int, arenas_of(*h));
            lemma_statement_literals();
        }
        let position = self.position();
        match self.expect_keyword("skip".as_bytes()) {
            Ok(()) => {},
            Err(e) => return Err(e),
        }
        match self.skip_ws() {
            Ok(()) => {},
            Err(e) => return Err(e),
        }
        match self.expect(";".as_bytes()) {
            Ok(()) => {},
            Err(e) => return Err(e),
        }
        Ok(allocate_statement(h, Statement::Skip(SkipStatement { position, next: None })))
    }

    /// Reads `goto label;`.
    pub fn consume_goto_statement(&mut self, h: &mut Heap) -> (r: Result<StatementId, ParseError>)
        requires
            old(self).wf(),
        ensures
            stmt_post(*old(self), *final(self), *old(h), *final(h), r, goto_p(old(self).text(), old(self).at() as int, arenas_of(*old(h)))),
    {
        proof {
            unfold_goto_p(self.text(), self.at() as int, arenas_of(*h));
            lemma_statement_literals();
        }
        let position = self.position();
        match self.expect_keyword("goto".as_bytes()) {
            Ok(()) => {},
            Err(e) => return Err(e),
        }
        match self.skip_ws() {
            Ok(()) => {},
            Err(e) => return Err(e),
        }
        let label = match self.expect_ident() {
            Ok(v) => v,
            Err(e) => return Err(e),
        };
        match self.skip_ws() {
            Ok(()) => {},
            Err(e) => return Err(e),
        }
        match self.expect(";".as_bytes()) {
            Ok(()) => {},
            Err(e) => return Err(e),
        }
        Ok(allocate_statement(h, Statement::Goto(GotoStatement { position, label, target: None })))
    }

    /// Reads an expression statement: `e;`.
    pub fn consume_expression_statement(&mut self, h: &mut Heap) -> (r: Result<StatementId, ParseError>)
        requires
            old(self).wf(),
            old(self).depth() <= MAX_LEVEL,
        ensures
            stmt_post(*old(self), *final(self), *old(h), *final(h), r, exprstmt_p(old(self).text(), old(self).at() as int, old(self).depth() as int, arenas_of(*old(h)))),
    {
        proof {
            unfold_exprstmt_p(self.text(), self.at() as int, self.depth() as int, arenas_of(*h));
            lemma_statement_literals();
        }
        let position = self.position();
        let expression = match self.consume_expression(h) {
            Ok(id) => id,
            Err(e) => return Err(e),
        };
        match self.skip_ws() {
            Ok(()) => {},
            Err(e) => return Err(e),
        }
        match self.expect(";".as_bytes()) {
            Ok(()) => {},
            Err(e) => return Err(e),
        }
        Ok(allocate_statement(h, Statement::Expression(ExpressionStatement { position, expression, next: None })))
    }
}

} // verus!
