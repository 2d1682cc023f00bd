use vstd::prelude::*;
use vstd::string::StringSliceAdditionalSpecFns;
use vstd::utf8::encode_utf8;
use crate::ast::{AssignmentOperator, PrimitiveType, Type};
use crate::inputsource::{
    InputPosition, InputSource, ParseError, append_bytes, is_line_break, lossy_string, position_at,
    utf8_lossy,
};

verus! {

/// The deepest nesting of expressions the parser follows.
pub const MAX_LEVEL: usize = 128;

/// The byte at `i`, if `text` has one there.
pub open spec fn byte(text: Seq<u8>, i: int) -> Option<u8> {
    if 0 <= i < text.len() {
        Some(text[i])
    } else {
        None
    }
}

/// A visible (printable, non-blank) ASCII character.
pub open spec fn vchar(c: u8) -> bool {
    0x21 <= c <= 0x7e
}

/// A blank: space or horizontal tab.
pub open spec fn wsp(c: u8) -> bool {
    c == 32 || c == 9
}

/// An ASCII letter.
pub open spec fn letter(c: u8) -> bool {
    65 <= c <= 90 || 97 <= c <= 122
}

/// An ASCII digit.
pub open spec fn digit(c: u8) -> bool {
    48 <= c <= 57
}

/// A character that may continue an identifier.
pub open spec fn ident_rest(c: u8) -> bool {
    letter(c) || digit(c) || c == 95
}

/// A character that may continue an integer literal (hexadecimal digits and the `x`).
pub open spec fn integer_rest(c: u8) -> bool {
    digit(c) || 97 <= c <= 102 || 65 <= c <= 70 || c == 120 || c == 88
}

/// The ASCII lower case of `c`.
pub open spec fn lower(c: u8) -> u8 {
    if 65 <= c <= 90 {
        (c + 32) as u8
    } else {
        c
    }
}

fn is_vchar(x: Option<u8>) -> (r: bool)
    ensures
        r == (x matches Some(c) && vchar(c)),
{
    if let Some(c) = x {
        c >= 0x21u8 && c <= 0x7Eu8
    } else {
        false
    }
}

fn is_wsp(x: Option<u8>) -> (r: bool)
    ensures
        r == (x matches Some(c) && wsp(c)),
{
    if let Some(c) = x {
        c == 32u8 || c == 9u8
    } else {
        false
    }
}

fn is_ident_start(x: Option<u8>) -> (r: bool)
    ensures
        r == (x matches Some(c) && letter(c)),
{
    if let Some(c) = x {
        c >= 65u8 && c <= 90u8 || c >= 97u8 && c <= 122u8
    } else {
        false
    }
}

fn is_ident_rest(x: Option<u8>) -> (r: bool)
    ensures
        r == (x matches Some(c) && ident_rest(c)),
{
    if let Some(c) = x {
        c >= 65u8 && c <= 90u8 || c >= 97u8 && c <= 122u8 || c >= 48u8 && c <= 57u8 || c == 95u8
    } else {
        false
    }
}

fn is_constant(x: Option<u8>) -> (r: bool)
    ensures
        r == (x matches Some(c) && (digit(c) || c == 39)),
{
    if let Some(c) = x {
        c >= 48u8 && c <= 57u8 || c == 39u8
    } else {
        false
    }
}

fn is_integer_start(x: Option<u8>) -> (r: bool)
    ensures
        r == (x matches Some(c) && digit(c)),
{
    if let Some(c) = x {
        c >= 48u8 && c <= 57u8
    } else {
        false
    }
}

fn is_integer_rest(x: Option<u8>) -> (r: bool)
    ensures
        r == (x matches Some(c) && integer_rest(c)),
{
    if let Some(c) = x {
        c >= 48u8 && c <= 57u8 || c >= 97u8 && c <= 102u8 || c >= 65u8 && c <= 70u8 || c == 120u8
            || c == 88u8
    } else {
        false
    }
}

/// The ASCII lower case of a byte; other bytes are returned as they are.
pub fn lowercase(x: u8) -> (r: u8)
    ensures
        r == lower(x),
{
    if x >= 65u8 && x <= 90u8 {
        x - 65u8 + 97u8
    } else {
        x
    }
}

/// How a scan of the source ended: at an offset, or with an error reported at an offset
/// with a message (as UTF-8 bytes).
pub enum Scan {
    Done(nat),
    Failed(nat, Seq<u8>),
}

/// `r` and the read offset `cursor` are what the scan `s` of `text` describes.
pub open spec fn reports<T>(text: Seq<u8>, r: Result<T, ParseError>, cursor: nat, s: Scan) -> bool {
    match s {
        Scan::Done(e) => r is Ok && cursor == e,
        Scan::Failed(p, m) => r matches Err(err) && cursor == p && err.spec_position()
            == position_at(text, p) && encode_utf8(err.spec_message()) == m,
    }
}

/// The first offset at or after `i` that holds a line break, a byte that is neither
/// visible nor blank, or the end of the text.
pub open spec fn line_stop(text: Seq<u8>, i: int) -> int
    decreases text.len() - i,
{
    if i < 0 || i >= text.len() || is_line_break(text[i]) || !(vchar(text[i]) || wsp(text[i])) {
        i
    } else {
        line_stop(text, i + 1)
    }
}

/// The offset after the line break at `j`; a carriage return and line feed count as one.
pub open spec fn after_break(text: Seq<u8>, j: int) -> int {
    if j >= text.len() {
        j
    } else if text[j] == 13 && j + 1 < text.len() && text[j + 1] == 10 {
        j + 2
    } else {
        j + 1
    }
}

/// Reading the rest of a line from `i`: stops with an error at a byte that is neither
/// visible nor blank, else ends after the line break.
pub open spec fn line_scan(text: Seq<u8>, i: int) -> Scan {
    let j = line_stop(text, i);
    if j < text.len() && !is_line_break(text[j]) {
        Scan::Failed(j as nat, "Expected visible character or whitespace".spec_bytes())
    } else {
        Scan::Done(after_break(text, j) as nat)
    }
}

/// The offset after a block comment whose body starts at `p`: after the first `*/`, or
/// the end of the text.
pub open spec fn block_end(text: Seq<u8>, p: int) -> int
    decreases text.len() - p,
{
    if p < 0 || p >= text.len() {
        p
    } else if text[p] == 42 && p + 1 < text.len() && text[p + 1] == 47 {
        p + 2
    } else {
        block_end(text, p + 1)
    }
}

pub proof fn lemma_line_stop(text: Seq<u8>, i: int)
    requires
        0 <= i,
    ensures
        i <= line_stop(text, i),
        line_stop(text, i) <= text.len() || line_stop(text, i) == i,
    decreases text.len() - i,
{
    if i < text.len() && !is_line_break(text[i]) && (vchar(text[i]) || wsp(text[i])) {
        lemma_line_stop(text, i + 1);
    }
}

pub proof fn lemma_block_end(text: Seq<u8>, p: int)
    requires
        0 <= p,
    ensures
        p <= block_end(text, p),
        block_end(text, p) <= text.len() || block_end(text, p) == p,
    decreases text.len() - p,
{
    if p < text.len() && !(text[p] == 42 && p + 1 < text.len() && text[p + 1] == 47) {
        lemma_block_end(text, p + 1);
    }
}

/// Skipping blanks, line breaks and comments from `i`: how the scan ends, and whether
/// anything was skipped.
pub open spec fn ws_scan(text: Seq<u8>, i: int) -> (Scan, bool)
    decreases text.len() - i,
{
    if i < 0 || i >= text.len() {
        (Scan::Done(i as nat), false)
    } else if text[i] == 32 || text[i] == 9 || text[i] == 13 || text[i] == 10 {
        (ws_scan(text, i + 1).0, true)
    } else if text[i] == 47 && i + 1 < text.len() && text[i + 1] == 47 {
        proof {
            lemma_line_stop(text, i + 2);
        }
        match line_scan(text, i + 2) {
            Scan::Failed(p, m) => (Scan::Failed(p, m), true),
            Scan::Done(e) => (ws_scan(text, e as int).0, true),
        }
    } else if text[i] == 47 && i + 1 < text.len() && text[i + 1] == 42 {
        proof {
            lemma_block_end(text, i + 2);
        }
        (ws_scan(text, block_end(text, i + 2)).0, true)
    } else {
        (Scan::Done(i as nat), false)
    }
}

/// `consume_whitespace(expected)` from offset `i`.
pub open spec fn whitespace_scan(text: Seq<u8>, i: int, expected: bool) -> Scan {
    let (s, found) = ws_scan(text, i);
    match s {
        Scan::Done(e) => if expected && !found {
            Scan::Failed(e, "Expected whitespace".spec_bytes())
        } else {
            Scan::Done(e)
        },
        Scan::Failed(p, m) => Scan::Failed(p, m),
    }
}

/// `s` stands at offset `off` of `text`.
pub open spec fn string_at(text: Seq<u8>, off: int, s: Seq<u8>) -> bool {
    0 <= off && off + s.len() <= text.len() && text.subrange(off, off + s.len()) == s
}

/// The keyword `kw` stands at `off`, in any mix of cases, and no letter follows it.
pub open spec fn keyword_at(text: Seq<u8>, off: int, kw: Seq<u8>) -> bool {
    &&& 0 <= off
    &&& off + kw.len() <= text.len()
    &&& forall|i: int| 0 <= i < kw.len() ==> lower(#[trigger] text[off + i]) == lower(kw[i])
    &&& !(off + kw.len() < text.len() && letter(text[off + kw.len()]))
}

/// Counting from the `i`th byte of `s`: how many of the bytes of `s` stand at `off`
/// before the first one that does not.
pub open spec fn match_len(text: Seq<u8>, off: int, s: Seq<u8>, i: int) -> int
    decreases s.len() - i,
{
    if i < 0 || i >= s.len() || !(0 <= off + i < text.len()) || text[off + i] != s[i] {
        i
    } else {
        match_len(text, off, s, i + 1)
    }
}

/// `s` with its letters in lower case.
pub open spec fn lowered(s: Seq<u8>) -> Seq<u8> {
    s.map_values(|c: u8| lower(c))
}

/// The UTF-8 text `String::from_utf8_lossy` makes of `lead` followed by `what`.
pub open spec fn expected_text(lead: Seq<u8>, what: Seq<u8>) -> Seq<u8> {
    utf8_lossy(lead + what)
}

/// `consume_keyword(kw)` from `off`: the lower-case keyword must stand there, with no
/// letter after it.
pub open spec fn keyword_scan(text: Seq<u8>, off: int, kw: Seq<u8>) -> Scan {
    let m = match_len(text, off, lowered(kw), 0);
    if m < kw.len() {
        Scan::Failed((off + m) as nat, expected_text("Expected keyword: ".spec_bytes(), kw))
    } else if off + kw.len() < text.len() && letter(text[off + kw.len()]) {
        Scan::Failed(
            (off + kw.len()) as nat,
            expected_text("Expected word boundary after keyword: ".spec_bytes(), kw),
        )
    } else {
        Scan::Done((off + kw.len()) as nat)
    }
}

/// `consume_string(s)` from `off`: the bytes of `s` must stand there.
pub open spec fn string_scan(text: Seq<u8>, off: int, s: Seq<u8>) -> Scan {
    let m = match_len(text, off, s, 0);
    if m < s.len() {
        Scan::Failed((off + m) as nat, expected_text("Expected ".spec_bytes(), s))
    } else {
        Scan::Done((off + s.len()) as nat)
    }
}

pub proof fn lemma_string_scan(text: Seq<u8>, off: int, s: Seq<u8>)
    requires
        string_at(text, off, s),
    ensures
        string_scan(text, off, s) == Scan::Done((off + s.len()) as nat),
{
    lemma_match_all(text, off, s, s.len() as int);
}

proof fn lemma_match_all(text: Seq<u8>, off: int, s: Seq<u8>, k: int)
    requires
        string_at(text, off, s),
        0 <= k <= s.len(),
    ensures
        match_len(text, off, s, s.len() - k) == s.len(),
    decreases k,
{
    if k > 0 {
        lemma_match_all(text, off, s, k - 1);
        assert(text[off + (s.len() - k)] == text.subrange(off, off + s.len())[s.len() - k]);
    }
}

/// The end of the identifier whose rest starts at `i`.
pub open spec fn ident_end(text: Seq<u8>, i: int) -> int
    decreases text.len() - i,
{
    if 0 <= i < text.len() && ident_rest(text[i]) {
        ident_end(text, i + 1)
    } else {
        i
    }
}

/// A keyword that starts a statement stands at `off`.
pub open spec fn statement_keyword_at(text: Seq<u8>, off: int) -> bool {
    ||| keyword_at(text, off, "channel".spec_bytes())
    ||| keyword_at(text, off, "skip".spec_bytes())
    ||| keyword_at(text, off, "if".spec_bytes())
    ||| keyword_at(text, off, "while".spec_bytes())
    ||| keyword_at(text, off, "break".spec_bytes())
    ||| keyword_at(text, off, "continue".spec_bytes())
    ||| keyword_at(text, off, "synchronous".spec_bytes())
    ||| keyword_at(text, off, "return".spec_bytes())
    ||| keyword_at(text, off, "assert".spec_bytes())
    ||| keyword_at(text, off, "goto".spec_bytes())
    ||| keyword_at(text, off, "new".spec_bytes())
    ||| keyword_at(text, off, "put".spec_bytes())
}

/// The name of a builtin type, by number.
pub open spec fn primitive_keyword(k: int) -> Seq<u8> {
    if k == 0 {
        "in".spec_bytes()
    } else if k == 1 {
        "out".spec_bytes()
    } else if k == 2 {
        "msg".spec_bytes()
    } else if k == 3 {
        "boolean".spec_bytes()
    } else if k == 4 {
        "byte".spec_bytes()
    } else if k == 5 {
        "short".spec_bytes()
    } else if k == 6 {
        "int".spec_bytes()
    } else {
        "long".spec_bytes()
    }
}

/// The builtin type named by number.
pub open spec fn primitive_of(k: int) -> PrimitiveType {
    if k == 0 {
        PrimitiveType::Input
    } else if k == 1 {
        PrimitiveType::Output
    } else if k == 2 {
        PrimitiveType::Message
    } else if k == 3 {
        PrimitiveType::Boolean
    } else if k == 4 {
        PrimitiveType::Byte
    } else if k == 5 {
        PrimitiveType::Short
    } else if k == 6 {
        PrimitiveType::Int
    } else {
        PrimitiveType::Long
    }
}

/// The number of the first builtin type name that stands at `off`, or eight if none does.
pub open spec fn primitive_choice(text: Seq<u8>, off: int) -> int {
    if keyword_at(text, off, primitive_keyword(0)) {
        0
    } else if keyword_at(text, off, primitive_keyword(1)) {
        1
    } else if keyword_at(text, off, primitive_keyword(2)) {
        2
    } else if keyword_at(text, off, primitive_keyword(3)) {
        3
    } else if keyword_at(text, off, primitive_keyword(4)) {
        4
    } else if keyword_at(text, off, primitive_keyword(5)) {
        5
    } else if keyword_at(text, off, primitive_keyword(6)) {
        6
    } else if keyword_at(text, off, primitive_keyword(7)) {
        7
    } else {
        8
    }
}

/// A keyword that names a type stands at `off`.
pub open spec fn type_keyword_at(text: Seq<u8>, off: int) -> bool {
    primitive_choice(text, off) < 8
}

/// A keyword that names a builtin function stands at `off`.
pub open spec fn builtin_keyword_at(text: Seq<u8>, off: int) -> bool {
    ||| keyword_at(text, off, "get".spec_bytes())
    ||| keyword_at(text, off, "fires".spec_bytes())
    ||| keyword_at(text, off, "create".spec_bytes())
    ||| keyword_at(text, off, "length".spec_bytes())
}

/// Any keyword stands at `off`.
pub open spec fn reserved_at(text: Seq<u8>, off: int) -> bool {
    statement_keyword_at(text, off) || type_keyword_at(text, off) || builtin_keyword_at(text, off)
}

/// An identifier starts at `off`: a letter, where no keyword stands.
pub open spec fn identifier_at(text: Seq<u8>, off: int) -> bool {
    !reserved_at(text, off) && (byte(text, off) matches Some(c) && letter(c))
}

/// Reading an identifier from `off`.
pub open spec fn ident_scan(text: Seq<u8>, off: int) -> Scan {
    if identifier_at(text, off) {
        Scan::Done(ident_end(text, off + 1) as nat)
    } else {
        Scan::Failed(off as nat, "Expected identifier".spec_bytes())
    }
}

/// Reading a primitive type from `off`: a builtin type keyword, else an identifier.
pub open spec fn primitive_scan(text: Seq<u8>, off: int) -> Scan {
    let k = primitive_choice(text, off);
    if k < 8 {
        keyword_scan(text, off, primitive_keyword(k))
    } else {
        ident_scan(text, off)
    }
}

/// `t` is the primitive type read from `off`.
pub open spec fn primitive_is(t: PrimitiveType, text: Seq<u8>, off: int) -> bool {
    let k = primitive_choice(text, off);
    if k < 8 {
        t == primitive_of(k)
    } else {
        t matches PrimitiveType::Symbolic(d) && d@ == text.subrange(off, ident_end(text, off + 1))
    }
}

/// After blanks and comments from `off`, an opening bracket follows.
pub open spec fn array_follows(text: Seq<u8>, off: int) -> bool {
    whitespace_scan(text, off, false) matches Scan::Done(w) && string_at(text, w as int, "[".spec_bytes())
}

/// Reading a type from `off`: a primitive type, then `[]` where a bracket follows.
pub open spec fn type_scan(text: Seq<u8>, off: int) -> Scan {
    match primitive_scan(text, off) {
        Scan::Done(e) => if array_follows(text, e as int) {
            string_scan(text, e as int, "[]".spec_bytes())
        } else {
            Scan::Done(e)
        },
        Scan::Failed(p, m) => Scan::Failed(p, m),
    }
}

/// The text of an assignment operator, by number, in the order they are tried.
pub open spec fn assignment_text(k: int) -> Seq<u8> {
    if k == 0 {
        "=".spec_bytes()
    } else if k == 1 {
        "*=".spec_bytes()
    } else if k == 2 {
        "/=".spec_bytes()
    } else if k == 3 {
        "%=".spec_bytes()
    } else if k == 4 {
        "+=".spec_bytes()
    } else if k == 5 {
        "-=".spec_bytes()
    } else if k == 6 {
        "<<=".spec_bytes()
    } else if k == 7 {
        ">>=".spec_bytes()
    } else if k == 8 {
        "&=".spec_bytes()
    } else if k == 9 {
        "^=".spec_bytes()
    } else {
        "|=".spec_bytes()
    }
}

/// The assignment operator named by number.
pub open spec fn assignment_of(k: int) -> AssignmentOperator {
    if k == 0 {
        AssignmentOperator::Assigned
    } else if k == 1 {
        AssignmentOperator::Multiplied
    } else if k == 2 {
        AssignmentOperator::Divided
    } else if k == 3 {
        AssignmentOperator::Remained
    } else if k == 4 {
        AssignmentOperator::Added
    } else if k == 5 {
        AssignmentOperator::Subtracted
    } else if k == 6 {
        AssignmentOperator::ShiftedLeft
    } else if k == 7 {
        AssignmentOperator::ShiftedRight
    } else if k == 8 {
        AssignmentOperator::BitwiseAnded
    } else if k == 9 {
        AssignmentOperator::BitwiseXored
    } else {
        AssignmentOperator::BitwiseOred
    }
}

/// The number of the first assignment operator that stands at `off`, or eleven if none.
pub open spec fn assignment_choice(text: Seq<u8>, off: int) -> int {
    if string_at(text, off, assignment_text(0)) {
        0
    } else if string_at(text, off, assignment_text(1)) {
        1
    } else if string_at(text, off, assignment_text(2)) {
        2
    } else if string_at(text, off, assignment_text(3)) {
        3
    } else if string_at(text, off, assignment_text(4)) {
        4
    } else if string_at(text, off, assignment_text(5)) {
        5
    } else if string_at(text, off, assignment_text(6)) {
        6
    } else if string_at(text, off, assignment_text(7)) {
        7
    } else if string_at(text, off, assignment_text(8)) {
        8
    } else if string_at(text, off, assignment_text(9)) {
        9
    } else if string_at(text, off, assignment_text(10)) {
        10
    } else {
        11
    }
}

/// After an identifier from `off` and the blanks that follow it, `s` stands.
pub open spec fn ident_then(text: Seq<u8>, off: int, s: Seq<u8>) -> bool {
    &&& ident_scan(text, off) matches Scan::Done(e)
    &&& whitespace_scan(text, e as int, false) matches Scan::Done(w)
    &&& string_at(text, w as int, s)
}

/// A type stands at `off`, and after it and the blanks that follow, an identifier.
pub open spec fn declaration_follows(text: Seq<u8>, off: int) -> bool {
    &&& type_scan(text, off) matches Scan::Done(e)
    &&& whitespace_scan(text, e as int, false) matches Scan::Done(w)
    &&& identifier_at(text, w as int)
}

/// The message `String::from_utf8_lossy` makes of `lead` followed by `what`.
fn expected_message(lead: &str, what: &[u8]) -> (r: String)
    ensures
        encode_utf8(r@) == expected_text(lead.spec_bytes(), what@),
{
    let mut bytes: Vec<u8> = Vec::new();
    append_bytes(&mut bytes, lead.as_bytes());
    append_bytes(&mut bytes, what);
    lossy_string(bytes.as_slice())
}

/// Reads a source text token by token.
pub struct Lexer {
    source: InputSource,
    level: usize,
}

impl Lexer {
    pub closed spec fn src(&self) -> InputSource {
        self.source
    }

    pub closed spec fn depth(&self) -> nat {
        self.level as nat
    }

    pub open spec fn wf(&self) -> bool {
        self.src().wf()
    }

    pub open spec fn text(&self) -> Seq<u8> {
        self.src().text()
    }

    /// The offset of the next byte to read.
    pub open spec fn at(&self) -> nat {
        self.src().cursor()
    }

    /// Only the read offset differs between `self` and `other`.
    pub open spec fn same_text(&self, other: &Lexer) -> bool {
        &&& self.text() == other.text()
        &&& self.src().name() == other.src().name()
        &&& self.depth() == other.depth()
    }

    /// A lexer that reads `source` from where it stands.
    pub fn new(source: InputSource) -> (r: Lexer)
        ensures
            r.src() == source,
            r.depth() == 0,
    {
        Lexer { source, level: 0 }
    }

    pub fn source(&self) -> (r: &InputSource)
        ensures
            *r == self.src(),
    {
        &self.source
    }

    pub fn into_source(self) -> (r: InputSource)
        ensures
            r == self.src(),
    {
        self.source
    }

    /// Whether the keyword stands at the read position, in any mix of cases, with no
    /// letter after it.
    pub fn has_keyword(&self, keyword: &[u8]) -> (r: bool)
        requires
            self.wf(),
        ensures
            r == keyword_at(self.text(), self.at() as int, keyword@),
    {
        let ghost text = self.text();
        let ghost off = self.at() as int;
        proof {
            self.source.lemma_wf();
        }
        let len = keyword.len();
        let mut i: usize = 0;
        while i < len
            invariant
                self.wf(),
                text == self.text(),
                off == self.at(),
                off <= text.len(),
                len == keyword@.len(),
                i <= len,
                forall|j: int| 0 <= j < i ==> off + j < text.len() && lower(#[trigger] text[off + j]) == lower(keyword@[j]),
            decreases len - i,
        {
            let expected = Some(lowercase(keyword[i]));
            let next = match self.source.lookahead(i) {
                Some(c) => Some(lowercase(c)),
                None => None,
            };
            if next != expected {
                return false;
            }
            assert(off + i < text.len() && lower(text[off + i]) == lower(keyword@[i as int]));
            i = i + 1;
        }
        proof {
            if len > 0 {
                assert(lower(text[off + (len - 1)]) == lower(keyword@[len - 1]));
            }
        }
        if let Some(next) = self.source.lookahead(len) {
            !(next >= 65u8 && next <= 90u8 || next >= 97u8 && next <= 122u8)
        } else {
            true
        }
    }

    /// Reads the keyword, which must stand in lower case at the read position with no
    /// letter after it.
    pub fn consume_keyword(&mut self, keyword: &[u8]) -> (r: Result<(), ParseError>)
        requires
            old(self).wf(),
        ensures
            final(self).wf(),
            final(self).same_text(old(self)),
            reports(
                old(self).text(),
                r,
                final(self).at(),
                keyword_scan(old(self).text(), old(self).at() as int, keyword@),
            ),
    {
        let ghost text = self.text();
        let ghost off = self.at() as int;
        let ghost lk = lowered(keyword@);
        proof {
            self.source.lemma_wf();
        }
        let len = keyword.len();
        for i in 0..len
            invariant
                self.wf(),
                self.same_text(old(self)),
                text == self.text(),
                text == old(self).text(),
                off == old(self).at(),
                lk == lowered(keyword@),
                self.at() == off + i,
                self.at() <= text.len(),
                len == keyword@.len(),
                match_len(text, off, lk, 0) == match_len(text, off, lk, i as int),
        {
            let expected = Some(lowercase(keyword[i]));
            let next = self.source.next();
            if next != expected {
                let message = expected_message("Expected keyword: ", keyword);
                return Err(self.source.error(message));
            }
            self.source.consume();
        }
        if let Some(next) = self.source.next() {
            if next >= 65u8 && next <= 90u8 || next >= 97u8 && next <= 122u8 {
                let message = expected_message("Expected word boundary after keyword: ", keyword);
                return Err(self.source.error(message));
            }
        }
        Ok(())
    }

    /// Whether the bytes of `string` stand at the read position.
    pub fn has_string(&self, string: &[u8]) -> (r: bool)
        requires
            self.wf(),
        ensures
            r == string_at(self.text(), self.at() as int, string@),
    {
        let ghost text = self.text();
        let ghost off = self.at() as int;
        proof {
            self.source.lemma_wf();
        }
        let len = string.len();
        let mut i: usize = 0;
        while i < len
            invariant
                self.wf(),
                text == self.text(),
                off == self.at(),
                off <= text.len(),
                len == string@.len(),
                i <= len,
                forall|j: int| 0 <= j < i ==> off + j < text.len() && #[trigger] text[off + j] == string@[j],
            decreases len - i,
        {
            let expected = Some(string[i]);
            let next = self.source.lookahead(i);
            if next != expected {
                return false;
            }
            assert(off + i < text.len() && text[off + i] == string@[i as int]);
            i = i + 1;
        }
        proof {
            if len > 0 {
                assert(text[off + (len - 1)] == string@[len - 1]);
                assert(off + (len - 1) < text.len());
            }
            assert(off + len <= text.len());
            assert forall|k: int| 0 <= k < len implies text.subrange(off, off + len)[k] == string@[k] by {
                assert(text[off + k] == string@[k]);
            }
            assert(text.subrange(off, off + string@.len()) =~= string@);
        }
        true
    }

    /// Reads the bytes of `string`, which must stand at the read position.
    pub fn consume_string(&mut self, string: &[u8]) -> (r: Result<(), ParseError>)
        requires
            old(self).wf(),
        ensures
            final(self).wf(),
            final(self).same_text(old(self)),
            reports(
                old(self).text(),
                r,
                final(self).at(),
                string_scan(old(self).text(), old(self).at() as int, string@),
            ),
    {
        let ghost text = self.text();
        let ghost off = self.at() as int;
        proof {
            self.source.lemma_wf();
        }
        let len = string.len();
        for i in 0..len
            invariant
                self.wf(),
                self.same_text(old(self)),
                text == self.text(),
                text == old(self).text(),
                off == old(self).at(),
                self.at() == off + i,
                self.at() <= text.len(),
                len == string@.len(),
                match_len(text, off, string@, 0) == match_len(text, off, string@, i as int),
        {
            let expected = Some(string[i]);
            let next = self.source.next();
            if next != expected {
                let message = expected_message("Expected ", string);
                return Err(self.source.error(message));
            }
            self.source.consume();
        }
        Ok(())
    }

    /// Reads an identifier: a letter where no keyword stands, then letters, digits and
    /// underscores.
    pub fn consume_ident(&mut self) -> (r: Result<Vec<u8>, ParseError>)
        requires
            old(self).wf(),
        ensures
            final(self).wf(),
            final(self).same_text(old(self)),
            reports(old(self).text(), r, final(self).at(), ident_scan(old(self).text(), old(self).at() as int)),
            r matches Ok(v) ==> v@ == old(self).text().subrange(
                old(self).at() as int,
                ident_end(old(self).text(), old(self).at() as int + 1),
            ),
    {
        let ghost text = self.text();
        let ghost off = self.at() as int;
        if !self.has_identifier() {
            let message = "Expected identifier".to_owned();
            return Err(self.source.error(message));
        }
        let mut result = Vec::new();
        let mut next = self.source.next();
        result.push(next.unwrap());
        self.source.consume();
        next = self.source.next();
        proof {
            self.source.lemma_wf();
            assert(result@ =~= text.subrange(off, off + 1));
        }
        while is_ident_rest(next)
            invariant
                self.wf(),
                self.same_text(old(self)),
                text == self.text(),
                text == old(self).text(),
                off == old(self).at(),
                off < self.at() <= text.len(),
                next == byte(text, self.at() as int),
                ident_end(text, off + 1) == ident_end(text, self.at() as int),
                result@ == text.subrange(off, self.at() as int),
            decreases text.len() - self.at(),
        {
            let ghost here = self.at() as int;
            result.push(next.unwrap());
            self.source.consume();
            next = self.source.next();
            assert(text.subrange(off, self.at() as int) =~= text.subrange(off, here).push(text[here]));
        }
        Ok(result)
    }

    pub fn has_statement_keyword(&self) -> (r: bool)
        requires
            self.wf(),
        ensures
            r == statement_keyword_at(self.text(), self.at() as int),
    {
        self.has_keyword("channel".as_bytes()) || self.has_keyword("skip".as_bytes())
            || self.has_keyword("if".as_bytes()) || self.has_keyword("while".as_bytes())
            || self.has_keyword("break".as_bytes()) || self.has_keyword("continue".as_bytes())
            || self.has_keyword("synchronous".as_bytes()) || self.has_keyword("return".as_bytes())
            || self.has_keyword("assert".as_bytes()) || self.has_keyword("goto".as_bytes())
            || self.has_keyword("new".as_bytes()) || self.has_keyword("put".as_bytes())
    }

    pub fn has_type_keyword(&self) -> (r: bool)
        requires
            self.wf(),
        ensures
            r == type_keyword_at(self.text(), self.at() as int),
    {
        self.has_keyword("in".as_bytes()) || self.has_keyword("out".as_bytes())
            || self.has_keyword("msg".as_bytes()) || self.has_keyword("boolean".as_bytes())
            || self.has_keyword("byte".as_bytes()) || self.has_keyword("short".as_bytes())
            || self.has_keyword("int".as_bytes()) || self.has_keyword("long".as_bytes())
    }

    pub fn has_builtin_keyword(&self) -> (r: bool)
        requires
            self.wf(),
        ensures
            r == builtin_keyword_at(self.text(), self.at() as int),
    {
        self.has_keyword("get".as_bytes()) || self.has_keyword("fires".as_bytes())
            || self.has_keyword("create".as_bytes()) || self.has_keyword("length".as_bytes())
    }

    pub fn has_identifier(&self) -> (r: bool)
        requires
            self.wf(),
        ensures
            r == identifier_at(self.text(), self.at() as int),
    {
        if self.has_statement_keyword() || self.has_type_keyword() || self.has_builtin_keyword() {
            return false;
        }
        let next = self.source.next();
        is_ident_start(next)
    }

    /// Reads an identifier and drops it.
    pub fn consume_identifier_spilled(&mut self) -> (r: Result<(), ParseError>)
        requires
            old(self).wf(),
        ensures
            final(self).wf(),
            final(self).same_text(old(self)),
            reports(old(self).text(), r, final(self).at(), ident_scan(old(self).text(), old(self).at() as int)),
    {
        if self.has_statement_keyword() || self.has_type_keyword() || self.has_builtin_keyword() {
            let message = "Expected identifier".to_owned();
            return Err(self.source.error(message));
        }
        match self.consume_ident() {
            Ok(_) => Ok(()),
            Err(e) => Err(e),
        }
    }

    /// Reads a primitive type: a builtin type keyword, or else an identifier that names
    /// a symbolic type.
    pub fn consume_primitive_type(&mut self) -> (r: Result<PrimitiveType, ParseError>)
        requires
            old(self).wf(),
        ensures
            final(self).wf(),
            final(self).same_text(old(self)),
            reports(old(self).text(), r, final(self).at(), primitive_scan(old(self).text(), old(self).at() as int)),
            r matches Ok(t) ==> primitive_is(t, old(self).text(), old(self).at() as int),
    {
        if self.has_keyword("in".as_bytes()) {
            match self.consume_keyword("in".as_bytes()) {
                Ok(()) => Ok(PrimitiveType::Input),
                Err(e) => Err(e),
            }
        } else if self.has_keyword("out".as_bytes()) {
            match self.consume_keyword("out".as_bytes()) {
                Ok(()) => Ok(PrimitiveType::Output),
                Err(e) => Err(e),
            }
        } else if self.has_keyword("msg".as_bytes()) {
            match self.consume_keyword("msg".as_bytes()) {
                Ok(()) => Ok(PrimitiveType::Message),
                Err(e) => Err(e),
            }
        } else if self.has_keyword("boolean".as_bytes()) {
            match self.consume_keyword("boolean".as_bytes()) {
                Ok(()) => Ok(PrimitiveType::Boolean),
                Err(e) => Err(e),
            }
        } else if self.has_keyword("byte".as_bytes()) {
            match self.consume_keyword("byte".as_bytes()) {
                Ok(()) => Ok(PrimitiveType::Byte),
                Err(e) => Err(e),
            }
        } else if self.has_keyword("short".as_bytes()) {
            match self.consume_keyword("short".as_bytes()) {
                Ok(()) => Ok(PrimitiveType::Short),
                Err(e) => Err(e),
            }
        } else if self.has_keyword("int".as_bytes()) {
            match self.consume_keyword("int".as_bytes()) {
                Ok(()) => Ok(PrimitiveType::Int),
                Err(e) => Err(e),
            }
        } else if self.has_keyword("long".as_bytes()) {
            match self.consume_keyword("long".as_bytes()) {
                Ok(()) => Ok(PrimitiveType::Long),
                Err(e) => Err(e),
            }
        } else {
            match self.consume_ident() {
                Ok(data) => Ok(PrimitiveType::Symbolic(data)),
                Err(e) => Err(e),
            }
        }
    }

    /// Whether an opening bracket follows, after blanks and comments; nothing is consumed.
    pub fn has_array(&mut self) -> (r: bool)
        requires
            old(self).wf(),
        ensures
            final(self).wf(),
            final(self).same_text(old(self)),
            final(self).at() == old(self).at(),
            r == array_follows(old(self).text(), old(self).at() as int),
    {
        proof {
            self.source.lemma_wf();
        }
        let backup = self.source.pos();
        let mut result = false;
        match self.consume_whitespace(false) {
            Ok(_) => result = self.has_string("[".as_bytes()),
            Err(_) => {},
        }
        self.source.reset(backup);
        return result;
    }

    /// Reads a type: a primitive type, then `[]` where an opening bracket follows.
    pub fn consume_type(&mut self) -> (r: Result<Type, ParseError>)
        requires
            old(self).wf(),
        ensures
            final(self).wf(),
            final(self).same_text(old(self)),
            reports(old(self).text(), r, final(self).at(), type_scan(old(self).text(), old(self).at() as int)),
            r matches Ok(t) ==> {
                &&& primitive_is(t.primitive, old(self).text(), old(self).at() as int)
                &&& primitive_scan(old(self).text(), old(self).at() as int) matches Scan::Done(e)
                &&& t.array == array_follows(old(self).text(), e as int)
            },
    {
        let primitive = match self.consume_primitive_type() {
            Ok(p) => p,
            Err(e) => {
                return Err(e);
            },
        };
        let array;
        if self.has_array() {
            match self.consume_string("[]".as_bytes()) {
                Ok(()) => {},
                Err(e) => {
                    return Err(e);
                },
            }
            array = true;
        } else {
            array = false;
        }
        Ok(Type { primitive, array })
    }

    /// Reads a type and drops it.
    pub fn consume_type_annotation_spilled(&mut self) -> (r: Result<(), ParseError>)
        requires
            old(self).wf(),
        ensures
            final(self).wf(),
            final(self).same_text(old(self)),
            reports(old(self).text(), r, final(self).at(), type_scan(old(self).text(), old(self).at() as int)),
    {
        match self.consume_type() {
            Ok(_) => Ok(()),
            Err(e) => Err(e),
        }
    }

    pub fn has_assignment_operator(&self) -> (r: bool)
        requires
            self.wf(),
        ensures
            r == (assignment_choice(self.text(), self.at() as int) < 11),
    {
        self.has_string("=".as_bytes()) || self.has_string("*=".as_bytes())
            || self.has_string("/=".as_bytes()) || self.has_string("%=".as_bytes())
            || self.has_string("+=".as_bytes()) || self.has_string("-=".as_bytes())
            || self.has_string("<<=".as_bytes()) || self.has_string(">>=".as_bytes())
            || self.has_string("&=".as_bytes()) || self.has_string("^=".as_bytes())
            || self.has_string("|=".as_bytes())
    }

    /// Reads an assignment operator: the first of `=`, `*=`, `/=`, `%=`, `+=`, `-=`, `<<=`,
    /// `>>=`, `&=`, `^=`, `|=` that stands at the read position.
    pub fn consume_assignment_operator(&mut self) -> (r: Result<AssignmentOperator, ParseError>)
        requires
            old(self).wf(),
        ensures
            final(self).wf(),
            final(self).same_text(old(self)),
            ({
                let k = assignment_choice(old(self).text(), old(self).at() as int);
                if k < 11 {
                    r == Ok::<AssignmentOperator, ParseError>(assignment_of(k))
                        && final(self).at() == old(self).at() + assignment_text(k).len()
                } else {
                    reports(
                        old(self).text(),
                        r,
                        final(self).at(),
                        Scan::Failed(old(self).at(), "Expected assignment operator".spec_bytes()),
                    )
                }
            }),
    {
        let ghost text = self.text();
        let ghost off = self.at() as int;
        let ghost k = assignment_choice(text, off);
        proof {
            if k < 11 {
                lemma_string_scan(text, off, assignment_text(k));
            }
        }
        if self.has_string("=".as_bytes()) {
            match self.consume_string("=".as_bytes()) {
                Ok(()) => Ok(AssignmentOperator::Assigned),
                Err(e) => Err(e),
            }
        } else if self.has_string("*=".as_bytes()) {
            match self.consume_string("*=".as_bytes()) {
                Ok(()) => Ok(AssignmentOperator::Multiplied),
                Err(e) => Err(e),
            }
        } else if self.has_string("/=".as_bytes()) {
            match self.consume_string("/=".as_bytes()) {
                Ok(()) => Ok(AssignmentOperator::Divided),
                Err(e) => Err(e),
            }
        } else if self.has_string("%=".as_bytes()) {
            match self.consume_string("%=".as_bytes()) {
                Ok(()) => Ok(AssignmentOperator::Remained),
                Err(e) => Err(e),
            }
        } else if self.has_string("+=".as_bytes()) {
            match self.consume_string("+=".as_bytes()) {
                Ok(()) => Ok(AssignmentOperator::Added),
                Err(e) => Err(e),
            }
        } else if self.has_string("-=".as_bytes()) {
            match self.consume_string("-=".as_bytes()) {
                Ok(()) => Ok(AssignmentOperator::Subtracted),
                Err(e) => Err(e),
            }
        } else if self.has_string("<<=".as_bytes()) {
            match self.consume_string("<<=".as_bytes()) {
                Ok(()) => Ok(AssignmentOperator::ShiftedLeft),
                Err(e) => Err(e),
            }
        } else if self.has_string(">>=".as_bytes()) {
            match self.consume_string(">>=".as_bytes()) {
                Ok(()) => Ok(AssignmentOperator::ShiftedRight),
                Err(e) => Err(e),
            }
        } else if self.has_string("&=".as_bytes()) {
            match self.consume_string("&=".as_bytes()) {
                Ok(()) => Ok(AssignmentOperator::BitwiseAnded),
                Err(e) => Err(e),
            }
        } else if self.has_string("^=".as_bytes()) {
            match self.consume_string("^=".as_bytes()) {
                Ok(()) => Ok(AssignmentOperator::BitwiseXored),
                Err(e) => Err(e),
            }
        } else if self.has_string("|=".as_bytes()) {
            match self.consume_string("|=".as_bytes()) {
                Ok(()) => Ok(AssignmentOperator::BitwiseOred),
                Err(e) => Err(e),
            }
        } else {
            let message = "Expected assignment operator".to_owned();
            Err(self.source.error(message))
        }
    }

    /// Whether a constant starts at the read position: a digit or a quote.
    pub fn has_constant(&self) -> (r: bool)
        requires
            self.wf(),
        ensures
            r == (byte(self.text(), self.at() as int) matches Some(c) && (digit(c) || c == 39)),
    {
        is_constant(self.source.next())
    }

    /// Whether a call starts at the read position: a builtin function name, or an
    /// identifier followed by an opening parenthesis. Nothing is consumed.
    pub fn has_call_expression(&mut self) -> (r: bool)
        requires
            old(self).wf(),
        ensures
            final(self).wf(),
            final(self).same_text(old(self)),
            final(self).at() == old(self).at(),
            r == (builtin_keyword_at(old(self).text(), old(self).at() as int) || ident_then(
                old(self).text(),
                old(self).at() as int,
                "(".spec_bytes(),
            )),
    {
        if self.has_builtin_keyword() {
            return true;
        }
        proof {
            self.source.lemma_wf();
        }
        let backup = self.source.pos();
        let mut result = false;
        match self.consume_identifier_spilled() {
            Ok(_) => match self.consume_whitespace(false) {
                Ok(_) => {
                    result = self.has_string("(".as_bytes());
                },
                Err(_) => {},
            },
            Err(_) => {},
        }
        self.source.reset(backup);
        return result;
    }

    /// Whether a label starts at the read position: an identifier followed by a colon.
    /// Nothing is consumed.
    pub fn has_label(&mut self) -> (r: bool)
        requires
            old(self).wf(),
        ensures
            final(self).wf(),
            final(self).same_text(old(self)),
            final(self).at() == old(self).at(),
            r == ident_then(old(self).text(), old(self).at() as int, ":".spec_bytes()),
    {
        proof {
            self.source.lemma_wf();
        }
        let backup = self.source.pos();
        let mut result = false;
        match self.consume_identifier_spilled() {
            Ok(_) => match self.consume_whitespace(false) {
                Ok(_) => {
                    result = self.has_string(":".as_bytes());
                },
                Err(_) => {},
            },
            Err(_) => {},
        }
        self.source.reset(backup);
        return result;
    }

    /// Whether a declaration of locals starts at the read position: the keyword
    /// `channel`, or (where no other statement keyword stands) a type followed by an
    /// identifier. Nothing is consumed.
    pub fn has_local_statement(&mut self) -> (r: bool)
        requires
            old(self).wf(),
        ensures
            final(self).wf(),
            final(self).same_text(old(self)),
            final(self).at() == old(self).at(),
            r == ({
                let text = old(self).text();
                let off = old(self).at() as int;
                keyword_at(text, off, "channel".spec_bytes()) || (!statement_keyword_at(text, off)
                    && declaration_follows(text, off))
            }),
    {
        if self.has_keyword("channel".as_bytes()) {
            return true;
        }
        if self.has_statement_keyword() {
            return false;
        }
        proof {
            self.source.lemma_wf();
        }
        let backup = self.source.pos();
        let mut result = false;
        match self.consume_type_annotation_spilled() {
            Ok(_) => match self.consume_whitespace(false) {
                Ok(_) => {
                    result = self.has_identifier();
                },
                Err(_) => {},
            },
            Err(_) => {},
        }
        self.source.reset(backup);
        return result;
    }

    /// Whether a definition starts at the read position: `composite`, `primitive`, a type
    /// keyword, or an identifier.
    pub fn has_symbol_definition(&self) -> (r: bool)
        requires
            self.wf(),
        ensures
            r == ({
                let text = self.text();
                let off = self.at() as int;
                keyword_at(text, off, "composite".spec_bytes()) || keyword_at(text, off, "primitive".spec_bytes())
                    || type_keyword_at(text, off) || identifier_at(text, off)
            }),
    {
        self.has_keyword("composite".as_bytes()) || self.has_keyword("primitive".as_bytes())
            || self.has_type_keyword() || self.has_identifier()
    }

    /// Whether a pragma starts at the read position: a `#`.
    pub fn has_pragma(&self) -> (r: bool)
        requires
            self.wf(),
        ensures
            r == (byte(self.text(), self.at() as int) == Some(35u8)),
    {
        if let Some(c) = self.source.next() {
            c == 35u8
        } else {
            false
        }
    }

    pub fn has_import(&self) -> (r: bool)
        requires
            self.wf(),
        ensures
            r == keyword_at(self.text(), self.at() as int, "import".spec_bytes()),
    {
        self.has_keyword("import".as_bytes())
    }

    /// Reads the rest of the line, without its line break; the line break is consumed.
    pub fn consume_line(&mut self) -> (r: Result<Vec<u8>, ParseError>)
        requires
            old(self).wf(),
        ensures
            final(self).wf(),
            final(self).same_text(old(self)),
            reports(old(self).text(), r, final(self).at(), line_scan(old(self).text(), old(self).at() as int)),
            r matches Ok(v) ==> v@ == old(self).text().subrange(
                old(self).at() as int,
                line_stop(old(self).text(), old(self).at() as int),
            ),
    {
        let ghost text = self.text();
        let ghost start = self.at() as int;
        proof {
            self.source.lemma_wf();
            lemma_line_stop(text, start);
        }
        let mut result: Vec<u8> = Vec::new();
        let mut next = self.source.next();
        while next.is_some() && next != Some(10u8) && next != Some(13u8)
            invariant
                self.wf(),
                self.same_text(old(self)),
                text == self.text(),
                text == old(self).text(),
                start == old(self).at(),
                start <= self.at() <= text.len(),
                next == byte(text, self.at() as int),
                line_stop(text, start) == line_stop(text, self.at() as int),
                result@ == text.subrange(start, self.at() as int),
            decreases text.len() - self.at(),
        {
            let ghost here = self.at() as int;
            if !(is_vchar(next) || is_wsp(next)) {
                assert(line_stop(text, here) == here);
                assert(here < text.len());
                assert(!is_line_break(text[here]));
                assert(line_scan(text, start) == Scan::Failed(here as nat, "Expected visible character or whitespace".spec_bytes()));
                let message = "Expected visible character or whitespace".to_owned();
                return Err(self.source.error(message));
            }
            result.push(next.unwrap());
            self.source.consume();
            next = self.source.next();
            assert(text.subrange(start, self.at() as int) =~= text.subrange(start, here).push(text[here]));
        }
        if next.is_some() {
            self.source.consume();
        }
        if next == Some(13u8) && self.source.next() == Some(10u8) {
            self.source.consume();
        }
        Ok(result)
    }

    /// Skips blanks, line breaks and comments. Where `expected` holds, nothing to skip is
    /// an error.
    pub fn consume_whitespace(&mut self, expected: bool) -> (r: Result<(), ParseError>)
        requires
            old(self).wf(),
        ensures
            final(self).wf(),
            final(self).same_text(old(self)),
            reports(
                old(self).text(),
                r,
                final(self).at(),
                whitespace_scan(old(self).text(), old(self).at() as int, expected),
            ),
    {
        let ghost text = self.text();
        let ghost start = self.at() as int;
        proof {
            self.source.lemma_wf();
        }
        let mut found = false;
        let mut next = self.source.next();
        while next.is_some()
            invariant_except_break
                next == byte(text, self.at() as int),
            invariant
                self.wf(),
                self.same_text(old(self)),
                text == self.text(),
                text == old(self).text(),
                start == old(self).at(),
                start <= self.at() <= text.len(),
                ws_scan(text, start).0 == ws_scan(text, self.at() as int).0,
                ws_scan(text, start).1 == (found || ws_scan(text, self.at() as int).1),
                !found ==> self.at() == start,
            ensures
                ws_scan(text, self.at() as int) == (Scan::Done(self.at()), false),
            decreases text.len() - self.at(),
        {
            let ghost here = self.at() as int;
            if next == Some(32u8) || next == Some(9u8) || next == Some(13u8) || next == Some(10u8) {
                self.source.consume();
                next = self.source.next();
                found = true;
                continue;
            }
            if next == Some(47u8) {
                next = self.source.lookahead(1);
                if next == Some(47u8) {
                    self.source.consume();
                    self.source.consume();
                    proof {
                        lemma_line_stop(text, self.at() as int);
                    }
                    assert(text[here] == 47 && text[here + 1] == 47);
                    assert(ws_scan(text, here).0 == match line_scan(text, here + 2) {
                        Scan::Failed(p, m) => Scan::Failed(p, m),
                        Scan::Done(e) => ws_scan(text, e as int).0,
                    });
                    match self.consume_line() {
                        Ok(_) => {},
                        Err(e) => {
                            return Err(e);
                        },
                    }
                    next = self.source.next();
                    found = true;
                    continue;
                }
                if next == Some(42u8) {
                    self.source.consume();
                    self.source.consume();
                    let ghost body = self.at() as int;
                    proof {
                        lemma_block_end(text, body);
                    }
                    next = self.source.next();
                    while next.is_some()
                        invariant_except_break
                            next == byte(text, self.at() as int),
                            block_end(text, body) == block_end(text, self.at() as int),
                        invariant
                            self.wf(),
                            self.same_text(old(self)),
                            text == self.text(),
                            body <= self.at() <= text.len(),
                        ensures
                            self.at() == block_end(text, body),
                        decreases text.len() - self.at(),
                    {
                        if next == Some(42u8) {
                            next = self.source.lookahead(1);
                            if next == Some(47u8) {
                                self.source.consume();
                                self.source.consume();
                                break;
                            }
                        }
                        self.source.consume();
                        next = self.source.next();
                    }
                    next = self.source.next();
                    found = true;
                    continue;
                }
            }
            break;
        }
        if expected && !found {
            let message = "Expected whitespace".to_owned();
            Err(self.source.error(message))
        } else {
            Ok(())
        }
    }
}


impl Lexer {
    /// The read offset lies within the text, which is shorter than `usize::MAX`.
    pub proof fn lemma_bounds(&self)
        requires
            self.wf(),
        ensures
            self.at() <= self.text().len(),
            self.text().len() < usize::MAX,
    {
        self.source.lemma_wf();
    }

    /// The position of the read offset.
    pub fn position(&self) -> (r: InputPosition)
        requires
            self.wf(),
        ensures
            r == position_at(self.text(), self.at()),
    {
        self.source.pos()
    }

    /// An error with `message` at the read position.
    pub fn error_here(&self, message: String) -> (r: ParseError)
        requires
            self.wf(),
        ensures
            r.spec_position() == position_at(self.text(), self.at()),
            r.spec_message() == message@,
    {
        self.source.error(message)
    }

    /// The byte at the read position, if any.
    pub fn peek(&self) -> (r: Option<u8>)
        requires
            self.wf(),
        ensures
            r == byte(self.text(), self.at() as int),
    {
        self.source.next()
    }

    /// Reads one byte.
    pub fn advance(&mut self)
        requires
            old(self).wf(),
            old(self).at() < old(self).text().len(),
        ensures
            final(self).wf(),
            final(self).same_text(old(self)),
            final(self).at() == old(self).at() + 1,
    {
        self.source.consume();
    }

    /// The nesting level.
    pub fn level(&self) -> (r: usize)
        ensures
            r == self.depth(),
    {
        self.level
    }

    /// Goes one nesting level deeper.
    pub fn descend(&mut self)
        requires
            old(self).depth() < MAX_LEVEL,
        ensures
            final(self).src() == old(self).src(),
            final(self).depth() == old(self).depth() + 1,
    {
        self.level = self.level + 1;
    }

    /// Comes back one nesting level.
    pub fn ascend(&mut self)
        requires
            old(self).depth() > 0,
        ensures
            final(self).src() == old(self).src(),
            final(self).depth() == old(self).depth() - 1,
    {
        self.level = self.level - 1;
    }
}

pub proof fn lemma_match_len(text: Seq<u8>, off: int, s: Seq<u8>, i: int)
    requires
        0 <= i,
    ensures
        i <= match_len(text, off, s, i),
        match_len(text, off, s, i) <= s.len() || match_len(text, off, s, i) == i,
    decreases s.len() - i,
{
    if 0 <= i < s.len() && 0 <= off + i < text.len() && text[off + i] == s[i] {
        lemma_match_len(text, off, s, i + 1);
    }
}

} // verus!
