use vstd::prelude::*;
use vstd::string::StringSliceAdditionalSpecFns;
use vstd::utf8::{encode_utf8, valid_utf8};

verus! {

/// Decimal rendering of a natural number, most significant digit first.
pub open spec fn decimal_text(n: nat) -> Seq<u8>
    decreases n,
{
    if n < 10 {
        seq![(48 + n) as u8]
    } else {
        decimal_text(n / 10).push((48 + n % 10) as u8)
    }
}

/// Whether a byte ends a line of source text.
pub open spec fn is_line_break(c: u8) -> bool {
    c == 10 || c == 13
}

/// The index of the first line break at or after `from`, or the end of the input.
pub open spec fn line_end(input: Seq<u8>, from: int) -> int
    decreases input.len() - from,
{
    if from < 0 || from >= input.len() {
        input.len() as int
    } else if is_line_break(input[from]) {
        from
    } else {
        line_end(input, from + 1)
    }
}

/// The bytes of the line that holds the position `offset`, whose column is `column`:
/// from the start of that line up to (not including) the next line break.
pub open spec fn context_of(input: Seq<u8>, offset: nat, column: nat) -> Seq<u8> {
    input.subrange(offset - (column - 1), line_end(input, offset as int))
}

proof fn lemma_line_end_bounds(input: Seq<u8>, from: int)
    requires
        0 <= from <= input.len(),
    ensures
        from <= line_end(input, from) <= input.len(),
    decreases input.len() - from,
{
    if from < input.len() && !is_line_break(input[from]) {
        lemma_line_end_bounds(input, from + 1);
    }
}

/// The marker line under a context line: one blank (a tab where the context has a tab)
/// for every column before the position, then a caret.
pub open spec fn arrow_of(line: Seq<u8>, column: nat) -> Seq<u8> {
    Seq::new((column - 1) as nat, |i: int| if line[i] == 9 { 9u8 } else { 32u8 }).push(94u8)
}

/// What `String::from_utf8_lossy` makes of a byte string, taken as UTF-8 bytes.
pub uninterp spec fn utf8_lossy(bytes: Seq<u8>) -> Seq<u8>;

/// Calls `String::from_utf8_lossy` and returns the text it gives as a `String`.
/// Claimed: the UTF-8 bytes of the result are `utf8_lossy` of the input, and a valid
/// UTF-8 input comes back unchanged (as the documentation of `from_utf8_lossy` says).
#[verifier::external_body]
pub(crate) fn lossy_string(bytes: &[u8]) -> (r: String)
    ensures
        encode_utf8(r@) == utf8_lossy(bytes@),
        valid_utf8(bytes@) ==> encode_utf8(r@) == bytes@,
{
    String::from_utf8_lossy(bytes).into_owned()
}

/// The full text of a diagnostic: a header line, the context line, and the marker line.
pub open spec fn report_text(
    lead: Seq<u8>,
    filename: Seq<char>,
    line: nat,
    column: nat,
    message: Seq<u8>,
    context: Seq<u8>,
) -> Seq<u8> {
    report_layout(lead, filename, line, column, message, utf8_lossy(context), context)
}

/// A diagnostic laid out with `shown` as the text of the context line `context`.
pub open spec fn report_layout(
    lead: Seq<u8>,
    filename: Seq<char>,
    line: nat,
    column: nat,
    message: Seq<u8>,
    shown: Seq<u8>,
    context: Seq<u8>,
) -> Seq<u8> {
    let place = decimal_text(line) + seq![58u8] + decimal_text(column);
    let header = if filename.len() > 0 {
        lead + encode_utf8(filename) + seq![58u8] + place + seq![58u8, 32u8] + message
    } else {
        lead + place + seq![58u8, 32u8] + message
    };
    header.push(10u8) + shown.push(10u8) + arrow_of(context, column).push(10u8)
}

/// Appends `bytes` to `out`.
pub fn append_bytes(out: &mut Vec<u8>, bytes: &[u8])
    ensures
        final(out)@ == old(out)@ + bytes@,
{
    let mut i: usize = 0;
    while i < bytes.len()
        invariant
            i <= bytes@.len(),
            out@ == old(out)@ + bytes@.subrange(0, i as int),
        decreases bytes@.len() - i,
    {
        out.push(bytes[i]);
        i = i + 1;
        assert(out@ =~= old(out)@ + bytes@.subrange(0, i as int));
    }
    assert(bytes@.subrange(0, i as int) =~= bytes@);
}

/// Appends the decimal digits of `n` to `out`.
pub fn append_decimal(out: &mut Vec<u8>, n: usize)
    ensures
        final(out)@ == old(out)@ + decimal_text(n as nat),
    decreases n,
{
    if n < 10 {
        let d: u8 = n as u8;
        out.push(48u8 + d);
        assert(decimal_text(n as nat) =~= seq![(48 + n) as u8]);
    } else {
        append_decimal(out, n / 10);
        let d: u8 = (n % 10) as u8;
        out.push(48u8 + d);
        assert(decimal_text(n as nat) == decimal_text((n / 10) as nat).push((48 + n % 10) as u8));
    }
}

/// Whether the byte at `k` ends a line: a line feed, or a carriage return that no line
/// feed follows.
pub open spec fn breaks_line(text: Seq<u8>, k: int) -> bool {
    text[k] == 10 || (text[k] == 13 && !(k + 1 < text.len() && text[k + 1] == 10))
}

/// The line, counted from one, of the byte at offset `k`.
pub open spec fn line_at(text: Seq<u8>, k: nat) -> nat
    decreases k,
{
    if k == 0 {
        1
    } else if breaks_line(text, k - 1) {
        line_at(text, (k - 1) as nat) + 1
    } else {
        line_at(text, (k - 1) as nat)
    }
}

/// The column, counted from one, of the byte at offset `k`.
pub open spec fn column_at(text: Seq<u8>, k: nat) -> nat
    decreases k,
{
    if k == 0 {
        1
    } else if breaks_line(text, k - 1) {
        1
    } else {
        column_at(text, (k - 1) as nat) + 1
    }
}

/// The position of offset `k` in `text`.
pub open spec fn position_at(text: Seq<u8>, k: nat) -> InputPosition {
    InputPosition {
        line: line_at(text, k) as usize,
        column: column_at(text, k) as usize,
        offset: k as usize,
    }
}

/// Lines and columns grow no faster than offsets.
pub proof fn lemma_line_column_bound(text: Seq<u8>, k: nat)
    ensures
        line_at(text, k) >= 1,
        column_at(text, k) >= 1,
        (line_at(text, k) - 1) + (column_at(text, k) - 1) <= k,
    decreases k,
{
    if k > 0 {
        lemma_line_column_bound(text, (k - 1) as nat);
    }
}

/// A position in a source text: a line and a column, both counted from one, and the
/// byte offset from the start of the text.
#[derive(Debug, Clone, Copy, Default)]
pub struct InputPosition {
    pub line: usize,
    pub column: usize,
    pub offset: usize,
}

impl InputPosition {
    pub open spec fn spec_line(self) -> nat {
        self.line as nat
    }

    pub open spec fn spec_column(self) -> nat {
        self.column as nat
    }

    pub open spec fn spec_offset(self) -> nat {
        self.offset as nat
    }

    /// Whether this position can stand in a source text of `len` bytes: its column is at
    /// least one and the start of its line lies within the text.
    pub open spec fn fits(self, len: nat) -> bool {
        &&& self.spec_column() >= 1
        &&& self.spec_column() - 1 <= self.spec_offset()
        &&& self.spec_offset() <= len
    }

    /// The line of `source` that holds this position, without its line break.
    pub fn context<'a>(&self, source: &'a InputSource) -> (r: &'a [u8])
        requires
            self.fits(source.text().len()),
        ensures
            r@ == context_of(source.text(), self.spec_offset(), self.spec_column()),
            r@.len() >= self.spec_column() - 1,
    {
        proof {
            lemma_line_end_bounds(source.input@, self.offset as int);
        }
        let start = self.offset - (self.column - 1);
        let mut end = self.offset;
        while end < source.input.len()
            invariant
                self.offset <= end <= source.input@.len(),
                line_end(source.input@, end as int) == line_end(source.input@, self.offset as int),
            ensures
                end >= source.input@.len() || is_line_break(source.input@[end as int]),
                self.offset <= end <= source.input@.len(),
                line_end(source.input@, end as int) == line_end(source.input@, self.offset as int),
            decreases source.input@.len() - end,
        {
            let cur = source.input[end];
            if cur == 10u8 || cur == 13u8 {
                break;
            }
            end = end + 1;
        }
        proof {
            if end >= source.input@.len() {
                assert(line_end(source.input@, end as int) == source.input@.len());
            } else {
                assert(line_end(source.input@, end as int) == end);
            }
        }
        vstd::slice::slice_subrange(source.input.as_slice(), start, end)
    }

    pub fn parse_error(&self, message: String) -> (r: ParseError)
        ensures
            r.spec_position() == *self,
            r.spec_message() == message@,
    {
        ParseError { position: *self, message }
    }

    pub fn eval_error(&self, message: String) -> (r: EvalError)
        ensures
            r.spec_position() == *self,
            r.spec_message() == message@,
    {
        EvalError { position: *self, message }
    }
}

/// A source text being read from the front, with the position reached so far.
#[derive(Debug, Clone)]
pub struct InputSource {
    filename: String,
    input: Vec<u8>,
    line: usize,
    column: usize,
    offset: usize,
}

impl InputSource {
    /// The read position lies within the text, which is shorter than the largest
    /// `usize`, and the line and column agree with the bytes before it.
    pub closed spec fn wf(&self) -> bool {
        &&& self.offset <= self.input@.len()
        &&& self.input@.len() < usize::MAX
        &&& self.line == line_at(self.input@, self.offset as nat)
        &&& self.column == column_at(self.input@, self.offset as nat)
    }

    /// The whole text.
    pub closed spec fn text(&self) -> Seq<u8> {
        self.input@
    }

    /// The name of the file the text came from; empty where there is none.
    pub closed spec fn name(&self) -> Seq<char> {
        self.filename@
    }

    /// The offset of the next byte to read.
    pub closed spec fn cursor(&self) -> nat {
        self.offset as nat
    }

    pub proof fn lemma_wf(&self)
        requires
            self.wf(),
        ensures
            self.cursor() <= self.text().len(),
            self.text().len() < usize::MAX,
    {
    }

    /// The position reached so far.
    pub open spec fn position(&self) -> InputPosition {
        position_at(self.text(), self.cursor())
    }

    /// The byte at `offset + k`, if there is one.
    pub open spec fn byte_at(&self, k: int) -> Option<u8> {
        let i = self.cursor() + k;
        if 0 <= i < self.text().len() {
            Some(self.text()[i])
        } else {
            None
        }
    }

    /// A source with the given name and text, read from its start.
    pub fn new(filename: String, input: Vec<u8>) -> (r: InputSource)
        requires
            input@.len() < usize::MAX,
        ensures
            r.wf(),
            r.name() == filename@,
            r.text() == input@,
            r.cursor() == 0,
            r.position() == (InputPosition { line: 1, column: 1, offset: 0 }),
    {
        InputSource { filename, input, line: 1, column: 1, offset: 0 }
    }

    /// A source without a name that holds the bytes of `string`.
    pub fn from_string(string: &str) -> (r: Result<InputSource, SourceError>)
        requires
            string.spec_bytes().len() < usize::MAX,
        ensures
            r matches Ok(s) && s.wf() && s.name().len() == 0 && s.text() == string.spec_bytes()
                && s.cursor() == 0 && s.position() == (InputPosition { line: 1, column: 1, offset: 0 }),
    {
        let bytes = string.as_bytes();
        Ok(InputSource::new(String::new(), vstd::slice::slice_to_vec(bytes)))
    }

    /// A source without a name that holds a copy of `buffer`.
    pub fn from_buffer(buffer: &[u8]) -> (r: Result<InputSource, SourceError>)
        requires
            buffer@.len() < usize::MAX,
        ensures
            r matches Ok(s) && s.wf() && s.name().len() == 0 && s.text() == buffer@
                && s.cursor() == 0 && s.position() == (InputPosition { line: 1, column: 1, offset: 0 }),
    {
        Ok(InputSource::new(String::new(), vstd::slice::slice_to_vec(buffer)))
    }

    pub fn filename(&self) -> (r: &String)
        ensures
            r@ == self.name(),
    {
        &self.filename
    }

    pub fn input(&self) -> (r: &Vec<u8>)
        ensures
            r@ == self.text(),
    {
        &self.input
    }

    /// The position reached so far; it fits the text.
    pub fn pos(&self) -> (r: InputPosition)
        requires
            self.wf(),
        ensures
            r == self.position(),
            r.fits(self.text().len()),
    {
        proof {
            lemma_line_column_bound(self.input@, self.offset as nat);
        }
        InputPosition { line: self.line, column: self.column, offset: self.offset }
    }

    /// A parse error at the position reached so far.
    pub fn error(&self, message: String) -> (r: ParseError)
        requires
            self.wf(),
        ensures
            r.spec_position().fits(self.text().len()),
            r.spec_position() == self.position(),
            r.spec_message() == message@,
    {
        self.pos().parse_error(message)
    }

    pub fn is_eof(&self) -> (r: bool)
        ensures
            r == (self.byte_at(0) is None),
    {
        self.next().is_none()
    }

    /// The byte at the position reached so far, if any.
    pub fn next(&self) -> (r: Option<u8>)
        ensures
            r == self.byte_at(0),
    {
        if self.offset < self.input.len() {
            Some(self.input[self.offset])
        } else {
            None
        }
    }

    /// The byte `pos` places after the position reached so far, if any.
    pub fn lookahead(&self, pos: usize) -> (r: Option<u8>)
        requires
            self.wf(),
        ensures
            r == self.byte_at(pos as int),
    {
        let len = self.input.len();
        if let Some(x) = self.offset.checked_add(pos) {
            if x < len {
                return Some(self.input[x]);
            }
        }
        None
    }

    /// Moves one byte ahead. A line feed, or a carriage return that no line feed
    /// follows, starts a new line; at the end of the text nothing changes.
    pub fn consume(&mut self)
        requires
            old(self).wf(),
        ensures
            final(self).wf(),
            final(self).text() == old(self).text(),
            final(self).name() == old(self).name(),
            final(self).cursor() == if old(self).byte_at(0) is Some {
                old(self).cursor() + 1
            } else {
                old(self).cursor()
            },
    {
        let len = self.input.len();
        proof {
            lemma_line_column_bound(self.input@, self.offset as nat);
        }
        match self.next() {
            Some(x) => {
                if x == 13u8 && self.lookahead(1) != Some(10u8) || x == 10u8 {
                    self.line = self.line + 1;
                    self.offset = self.offset + 1;
                    self.column = 1;
                } else {
                    self.offset = self.offset + 1;
                    self.column = self.column + 1;
                }
            },
            None => {},
        }
    }

    /// Puts the read position back to offset `pos`, a position this text reached before.
    pub fn reset(&mut self, pos: InputPosition)
        requires
            old(self).wf(),
            pos == position_at(old(self).text(), pos.spec_offset()),
            pos.spec_offset() <= old(self).text().len(),
        ensures
            final(self).wf(),
            final(self).text() == old(self).text(),
            final(self).name() == old(self).name(),
            final(self).cursor() == pos.spec_offset(),
    {
        proof {
            lemma_line_column_bound(self.input@, pos.offset as nat);
        }
        self.line = pos.line;
        self.column = pos.column;
        self.offset = pos.offset;
    }
}

/// Why a source text could not be had.
#[derive(Debug, Clone, Copy, PartialEq, Eq, Structural)]
pub enum SourceError {
    /// The path names no file.
    InvalidPath,
}

/// Writes a diagnostic that begins with `lead`, for `message` at `position` in `source`.
fn write_report(
    lead: &str,
    position: InputPosition,
    message: &String,
    source: &InputSource,
    writer: &mut Vec<u8>,
)
    requires
        position.fits(source.text().len()),
    ensures
        final(writer)@ == old(writer)@ + report_text(
            lead.spec_bytes(),
            source.name(),
            position.spec_line(),
            position.spec_column(),
            encode_utf8(message@),
            context_of(source.text(), position.spec_offset(), position.spec_column()),
        ),
        valid_utf8(context_of(source.text(), position.spec_offset(), position.spec_column()))
            ==> utf8_lossy(context_of(source.text(), position.spec_offset(), position.spec_column()))
            == context_of(source.text(), position.spec_offset(), position.spec_column()),
{
    let ghost start = writer@;
    append_bytes(writer, lead.as_bytes());
    let named = !source.filename.as_str().is_empty();
    if named {
        append_bytes(writer, source.filename.as_str().as_bytes());
        writer.push(58u8);
    }
    let ghost before_place = writer@;
    append_decimal(writer, position.line);
    writer.push(58u8);
    append_decimal(writer, position.column);
    writer.push(58u8);
    writer.push(32u8);
    append_bytes(writer, message.as_str().as_bytes());
    writer.push(10u8);
    let ghost header = writer@;
    let line = position.context(source);
    let text = lossy_string(line);
    append_bytes(writer, text.as_str().as_bytes());
    writer.push(10u8);
    let ghost after_context = writer@;
    let mut pos: usize = 1;
    while pos < position.column
        invariant
            1 <= pos <= position.spec_column(),
            position.spec_column() - 1 <= line@.len(),
            writer@ == after_context + Seq::new((pos - 1) as nat, |i: int| if line@[i] == 9 { 9u8 } else { 32u8 }),
        decreases position.spec_column() - pos,
    {
        let c = line[pos - 1];
        if c == 9u8 {
            writer.push(9u8);
        } else {
            writer.push(32u8);
        }
        pos = pos + 1;
        assert(writer@ =~= after_context + Seq::new((pos - 1) as nat, |i: int| if line@[i] == 9 { 9u8 } else { 32u8 }));
    }
    writer.push(94u8);
    writer.push(10u8);
    proof {
        let place = decimal_text(position.spec_line()) + seq![58u8] + decimal_text(position.spec_column());
        assert(source.name().len() > 0 <==> named);
        assert(writer@ =~= start + report_text(
            lead.spec_bytes(),
            source.name(),
            position.spec_line(),
            position.spec_column(),
            encode_utf8(message@),
            line@,
        ));
    }
}

/// An error found while parsing a source text, with the position where it was found.
#[derive(Debug, Clone)]
pub struct ParseError {
    position: InputPosition,
    message: String,
}

impl ParseError {
    pub closed spec fn spec_position(&self) -> InputPosition {
        self.position
    }

    pub closed spec fn spec_message(&self) -> Seq<char> {
        self.message@
    }

    pub fn new(position: InputPosition, message: String) -> (r: ParseError)
        ensures
            r.spec_position() == position,
            r.spec_message() == message@,
    {
        ParseError { position, message }
    }

    pub fn position(&self) -> (r: InputPosition)
        ensures
            r == self.spec_position(),
    {
        self.position
    }

    pub fn message(&self) -> (r: &String)
        ensures
            r@ == self.spec_message(),
    {
        &self.message
    }

    /// Appends to `writer` the report of this error: a header line with the place and the
    /// message, the line of `source` where the error is, and a caret under its column.
    pub fn write(&self, source: &InputSource, writer: &mut Vec<u8>)
        requires
            self.spec_position().fits(source.text().len()),
        ensures
            final(writer)@ == old(writer)@ + report_text(
                "Parse error at ".spec_bytes(),
                source.name(),
                self.spec_position().spec_line(),
                self.spec_position().spec_column(),
                encode_utf8(self.spec_message()),
                context_of(
                    source.text(),
                    self.spec_position().spec_offset(),
                    self.spec_position().spec_column(),
                ),
            ),
            ({
                let context = context_of(source.text(), self.spec_position().spec_offset(), self.spec_position().spec_column());
                valid_utf8(context) ==> final(writer)@ == old(writer)@ + report_layout(
                    "Parse error at ".spec_bytes(),
                    source.name(),
                    self.spec_position().spec_line(),
                    self.spec_position().spec_column(),
                    encode_utf8(self.spec_message()),
                    context,
                    context,
                )
            }),
    {
        write_report("Parse error at ", self.position, &self.message, source, writer);
    }
}

/// An error found while running a program, with the position of the code at fault.
#[derive(Debug, Clone)]
pub struct EvalError {
    position: InputPosition,
    message: String,
}

impl EvalError {
    pub closed spec fn spec_position(&self) -> InputPosition {
        self.position
    }

    pub closed spec fn spec_message(&self) -> Seq<char> {
        self.message@
    }

    pub fn new(position: InputPosition, message: String) -> (r: EvalError)
        ensures
            r.spec_position() == position,
            r.spec_message() == message@,
    {
        EvalError { position, message }
    }

    pub fn position(&self) -> (r: InputPosition)
        ensures
            r == self.spec_position(),
    {
        self.position
    }

    pub fn message(&self) -> (r: &String)
        ensures
            r@ == self.spec_message(),
    {
        &self.message
    }

    /// Appends to `writer` the report of this error, laid out as for a parse error.
    pub fn write(&self, source: &InputSource, writer: &mut Vec<u8>)
        requires
            self.spec_position().fits(source.text().len()),
        ensures
            final(writer)@ == old(writer)@ + report_text(
                "Evaluation error at ".spec_bytes(),
                source.name(),
                self.spec_position().spec_line(),
                self.spec_position().spec_column(),
                encode_utf8(self.spec_message()),
                context_of(
                    source.text(),
                    self.spec_position().spec_offset(),
                    self.spec_position().spec_column(),
                ),
            ),
            ({
                let context = context_of(source.text(), self.spec_position().spec_offset(), self.spec_position().spec_column());
                valid_utf8(context) ==> final(writer)@ == old(writer)@ + report_layout(
                    "Evaluation error at ".spec_bytes(),
                    source.name(),
                    self.spec_position().spec_line(),
                    self.spec_position().spec_column(),
                    encode_utf8(self.spec_message()),
                    context,
                    context,
                )
            }),
    {
        write_report("Evaluation error at ", self.position, &self.message, source, writer);
    }
}

} // verus!
