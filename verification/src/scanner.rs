use vstd::prelude::*;
use crate::chars::{spec_is_break, utf8_encode, push_utf8};
use crate::decode::decode_step;
use crate::reader::{
    yaml_reader_t, yaml_reader_update_buffer, refill_relation, lemma_refill_measure,
    yaml_parser_input_string_t, yaml_parser_buffer_t, yaml_raw_buffer_t,
};
use crate::types::{
    yaml_encoding_t, yaml_error_type_t, yaml_mark_t, yaml_token_t, yaml_token_type_t,
    yaml_parser_state_t, yaml_parser_state_stack_t, yaml_tag_directive_stack_t, yaml_string_t,
};

verus! {

/// A position where a simple key (a key without '?') may start.
#[derive(Clone, Copy, Debug, PartialEq, Eq, Structural)]
pub struct yaml_simple_key_t {
    pub possible: bool,
    pub required: bool,
    pub token_number: usize,
    pub mark: yaml_mark_t,
}

/// The state of the scanner.
#[derive(Clone, Debug)]
pub struct yaml_scanner_t {
    pub stream_start_produced: bool,
    pub stream_end_produced: bool,
    pub flow_level: i32,
    pub tokens: Vec<yaml_token_t>,
    pub tokens_parsed: usize,
    pub token_available: bool,
    pub indents: Vec<i32>,
    pub indent: i32,
    pub simple_key_allowed: bool,
    pub simple_keys: Vec<yaml_simple_key_t>,
}

/// A parser: error report, reader, scanner and parser state.
pub struct yaml_parser_t {
    pub error: yaml_error_type_t,
    pub problem: Option<&'static str>,
    pub problem_offset: usize,
    pub problem_value: i32,
    pub problem_mark: yaml_mark_t,
    pub context: Option<&'static str>,
    pub context_mark: yaml_mark_t,
    pub reader: yaml_reader_t,
    pub scanner: yaml_scanner_t,
    pub states: yaml_parser_state_stack_t,
    pub state: yaml_parser_state_t,
    pub marks: Vec<yaml_mark_t>,
    pub tag_directives: yaml_tag_directive_stack_t,
    pub max_nest_level: i32,
    /// The tokens handed out so far, in order (for the proofs).
    pub handed: Ghost<Seq<yaml_token_t>>,
}

/// The bound past which the token queue reports a memory error.
pub open spec fn token_capacity() -> int {
    (usize::MAX / 2) as int
}

impl yaml_scanner_t {
    pub open spec fn indents_wf(self) -> bool {
        &&& self.indent >= -1
        &&& (self.indents.len() > 0 ==> self.indents@[0] == -1)
        &&& (forall|i: int, j: int|
            0 <= i < j < self.indents.len() ==> #[trigger] self.indents@[i]
                < #[trigger] self.indents@[j])
        &&& (forall|i: int| 0 <= i < self.indents.len() ==> #[trigger] self.indents@[i] < self.indent)
        &&& (self.indent > -1 ==> self.indents.len() > 0)
    }

    pub open spec fn keys_wf(self) -> bool {
        &&& forall|i: int|
            0 <= i < self.simple_keys.len() && (#[trigger] self.simple_keys@[i]).possible ==> {
                &&& self.tokens_parsed <= self.simple_keys@[i].token_number
                &&& self.simple_keys@[i].token_number <= self.tokens_parsed + self.tokens.len()
            }
    }

    pub open spec fn wf(self) -> bool {
        &&& self.flow_level >= 0
        &&& self.tokens_parsed + self.tokens.len() <= token_capacity()
        &&& (self.stream_start_produced ==> self.simple_keys.len() == self.flow_level + 1)
        &&& (!self.stream_start_produced ==> self.simple_keys.len() == 0 && self.flow_level == 0
            && self.tokens.len() == 0 && self.tokens_parsed == 0 && self.indents.len() == 0)
        &&& (self.stream_start_produced ==> self.indents_wf())
        &&& self.keys_wf()
        &&& (self.token_available ==> self.tokens.len() > 0 && self.head_ready())
    }

    /// No simple key that may still be completed refers to the token at
    /// the head of the queue, so that token is final.
    pub open spec fn head_ready(self) -> bool {
        forall|i: int|
            0 <= i < self.simple_keys.len() && (#[trigger] self.simple_keys@[i]).possible
                ==> self.simple_keys@[i].token_number != self.tokens_parsed
    }

    /// The last token queued is the end of the stream.
    pub open spec fn ends_with_stream_end(self) -> bool {
        self.tokens.len() > 0 && self.tokens@.last().type_
            == yaml_token_type_t::YAML_STREAM_END_TOKEN
    }
}

impl yaml_parser_t {
    pub open spec fn wf(self) -> bool {
        &&& self.reader.wf()
        &&& self.scanner.wf()
    }

    /// The `k`-th character not read yet (0 past the end of the buffer).
    pub open spec fn ch(self, k: int) -> u32 {
        self.reader.peek(k)
    }
}

/// The parser's own state (not the reader's, the scanner's or the error
/// report) is kept.
pub open spec fn parser_part_same(a: yaml_parser_t, b: yaml_parser_t) -> bool {
    &&& parse_state_same(a, b)
    &&& b.handed == a.handed
}

/// The state of the parser proper (its states, marks and tag directives)
/// is kept.
pub open spec fn parse_state_same(a: yaml_parser_t, b: yaml_parser_t) -> bool {
    &&& b.states == a.states
    &&& b.state == a.state
    &&& b.marks == a.marks
    &&& b.tag_directives == a.tag_directives
    &&& b.max_nest_level == a.max_nest_level
}

/// The error report is kept.
pub open spec fn error_same(a: yaml_parser_t, b: yaml_parser_t) -> bool {
    &&& b.error == a.error
    &&& b.problem == a.problem
    &&& b.problem_offset == a.problem_offset
    &&& b.problem_value == a.problem_value
    &&& b.problem_mark == a.problem_mark
    &&& b.context == a.context
    &&& b.context_mark == a.context_mark
}

/// What reading one character does to the position: one more character,
/// and either a new line (after a break) or one more column.
pub open spec fn advance_mark(m: yaml_mark_t, c: u32) -> yaml_mark_t {
    if spec_is_break(c) {
        yaml_mark_t { index: (m.index + 1) as usize, line: (m.line + 1) as usize, column: 0 }
    } else {
        yaml_mark_t { index: (m.index + 1) as usize, line: m.line, column: (m.column + 1) as usize }
    }
}

/// Records a scanner error at the current position.
pub fn yaml_parser_set_scanner_error(
    parser: &mut yaml_parser_t,
    context: Option<&'static str>,
    context_mark: yaml_mark_t,
    problem: &'static str,
) -> (r: bool)
    ensures
        !r,
        final(parser).error == yaml_error_type_t::YAML_SCANNER_ERROR,
        final(parser).context == context,
        final(parser).context_mark == context_mark,
        final(parser).problem == Some(problem),
        final(parser).problem_mark == old(parser).reader.mark,
        final(parser).problem_offset == old(parser).problem_offset,
        final(parser).problem_value == old(parser).problem_value,
        final(parser).reader == old(parser).reader,
        final(parser).scanner == old(parser).scanner,
        parser_part_same(*old(parser), *final(parser)),
{
    parser.error = yaml_error_type_t::YAML_SCANNER_ERROR;
    parser.context = context;
    parser.context_mark = context_mark;
    parser.problem = Some(problem);
    parser.problem_mark = parser.reader.mark;
    false
}

/// Records a reader error: the problem, the offset of the offending octet
/// and the offending value (or -1).
pub fn yaml_parser_set_reader_error(
    parser: &mut yaml_parser_t,
    problem: &'static str,
    offset: usize,
    value: i32,
) -> (r: bool)
    ensures
        !r,
        *final(parser) == (yaml_parser_t {
            error: yaml_error_type_t::YAML_READER_ERROR,
            problem: Some(problem),
            problem_offset: offset,
            problem_value: value,
            ..*old(parser)
        }),
{
    parser.error = yaml_error_type_t::YAML_READER_ERROR;
    parser.problem = Some(problem);
    parser.problem_offset = offset;
    parser.problem_value = value;
    false
}

/// A reader error that the input calls for: the input is too long, or
/// the octets not yet decoded are not empty and do not decode, with the
/// problem, value and offset of that failure.
#[verifier::opaque]
pub open spec fn reader_failed(p: yaml_parser_t) -> bool {
    &&& p.error == yaml_error_type_t::YAML_READER_ERROR
    &&& {
        ||| (p.problem == Some("input is too long") && p.reader.offset >= usize::MAX / 2)
        ||| (p.reader.remaining_raw().len() > 0 && (decode_step(
            p.reader.encoding,
            p.reader.remaining_raw(),
            true,
        ) matches crate::decode::DecodeStep::Fail(pr, d, v) && p.problem == Some(pr)
            && p.problem_value == v && p.problem_offset == p.reader.offset + d))
    }
}

/// Makes sure that `length` characters are buffered (or the input has
/// ended); a failure to decode the input is reported as a reader error.
pub fn yaml_parser_update_buffer(parser: &mut yaml_parser_t, length: usize) -> (r: bool)
    requires
        old(parser).wf(),
    ensures
        final(parser).wf(),
        final(parser).scanner == old(parser).scanner,
        parser_part_same(*old(parser), *final(parser)),
        refill_relation(old(parser).reader, final(parser).reader),
        final(parser).reader.measure() <= old(parser).reader.measure(),
        final(parser).reader.unread() >= old(parser).reader.unread(),
        forall|k: int| 0 <= k < old(parser).reader.unread() ==> #[trigger] final(parser).ch(k) == old(parser).ch(k),
        old(parser).reader.raw_done() ==> forall|k: int| #[trigger] final(parser).ch(k) == old(parser).ch(k),
        r ==> final(parser).reader.unread() >= length || final(parser).reader.raw_done(),
        old(parser).reader.raw_done() ==> r && *final(parser) == *old(parser),
        r ==> error_same(*old(parser), *final(parser)),
        !r ==> final(parser).error == yaml_error_type_t::YAML_READER_ERROR,
        !r ==> reader_failed(*final(parser)),
{
    if parser.reader.buffer.chars.len() - parser.reader.buffer.pointer >= length {
        proof {
            assert(refill_relation(parser.reader, parser.reader)) by {
                crate::reader::lemma_refill_same(parser.reader);
            }
        }
        return true;
    }
    let ghost before = parser.reader;
    let res = yaml_reader_update_buffer(&mut parser.reader, length);
    proof {
        lemma_refill_measure(before, parser.reader);
        crate::reader::lemma_refill_peek(before, parser.reader);
        if before.raw_done() {
            crate::reader::lemma_refill_done(before, parser.reader);
        }
    }
    match res {
        Ok(()) => true,
        Err(e) => {
            let r = yaml_parser_set_reader_error(parser, e.problem, e.offset, e.value);
            proof {
                reveal(reader_failed);
            }
            r
        },
    }
}

/// The `k`-th character not read yet (0 past the end of the buffer).
pub fn peek(parser: &yaml_parser_t, k: usize) -> (c: u32)
    requires
        parser.reader.wf(),
    ensures
        c == parser.ch(k as int),
        c <= 0x10FFFF,
{
    let r = &parser.reader;
    if k < r.buffer.chars.len() - r.buffer.pointer {
        r.buffer.chars[r.buffer.pointer + k]
    } else {
        0
    }
}

/// What skipping or reading characters keeps.
pub open spec fn read_frame(a: yaml_parser_t, b: yaml_parser_t) -> bool {
    &&& b.scanner == a.scanner
    &&& parser_part_same(a, b)
    &&& error_same(a, b)
    &&& b.reader.input == a.reader.input
    &&& b.reader.has_input == a.reader.has_input
    &&& b.reader.eof == a.reader.eof
    &&& b.reader.raw_buffer == a.reader.raw_buffer
    &&& b.reader.encoding == a.reader.encoding
    &&& b.reader.offset == a.reader.offset
    &&& b.reader.buffer.chars == a.reader.buffer.chars
}

/// The characters read between two states of a parser.
pub open spec fn read_between(a: yaml_parser_t, b: yaml_parser_t) -> Seq<u32> {
    b.reader.history@.skip(a.reader.history@.len() as int)
}

/// Skips one character (SKIP): one more column.
pub fn skip(parser: &mut yaml_parser_t)
    requires
        old(parser).wf(),
        old(parser).reader.unread() >= 1,
    ensures
        final(parser).wf(),
        read_frame(*old(parser), *final(parser)),
        final(parser).reader.buffer.pointer == old(parser).reader.buffer.pointer + 1,
        final(parser).reader.mark == (yaml_mark_t {
            index: (old(parser).reader.mark.index + 1) as usize,
            line: old(parser).reader.mark.line,
            column: (old(parser).reader.mark.column + 1) as usize,
        }),
        final(parser).reader.measure() + 1 == old(parser).reader.measure(),
        final(parser).reader.history@ == old(parser).reader.history@.push(old(parser).ch(0)),
        forall|k: int| #[trigger] final(parser).ch(k) == old(parser).ch(k + 1) || k < 0,
{
    proof {
        parser.reader.history = Ghost(parser.reader.history@.push(parser.ch(0)));
    }
    parser.reader.mark.index = parser.reader.mark.index + 1;
    parser.reader.mark.column = parser.reader.mark.column + 1;
    parser.reader.buffer.pointer = parser.reader.buffer.pointer + 1;
}

/// Skips a line break (SKIP_LINE): CR LF counts as one break; a character
/// that is not a break is left alone.
pub fn skip_line(parser: &mut yaml_parser_t)
    requires
        old(parser).wf(),
    ensures
        final(parser).wf(),
        read_frame(*old(parser), *final(parser)),
        if old(parser).ch(0) == 0x0D && old(parser).ch(1) == 0x0A {
            &&& final(parser).reader.buffer.pointer == old(parser).reader.buffer.pointer + 2
            &&& final(parser).reader.mark == (yaml_mark_t {
                index: (old(parser).reader.mark.index + 2) as usize,
                line: (old(parser).reader.mark.line + 1) as usize,
                column: 0,
            })
            &&& final(parser).reader.measure() + 2 == old(parser).reader.measure()
            &&& final(parser).reader.history@ == old(parser).reader.history@.push(0x0D).push(0x0A)
        } else if spec_is_break(old(parser).ch(0)) {
            &&& final(parser).reader.buffer.pointer == old(parser).reader.buffer.pointer + 1
            &&& final(parser).reader.mark == advance_mark(
                old(parser).reader.mark,
                old(parser).ch(0),
            )
            &&& final(parser).reader.measure() + 1 == old(parser).reader.measure()
            &&& final(parser).reader.history@ == old(parser).reader.history@.push(old(parser).ch(0))
        } else {
            *final(parser) == *old(parser)
        },
{
    let c0 = peek(parser, 0);
    let c1 = peek(parser, 1);
    if c0 == 0x0D && c1 == 0x0A {
        proof {
            parser.reader.history = Ghost(parser.reader.history@.push(0x0D).push(0x0A));
        }
        parser.reader.mark.index = parser.reader.mark.index + 2;
        parser.reader.mark.column = 0;
        parser.reader.mark.line = parser.reader.mark.line + 1;
        parser.reader.buffer.pointer = parser.reader.buffer.pointer + 2;
    } else if c0 == 0x0D || c0 == 0x0A || c0 == 0x85 || c0 == 0x2028 || c0 == 0x2029 {
        proof {
            parser.reader.history = Ghost(parser.reader.history@.push(c0));
        }
        parser.reader.mark.index = parser.reader.mark.index + 1;
        parser.reader.mark.column = 0;
        parser.reader.mark.line = parser.reader.mark.line + 1;
        parser.reader.buffer.pointer = parser.reader.buffer.pointer + 1;
    }
}

/// Copies one character into `string` (READ).
pub fn read(parser: &mut yaml_parser_t, string: &mut yaml_string_t)
    requires
        old(parser).wf(),
        old(parser).reader.unread() >= 1,
    ensures
        final(parser).wf(),
        read_frame(*old(parser), *final(parser)),
        final(parser).reader.buffer.pointer == old(parser).reader.buffer.pointer + 1,
        final(parser).reader.mark == advance_mark(old(parser).reader.mark, old(parser).ch(0)),
        final(parser).reader.measure() + 1 == old(parser).reader.measure(),
        final(string).data@ == old(string).data@ + utf8_encode(old(parser).ch(0)),
        final(parser).reader.history@ == old(parser).reader.history@.push(old(parser).ch(0)),
{
    let c = peek(parser, 0);
    push_utf8(&mut string.data, c);
    proof {
        parser.reader.history = Ghost(parser.reader.history@.push(c));
    }
    parser.reader.mark.index = parser.reader.mark.index + 1;
    if c == 0x0D || c == 0x0A || c == 0x85 || c == 0x2028 || c == 0x2029 {
        parser.reader.mark.column = 0;
        parser.reader.mark.line = parser.reader.mark.line + 1;
    } else {
        parser.reader.mark.column = parser.reader.mark.column + 1;
    }
    parser.reader.buffer.pointer = parser.reader.buffer.pointer + 1;
}

/// Reads a line break into `string` as a line feed (READ_LINE); CR LF
/// counts as one break.
pub fn read_line(parser: &mut yaml_parser_t, string: &mut yaml_string_t)
    requires
        old(parser).wf(),
        spec_is_break(old(parser).ch(0)),
    ensures
        final(parser).wf(),
        read_frame(*old(parser), *final(parser)),
        final(string).data@ == old(string).data@.push(0x0A),
        final(parser).reader.mark.line == old(parser).reader.mark.line + 1,
        final(parser).reader.mark.column == 0,
        if old(parser).ch(0) == 0x0D && old(parser).ch(1) == 0x0A {
            &&& final(parser).reader.buffer.pointer == old(parser).reader.buffer.pointer + 2
            &&& final(parser).reader.mark.index == old(parser).reader.mark.index + 2
            &&& final(parser).reader.history@ == old(parser).reader.history@.push(0x0D).push(0x0A)
            &&& final(parser).reader.measure() + 2 == old(parser).reader.measure()
        } else {
            &&& final(parser).reader.buffer.pointer == old(parser).reader.buffer.pointer + 1
            &&& final(parser).reader.mark.index == old(parser).reader.mark.index + 1
            &&& final(parser).reader.history@ == old(parser).reader.history@.push(old(parser).ch(0))
            &&& final(parser).reader.measure() + 1 == old(parser).reader.measure()
        },
{
    string.data.push(0x0A);
    skip_line(parser);
}

/// Appends a token to the queue (ENQUEUE); a full queue is a memory error.
pub fn enqueue_token(parser: &mut yaml_parser_t, token: yaml_token_t) -> (r: bool)
    requires
        old(parser).wf(),
        old(parser).scanner.stream_start_produced,
    ensures
        final(parser).wf(),
        final(parser).reader == old(parser).reader,
        parser_part_same(*old(parser), *final(parser)),
        r == (old(parser).scanner.tokens_parsed + old(parser).scanner.tokens.len()
            < token_capacity()),
        r ==> error_same(*old(parser), *final(parser)),
        r ==> final(parser).scanner.tokens@ == old(parser).scanner.tokens@.push(token),
        !r ==> final(parser).error == yaml_error_type_t::YAML_MEMORY_ERROR,
        !r ==> final(parser).scanner.tokens == old(parser).scanner.tokens,
        final(parser).scanner.tokens_parsed == old(parser).scanner.tokens_parsed,
        final(parser).scanner.simple_keys == old(parser).scanner.simple_keys,
        final(parser).scanner.indents == old(parser).scanner.indents,
        final(parser).scanner.indent == old(parser).scanner.indent,
        final(parser).scanner.flow_level == old(parser).scanner.flow_level,
        final(parser).scanner.simple_key_allowed == old(parser).scanner.simple_key_allowed,
        final(parser).scanner.stream_start_produced == old(parser).scanner.stream_start_produced,
        final(parser).scanner.stream_end_produced == old(parser).scanner.stream_end_produced,
        final(parser).scanner.token_available == old(parser).scanner.token_available,
{
    if parser.scanner.tokens_parsed >= usize::MAX / 2 || parser.scanner.tokens.len() >= usize::MAX
        / 2 - parser.scanner.tokens_parsed {
        parser.error = yaml_error_type_t::YAML_MEMORY_ERROR;
        return false;
    }
    parser.scanner.tokens.push(token);
    true
}

/// Inserts a token into the queue at `index` (QUEUE_INSERT); a full queue
/// is a memory error.
pub fn insert_token(parser: &mut yaml_parser_t, index: usize, token: yaml_token_t) -> (r: bool)
    requires
        old(parser).wf(),
        old(parser).scanner.stream_start_produced,
        index <= old(parser).scanner.tokens.len(),
    ensures
        final(parser).wf(),
        final(parser).reader == old(parser).reader,
        parser_part_same(*old(parser), *final(parser)),
        r == (old(parser).scanner.tokens_parsed + old(parser).scanner.tokens.len()
            < token_capacity()),
        r ==> error_same(*old(parser), *final(parser)),
        r ==> final(parser).scanner.tokens@ == old(parser).scanner.tokens@.insert(index as int, token),
        !r ==> final(parser).error == yaml_error_type_t::YAML_MEMORY_ERROR,
        !r ==> final(parser).scanner.tokens == old(parser).scanner.tokens,
        final(parser).scanner.tokens_parsed == old(parser).scanner.tokens_parsed,
        final(parser).scanner.simple_keys == old(parser).scanner.simple_keys,
        final(parser).scanner.indents == old(parser).scanner.indents,
        final(parser).scanner.indent == old(parser).scanner.indent,
        final(parser).scanner.flow_level == old(parser).scanner.flow_level,
        final(parser).scanner.simple_key_allowed == old(parser).scanner.simple_key_allowed,
        final(parser).scanner.stream_start_produced == old(parser).scanner.stream_start_produced,
        final(parser).scanner.stream_end_produced == old(parser).scanner.stream_end_produced,
        final(parser).scanner.token_available == old(parser).scanner.token_available,
{
    if parser.scanner.tokens_parsed >= usize::MAX / 2 || parser.scanner.tokens.len() >= usize::MAX
        / 2 - parser.scanner.tokens_parsed {
        parser.error = yaml_error_type_t::YAML_MEMORY_ERROR;
        return false;
    }
    parser.scanner.tokens.insert(index, token);
    true
}

/// A simple key has gone stale: it is on an earlier line, or more than
/// 1024 characters back.
pub open spec fn key_is_stale(k: yaml_simple_key_t, m: yaml_mark_t) -> bool {
    k.mark.line < m.line || k.mark.index + 1024 < m.index
}

/// The simple keys after dropping the stale ones.
pub open spec fn drop_stale(keys: Seq<yaml_simple_key_t>, m: yaml_mark_t) -> Seq<
    yaml_simple_key_t,
> {
    keys.map_values(
        |k: yaml_simple_key_t|
            if k.possible && key_is_stale(k, m) {
                yaml_simple_key_t { possible: false, ..k }
            } else {
                k
            },
    )
}

/// A key that can no longer be completed although it must be.
pub open spec fn key_is_lost(k: yaml_simple_key_t, m: yaml_mark_t) -> bool {
    k.possible && k.required && key_is_stale(k, m)
}

/// Marks the simple keys that went stale as impossible; a stale key that
/// was required is an error ("could not find expected ':'").
pub fn yaml_parser_stale_simple_keys(parser: &mut yaml_parser_t) -> (r: bool)
    requires
        old(parser).wf(),
    ensures
        final(parser).wf(),
        final(parser).reader == old(parser).reader,
        parser_part_same(*old(parser), *final(parser)),
        r == (forall|i: int|
            0 <= i < old(parser).scanner.simple_keys.len() ==> !key_is_lost(
                #[trigger] old(parser).scanner.simple_keys@[i],
                old(parser).reader.mark,
            )),
        r ==> error_same(*old(parser), *final(parser)),
        r ==> final(parser).scanner.simple_keys@ == drop_stale(
            old(parser).scanner.simple_keys@,
            old(parser).reader.mark,
        ),
        scanner_same_but_keys(old(parser).scanner, final(parser).scanner),
        !r ==> final(parser).error == yaml_error_type_t::YAML_SCANNER_ERROR,
        !r ==> final(parser).problem == Some("could not find expected ':'"),
        !r ==> exists|i: int|
            0 <= i < old(parser).scanner.simple_keys.len() && key_is_lost(
                #[trigger] old(parser).scanner.simple_keys@[i],
                old(parser).reader.mark,
            ) && final(parser).context_mark == old(parser).scanner.simple_keys@[i].mark,
{
    let m = parser.reader.mark;
    let n = parser.scanner.simple_keys.len();
    let mut i: usize = 0;
    while i < n
        invariant
            0 <= i <= n,
            n == old(parser).scanner.simple_keys.len(),
            parser.scanner.simple_keys.len() == n,
            m == old(parser).reader.mark,
            parser.wf(),
            parser.reader == old(parser).reader,
            parser_part_same(*old(parser), *parser),
            error_same(*old(parser), *parser),
            scanner_same_but_keys(old(parser).scanner, parser.scanner),
            forall|j: int|
                0 <= j < i ==> !key_is_lost(#[trigger] old(parser).scanner.simple_keys@[j], m),
            forall|j: int|
                0 <= j < i ==> #[trigger] parser.scanner.simple_keys@[j] == drop_stale(
                    old(parser).scanner.simple_keys@,
                    m,
                )[j],
            forall|j: int|
                i <= j < n ==> #[trigger] parser.scanner.simple_keys@[j]
                    == old(parser).scanner.simple_keys@[j],
        decreases n - i,
    {
        let k = parser.scanner.simple_keys[i];
        if k.possible && (k.mark.line < m.line || (k.mark.index < m.index && m.index - k.mark.index
            > 1024)) {
            if k.required {
                return yaml_parser_set_scanner_error(
                    parser,
                    Some("while scanning a simple key"),
                    k.mark,
                    "could not find expected ':'",
                );
            }
            parser.scanner.simple_keys.set(i, yaml_simple_key_t { possible: false, ..k });
        }
        i = i + 1;
    }
    assert(parser.scanner.simple_keys@ =~= drop_stale(old(parser).scanner.simple_keys@, m));
    true
}

/// Two scanner states that differ at most in their simple keys.
pub open spec fn scanner_same_but_keys(a: yaml_scanner_t, b: yaml_scanner_t) -> bool {
    &&& b.stream_start_produced == a.stream_start_produced
    &&& b.stream_end_produced == a.stream_end_produced
    &&& b.flow_level == a.flow_level
    &&& b.tokens == a.tokens
    &&& b.tokens_parsed == a.tokens_parsed
    &&& b.token_available == a.token_available
    &&& b.indents == a.indents
    &&& b.indent == a.indent
    &&& b.simple_key_allowed == a.simple_key_allowed
    &&& b.simple_keys.len() == a.simple_keys.len()
}

/// The simple key of the current flow level can no longer be completed; a
/// required one is an error ("could not find expected ':'").
pub fn yaml_parser_remove_simple_key(parser: &mut yaml_parser_t) -> (r: bool)
    requires
        old(parser).wf(),
        old(parser).scanner.stream_start_produced,
    ensures
        final(parser).wf(),
        final(parser).reader == old(parser).reader,
        parser_part_same(*old(parser), *final(parser)),
        scanner_same_but_keys(old(parser).scanner, final(parser).scanner),
        ({
            let keys = old(parser).scanner.simple_keys@;
            let top = keys.last();
            &&& r == !(top.possible && top.required)
            &&& r ==> error_same(*old(parser), *final(parser))
            &&& r ==> final(parser).scanner.simple_keys@ == keys.update(
                keys.len() - 1,
                yaml_simple_key_t { possible: false, ..top },
            )
            &&& !r ==> final(parser).scanner.simple_keys == old(parser).scanner.simple_keys
            &&& !r ==> final(parser).error == yaml_error_type_t::YAML_SCANNER_ERROR
            &&& !r ==> final(parser).problem == Some("could not find expected ':'")
            &&& !r ==> final(parser).context_mark == top.mark
        }),
{
    let top = parser.scanner.simple_keys.len() - 1;
    let k = parser.scanner.simple_keys[top];
    if k.possible && k.required {
        return yaml_parser_set_scanner_error(
            parser,
            Some("while scanning a simple key"),
            k.mark,
            "could not find expected ':'",
        );
    }
    parser.scanner.simple_keys.set(top, yaml_simple_key_t { possible: false, ..k });
    true
}

/// Whether a simple key starting here would be required: in block
/// context at the current indentation.
pub open spec fn key_required_here(p: yaml_parser_t) -> bool {
    p.scanner.flow_level == 0 && p.scanner.indent >= 0 && p.scanner.indent as int
        == p.reader.mark.column as int
}

/// Remembers the current position as a possible simple key, when simple
/// keys are allowed here.
pub fn yaml_parser_save_simple_key(parser: &mut yaml_parser_t) -> (r: bool)
    requires
        old(parser).wf(),
        old(parser).scanner.stream_start_produced,
    ensures
        final(parser).wf(),
        final(parser).reader == old(parser).reader,
        parser_part_same(*old(parser), *final(parser)),
        scanner_same_but_keys(old(parser).scanner, final(parser).scanner),
        ({
            let keys = old(parser).scanner.simple_keys@;
            let top = keys.last();
            let key = yaml_simple_key_t {
                possible: true,
                required: key_required_here(*old(parser)),
                token_number: (old(parser).scanner.tokens_parsed + old(parser).scanner.tokens.len()) as usize,
                mark: old(parser).reader.mark,
            };
            &&& !old(parser).scanner.simple_key_allowed ==> r && *final(parser) == *old(parser)
            &&& old(parser).scanner.simple_key_allowed ==> {
                &&& r == !(top.possible && top.required)
                &&& r ==> error_same(*old(parser), *final(parser))
                &&& r ==> final(parser).scanner.simple_keys@ == keys.update(keys.len() - 1, key)
                &&& !r ==> final(parser).error == yaml_error_type_t::YAML_SCANNER_ERROR
                &&& !r ==> final(parser).problem == Some("could not find expected ':'")
            }
        }),
{
    let required = parser.scanner.flow_level == 0 && parser.scanner.indent >= 0
        && parser.scanner.indent as usize == parser.reader.mark.column;
    if parser.scanner.simple_key_allowed {
        let key = yaml_simple_key_t {
            possible: true,
            required,
            token_number: parser.scanner.tokens_parsed + parser.scanner.tokens.len(),
            mark: parser.reader.mark,
        };
        if !yaml_parser_remove_simple_key(parser) {
            return false;
        }
        let top = parser.scanner.simple_keys.len() - 1;
        parser.scanner.simple_keys.set(top, key);
    }
    true
}

/// Enters a flow collection: a new level with no simple key yet.
pub fn yaml_parser_increase_flow_level(parser: &mut yaml_parser_t) -> (r: bool)
    requires
        old(parser).wf(),
        old(parser).scanner.stream_start_produced,
    ensures
        final(parser).wf(),
        final(parser).reader == old(parser).reader,
        parser_part_same(*old(parser), *final(parser)),
        r == (old(parser).scanner.flow_level < i32::MAX),
        r ==> error_same(*old(parser), *final(parser)),
        r ==> final(parser).scanner == (yaml_scanner_t {
            flow_level: (old(parser).scanner.flow_level + 1) as i32,
            simple_keys: final(parser).scanner.simple_keys,
            ..old(parser).scanner
        }),
        r ==> final(parser).scanner.simple_keys@ == old(parser).scanner.simple_keys@.push(
            yaml_simple_key_t {
                possible: false,
                required: false,
                token_number: 0,
                mark: yaml_mark_t { index: 0, line: 0, column: 0 },
            },
        ),
        !r ==> final(parser).error == yaml_error_type_t::YAML_MEMORY_ERROR,
        !r ==> final(parser).scanner == old(parser).scanner,
{
    if parser.scanner.flow_level == i32::MAX {
        parser.error = yaml_error_type_t::YAML_MEMORY_ERROR;
        return false;
    }
    parser.scanner.simple_keys.push(
        yaml_simple_key_t {
            possible: false,
            required: false,
            token_number: 0,
            mark: yaml_mark_t { index: 0, line: 0, column: 0 },
        },
    );
    parser.scanner.flow_level = parser.scanner.flow_level + 1;
    true
}

/// Leaves a flow collection (nothing happens outside of one).
pub fn yaml_parser_decrease_flow_level(parser: &mut yaml_parser_t)
    requires
        old(parser).wf(),
        old(parser).scanner.stream_start_produced,
    ensures
        final(parser).wf(),
        final(parser).reader == old(parser).reader,
        parser_part_same(*old(parser), *final(parser)),
        error_same(*old(parser), *final(parser)),
        old(parser).scanner.flow_level == 0 ==> final(parser).scanner == old(parser).scanner,
        old(parser).scanner.flow_level > 0 ==> final(parser).scanner == (yaml_scanner_t {
            flow_level: (old(parser).scanner.flow_level - 1) as i32,
            simple_keys: final(parser).scanner.simple_keys,
            ..old(parser).scanner
        }),
        old(parser).scanner.flow_level > 0 ==> final(parser).scanner.simple_keys@ == old(parser).scanner.simple_keys@.drop_last(),
{
    if parser.scanner.flow_level != 0 {
        parser.scanner.flow_level = parser.scanner.flow_level - 1;
        parser.scanner.simple_keys.pop();
    }
}

/// Opens a block collection at `column` when it is deeper than the current
/// indentation: the old indentation is pushed and a token of `type_` is
/// queued (at the end, or at position `number` of the whole token stream).
pub fn yaml_parser_roll_indent(
    parser: &mut yaml_parser_t,
    column: usize,
    number: Option<usize>,
    type_: yaml_token_type_t,
    mark: yaml_mark_t,
) -> (r: bool)
    requires
        old(parser).wf(),
        old(parser).scanner.stream_start_produced,
        number matches Some(n) ==> old(parser).scanner.tokens_parsed <= n <= old(parser).scanner.tokens_parsed + old(parser).scanner.tokens.len(),
    ensures
        final(parser).wf(),
        final(parser).reader == old(parser).reader,
        parser_part_same(*old(parser), *final(parser)),
        final(parser).scanner.simple_keys == old(parser).scanner.simple_keys,
        final(parser).scanner.tokens_parsed == old(parser).scanner.tokens_parsed,
        final(parser).scanner.flow_level == old(parser).scanner.flow_level,
        final(parser).scanner.simple_key_allowed == old(parser).scanner.simple_key_allowed,
        final(parser).scanner.stream_start_produced == old(parser).scanner.stream_start_produced,
        final(parser).scanner.stream_end_produced == old(parser).scanner.stream_end_produced,
        final(parser).scanner.token_available == old(parser).scanner.token_available,
        r ==> error_same(*old(parser), *final(parser)),
        !r ==> final(parser).error == yaml_error_type_t::YAML_MEMORY_ERROR,
        !r ==> final(parser).scanner.tokens == old(parser).scanner.tokens,
        final(parser).scanner.tokens.len() >= old(parser).scanner.tokens.len(),
        ({
            let sc = old(parser).scanner;
            let deeper = sc.flow_level == 0 && (sc.indent as int) < (column as int);
            let tok = yaml_token_t {
                type_: type_,
                data: crate::types::yaml_token_data_t::NoData,
                start_mark: mark,
                end_mark: mark,
            };
            &&& !deeper ==> r && *final(parser) == *old(parser)
            &&& (deeper && r) ==> {
                &&& final(parser).scanner.indents@ == sc.indents@.push(sc.indent)
                &&& final(parser).scanner.indent as int == column as int
                &&& match number {
                    None => final(parser).scanner.tokens@ == sc.tokens@.push(tok),
                    Some(n) => final(parser).scanner.tokens@ == sc.tokens@.insert(
                        n - sc.tokens_parsed,
                        tok,
                    ),
                }
            }
        }),
{
    if parser.scanner.flow_level != 0 {
        return true;
    }
    if parser.scanner.indent < 0 || (parser.scanner.indent as usize) < column {
        if column > i32::MAX as usize {
            parser.error = yaml_error_type_t::YAML_MEMORY_ERROR;
            return false;
        }
        let old_indent = parser.scanner.indent;
        parser.scanner.indents.push(old_indent);
        parser.scanner.indent = column as i32;
        let token = yaml_token_t {
            type_: type_,
            data: crate::types::yaml_token_data_t::NoData,
            start_mark: mark,
            end_mark: mark,
        };
        match number {
            None => {
                return enqueue_token(parser, token);
            },
            Some(n) => {
                let idx = n - parser.scanner.tokens_parsed;
                return insert_token(parser, idx, token);
            },
        }
    }
    true
}

/// All tokens queued after the first `from` are BLOCK-END tokens at `m`.
pub open spec fn block_ends_from(toks: Seq<yaml_token_t>, from: int, m: yaml_mark_t) -> bool {
    forall|i: int|
        from <= i < toks.len() ==> #[trigger] toks[i] == (yaml_token_t {
            type_: yaml_token_type_t::YAML_BLOCK_END_TOKEN,
            data: crate::types::yaml_token_data_t::NoData,
            start_mark: m,
            end_mark: m,
        })
}

/// Closes the block collections deeper than `column`: a BLOCK-END token
/// for each, restoring the indentation they replaced.
pub fn yaml_parser_unroll_indent(parser: &mut yaml_parser_t, column: i64) -> (r: bool)
    requires
        old(parser).wf(),
        old(parser).scanner.stream_start_produced,
        column >= -1,
    ensures
        final(parser).wf(),
        final(parser).reader == old(parser).reader,
        parser_part_same(*old(parser), *final(parser)),
        final(parser).scanner.simple_keys == old(parser).scanner.simple_keys,
        final(parser).scanner.tokens_parsed == old(parser).scanner.tokens_parsed,
        final(parser).scanner.flow_level == old(parser).scanner.flow_level,
        final(parser).scanner.simple_key_allowed == old(parser).scanner.simple_key_allowed,
        final(parser).scanner.stream_start_produced == old(parser).scanner.stream_start_produced,
        final(parser).scanner.stream_end_produced == old(parser).scanner.stream_end_produced,
        final(parser).scanner.token_available == old(parser).scanner.token_available,
        r ==> error_same(*old(parser), *final(parser)),
        !r ==> final(parser).error == yaml_error_type_t::YAML_MEMORY_ERROR,
        old(parser).scanner.flow_level != 0 ==> r && *final(parser) == *old(parser),
        final(parser).scanner.tokens.len() >= old(parser).scanner.tokens.len(),
        final(parser).scanner.tokens@.take(old(parser).scanner.tokens.len() as int)
            == old(parser).scanner.tokens@,
        block_ends_from(
            final(parser).scanner.tokens@,
            old(parser).scanner.tokens.len() as int,
            old(parser).reader.mark,
        ),
        r && old(parser).scanner.flow_level == 0 ==> final(parser).scanner.indent as int
            <= column,
        r && old(parser).scanner.flow_level == 0 ==> (final(parser).scanner.tokens.len()
            - old(parser).scanner.tokens.len() == old(parser).scanner.indents.len()
            - final(parser).scanner.indents.len()),
        final(parser).scanner.indents@ == old(parser).scanner.indents@.take(
            final(parser).scanner.indents.len() as int,
        ),
{
    if parser.scanner.flow_level != 0 {
        return true;
    }
    let m = parser.reader.mark;
    let ghost n0 = old(parser).scanner.tokens.len();
    while (parser.scanner.indent as i64) > column
        invariant
            parser.wf(),
            parser.scanner.stream_start_produced,
            old(parser).scanner.stream_start_produced,
            parser.scanner.flow_level == 0,
            old(parser).scanner.flow_level == 0,
            column >= -1,
            m == old(parser).reader.mark,
            parser.reader == old(parser).reader,
            parser_part_same(*old(parser), *parser),
            error_same(*old(parser), *parser),
            parser.scanner.simple_keys == old(parser).scanner.simple_keys,
            parser.scanner.tokens_parsed == old(parser).scanner.tokens_parsed,
            parser.scanner.simple_key_allowed == old(parser).scanner.simple_key_allowed,
            parser.scanner.stream_end_produced == old(parser).scanner.stream_end_produced,
            parser.scanner.token_available == old(parser).scanner.token_available,
            n0 == old(parser).scanner.tokens.len(),
            parser.scanner.tokens.len() >= n0,
            parser.scanner.tokens@.take(n0 as int) == old(parser).scanner.tokens@,
            block_ends_from(parser.scanner.tokens@, n0 as int, m),
            parser.scanner.tokens.len() - n0 == old(parser).scanner.indents.len()
                - parser.scanner.indents.len(),
            parser.scanner.indents@ == old(parser).scanner.indents@.take(
                parser.scanner.indents.len() as int,
            ),
        decreases parser.scanner.indents.len(),
    {
        let token = yaml_token_t {
            type_: yaml_token_type_t::YAML_BLOCK_END_TOKEN,
            data: crate::types::yaml_token_data_t::NoData,
            start_mark: m,
            end_mark: m,
        };
        let ghost before = parser.scanner.tokens@;
        if !enqueue_token(parser, token) {
            return false;
        }
        proof {
            assert(parser.scanner.tokens@.take(n0 as int) =~= before.take(n0 as int));
        }
        let v = parser.scanner.indents.pop().unwrap();
        parser.scanner.indent = v;
        proof {
            assert(parser.scanner.indents@ =~= old(parser).scanner.indents@.take(
                parser.scanner.indents.len() as int,
            ));
        }
    }
    true
}

/// What every fetching step keeps: the parser's own state, the input, the
/// tokens already handed out; tokens are only added; the characters read
/// so far only grow; and an error is reported exactly when it fails.
pub open spec fn fetch_post(a: yaml_parser_t, b: yaml_parser_t, r: bool) -> bool {
    &&& b.wf()
    &&& parser_part_same(a, b)
    &&& b.reader.input.input@ == a.reader.input.input@
    &&& b.reader.has_input == a.reader.has_input
    &&& b.scanner.tokens_parsed == a.scanner.tokens_parsed
    &&& b.scanner.token_available == a.scanner.token_available
    &&& b.scanner.stream_end_produced == a.scanner.stream_end_produced
    &&& b.scanner.tokens.len() >= a.scanner.tokens.len()
    &&& a.reader.history@.is_prefix_of(b.reader.history@)
    &&& b.reader.measure() <= a.reader.measure()
    &&& (r ==> b.error == yaml_error_type_t::YAML_NO_ERROR)
    &&& (!r ==> b.error != yaml_error_type_t::YAML_NO_ERROR && b.error
        != yaml_error_type_t::YAML_PARSER_ERROR)
    &&& (!r && b.error == yaml_error_type_t::YAML_READER_ERROR ==> reader_failed(b))
}

/// The precondition of every fetching step.
pub open spec fn fetch_pre(p: yaml_parser_t) -> bool {
    &&& p.wf()
    &&& p.error == yaml_error_type_t::YAML_NO_ERROR
    &&& p.scanner.stream_start_produced
}

/// A token without data between two marks.
pub open spec fn simple_token(t: yaml_token_type_t, s: yaml_mark_t, e: yaml_mark_t) -> yaml_token_t {
    yaml_token_t { type_: t, data: crate::types::yaml_token_data_t::NoData, start_mark: s, end_mark: e }
}

/// Queues the STREAM-START token (with the encoding of the input) and
/// opens the outermost level of simple keys.
pub fn yaml_parser_fetch_stream_start(parser: &mut yaml_parser_t) -> (r: bool)
    requires
        old(parser).wf(),
        old(parser).error == yaml_error_type_t::YAML_NO_ERROR,
        !old(parser).scanner.stream_start_produced,
    ensures
        fetch_post(*old(parser), *final(parser), r),
        final(parser).reader == old(parser).reader,
        r,
        final(parser).scanner.stream_start_produced,
        final(parser).scanner.indent == -1,
        final(parser).scanner.simple_key_allowed,
        final(parser).scanner.tokens@ == old(parser).scanner.tokens@.push(yaml_token_t {
            type_: yaml_token_type_t::YAML_STREAM_START_TOKEN,
            data: crate::types::yaml_token_data_t::StreamStart(
                crate::types::yaml_token_stream_start_t { encoding: old(parser).reader.encoding },
            ),
            start_mark: old(parser).reader.mark,
            end_mark: old(parser).reader.mark,
        }),
{
    parser.scanner.indent = -1;
    parser.scanner.simple_keys.push(
        yaml_simple_key_t {
            possible: false,
            required: false,
            token_number: 0,
            mark: yaml_mark_t { index: 0, line: 0, column: 0 },
        },
    );
    parser.scanner.simple_key_allowed = true;
    parser.scanner.stream_start_produced = true;
    let token = yaml_token_t {
        type_: yaml_token_type_t::YAML_STREAM_START_TOKEN,
        data: crate::types::yaml_token_data_t::StreamStart(
            crate::types::yaml_token_stream_start_t { encoding: parser.reader.encoding },
        ),
        start_mark: parser.reader.mark,
        end_mark: parser.reader.mark,
    };
    parser.scanner.tokens.push(token);
    true
}

/// Queues the STREAM-END token: the position moves to a new line, all block
/// collections are closed and no simple key may follow.
pub fn yaml_parser_fetch_stream_end(parser: &mut yaml_parser_t) -> (r: bool)
    requires
        fetch_pre(*old(parser)),
    ensures
        fetch_post(*old(parser), *final(parser), r),
        r ==> final(parser).scanner.tokens.len() > old(parser).scanner.tokens.len(),
        r ==> final(parser).scanner.ends_with_stream_end(),
        r ==> final(parser).reader.mark.column == 0,
        r ==> !final(parser).scanner.simple_key_allowed,
        r ==> final(parser).scanner.flow_level == 0 ==> final(parser).scanner.indent == -1,
{
    if parser.reader.mark.column != 0 {
        parser.reader.mark.column = 0;
        parser.reader.mark.line = parser.reader.mark.line + 1;
    }
    let ghost mid = *parser;
    if !yaml_parser_unroll_indent(parser, -1) {
        return false;
    }
    if !yaml_parser_remove_simple_key(parser) {
        return false;
    }
    parser.scanner.simple_key_allowed = false;
    let token = yaml_token_t {
        type_: yaml_token_type_t::YAML_STREAM_END_TOKEN,
        data: crate::types::yaml_token_data_t::NoData,
        start_mark: parser.reader.mark,
        end_mark: parser.reader.mark,
    };
    if !enqueue_token(parser, token) {
        return false;
    }
    true
}

/// Queues a DOCUMENT-START or DOCUMENT-END token for the three indicator
/// characters at the start of a line.
pub fn yaml_parser_fetch_document_indicator(parser: &mut yaml_parser_t, type_: yaml_token_type_t) -> (r: bool)
    requires
        fetch_pre(*old(parser)),
        old(parser).ch(0) != 0,
        old(parser).ch(1) != 0,
        old(parser).ch(2) != 0,
        !spec_is_break(old(parser).ch(0)),
        !spec_is_break(old(parser).ch(1)),
        !spec_is_break(old(parser).ch(2)),
    ensures
        fetch_post(*old(parser), *final(parser), r),
        r ==> final(parser).scanner.tokens.len() > old(parser).scanner.tokens.len(),
        r ==> final(parser).reader.measure() < old(parser).reader.measure(),
        r ==> !final(parser).scanner.simple_key_allowed,
        r ==> final(parser).scanner.tokens@.last() == simple_token(
            type_,
            old(parser).reader.mark,
            final(parser).reader.mark,
        ),
        r ==> final(parser).reader.mark.index == old(parser).reader.mark.index + 3,
{
    if !yaml_parser_unroll_indent(parser, -1) {
        return false;
    }
    if !yaml_parser_remove_simple_key(parser) {
        return false;
    }
    parser.scanner.simple_key_allowed = false;
    let start_mark = parser.reader.mark;
    let ghost h0 = parser.reader.history@;
    skip(parser);
    skip(parser);
    skip(parser);
    proof {
        assert(parser.reader.history@.take(h0.len() as int) =~= h0);
    }
    let end_mark = parser.reader.mark;
    let token = yaml_token_t {
        type_: type_,
        data: crate::types::yaml_token_data_t::NoData,
        start_mark,
        end_mark,
    };
    enqueue_token(parser, token)
}

/// A token that opens a flow collection ('[' or '{').
pub open spec fn opens_flow(t: yaml_token_type_t) -> bool {
    t == yaml_token_type_t::YAML_FLOW_SEQUENCE_START_TOKEN || t == yaml_token_type_t::YAML_FLOW_MAPPING_START_TOKEN
}

/// A token that closes a flow collection (']' or '}').
pub open spec fn closes_flow(t: yaml_token_type_t) -> bool {
    t == yaml_token_type_t::YAML_FLOW_SEQUENCE_END_TOKEN || t == yaml_token_type_t::YAML_FLOW_MAPPING_END_TOKEN
}

/// The flow level after a token of kind `t` at level `level`: one deeper
/// after the start of a flow collection, one shallower (never below zero)
/// after its end, the same after any other token.
pub open spec fn flow_after(level: int, t: yaml_token_type_t) -> int {
    if opens_flow(t) {
        level + 1
    } else if closes_flow(t) {
        if level > 0 {
            level - 1
        } else {
            0
        }
    } else {
        level
    }
}

/// Queues a FLOW-SEQUENCE-START or FLOW-MAPPING-START token for '[' or '{':
/// a simple key may start here and inside.
pub fn yaml_parser_fetch_flow_collection_start(parser: &mut yaml_parser_t, type_: yaml_token_type_t) -> (r: bool)
    requires
        fetch_pre(*old(parser)),
        old(parser).ch(0) != 0,
        !spec_is_break(old(parser).ch(0)),
    ensures
        fetch_post(*old(parser), *final(parser), r),
        r ==> final(parser).reader.measure() < old(parser).reader.measure(),
        r ==> final(parser).scanner.simple_key_allowed,
        r ==> final(parser).scanner.flow_level == old(parser).scanner.flow_level + 1,
        r && opens_flow(type_) ==> final(parser).scanner.flow_level == flow_after(
            old(parser).scanner.flow_level as int,
            type_,
        ),
        r ==> final(parser).scanner.tokens@ == old(parser).scanner.tokens@.push(simple_token(
            type_,
            old(parser).reader.mark,
            final(parser).reader.mark,
        )),
{
    if !yaml_parser_save_simple_key(parser) {
        return false;
    }
    if !yaml_parser_increase_flow_level(parser) {
        return false;
    }
    parser.scanner.simple_key_allowed = true;
    let start_mark = parser.reader.mark;
    let ghost h0 = parser.reader.history@;
    skip(parser);
    proof {
        assert(parser.reader.history@.take(h0.len() as int) =~= h0);
    }
    let end_mark = parser.reader.mark;
    let token = yaml_token_t {
        type_: type_,
        data: crate::types::yaml_token_data_t::NoData,
        start_mark,
        end_mark,
    };
    enqueue_token(parser, token)
}

/// Queues a FLOW-SEQUENCE-END or FLOW-MAPPING-END token for ']' or '}'.
pub fn yaml_parser_fetch_flow_collection_end(parser: &mut yaml_parser_t, type_: yaml_token_type_t) -> (r: bool)
    requires
        fetch_pre(*old(parser)),
        old(parser).ch(0) != 0,
        !spec_is_break(old(parser).ch(0)),
    ensures
        fetch_post(*old(parser), *final(parser), r),
        r ==> final(parser).reader.measure() < old(parser).reader.measure(),
        r ==> !final(parser).scanner.simple_key_allowed,
        r ==> final(parser).scanner.flow_level == if old(parser).scanner.flow_level > 0 {
            old(parser).scanner.flow_level - 1
        } else {
            0
        },
        r && closes_flow(type_) ==> final(parser).scanner.flow_level == flow_after(
            old(parser).scanner.flow_level as int,
            type_,
        ),
        r ==> final(parser).scanner.tokens@ == old(parser).scanner.tokens@.push(simple_token(
            type_,
            old(parser).reader.mark,
            final(parser).reader.mark,
        )),
{
    if !yaml_parser_remove_simple_key(parser) {
        return false;
    }
    yaml_parser_decrease_flow_level(parser);
    parser.scanner.simple_key_allowed = false;
    let start_mark = parser.reader.mark;
    let ghost h0 = parser.reader.history@;
    skip(parser);
    proof {
        assert(parser.reader.history@.take(h0.len() as int) =~= h0);
    }
    let end_mark = parser.reader.mark;
    let token = yaml_token_t {
        type_: type_,
        data: crate::types::yaml_token_data_t::NoData,
        start_mark,
        end_mark,
    };
    enqueue_token(parser, token)
}

/// Queues a FLOW-ENTRY token for ','.
pub fn yaml_parser_fetch_flow_entry(parser: &mut yaml_parser_t) -> (r: bool)
    requires
        fetch_pre(*old(parser)),
        old(parser).ch(0) != 0,
        !spec_is_break(old(parser).ch(0)),
    ensures
        fetch_post(*old(parser), *final(parser), r),
        r ==> final(parser).reader.measure() < old(parser).reader.measure(),
        r ==> final(parser).scanner.simple_key_allowed,
        r ==> final(parser).scanner.tokens@ == old(parser).scanner.tokens@.push(simple_token(
            yaml_token_type_t::YAML_FLOW_ENTRY_TOKEN,
            old(parser).reader.mark,
            final(parser).reader.mark,
        )),
{
    if !yaml_parser_remove_simple_key(parser) {
        return false;
    }
    parser.scanner.simple_key_allowed = true;
    let start_mark = parser.reader.mark;
    let ghost h0 = parser.reader.history@;
    skip(parser);
    proof {
        assert(parser.reader.history@.take(h0.len() as int) =~= h0);
    }
    let end_mark = parser.reader.mark;
    let token = simple_token_new(yaml_token_type_t::YAML_FLOW_ENTRY_TOKEN, start_mark, end_mark);
    enqueue_token(parser, token)
}

pub fn simple_token_new(t: yaml_token_type_t, s: yaml_mark_t, e: yaml_mark_t) -> (tok: yaml_token_t)
    ensures
        tok == simple_token(t, s, e),
{
    yaml_token_t { type_: t, data: crate::types::yaml_token_data_t::NoData, start_mark: s, end_mark: e }
}

/// Queues a BLOCK-ENTRY token for '-'; in block context it may open a
/// block sequence, and is an error where simple keys are not allowed.
pub fn yaml_parser_fetch_block_entry(parser: &mut yaml_parser_t) -> (r: bool)
    requires
        fetch_pre(*old(parser)),
        old(parser).ch(0) != 0,
        !spec_is_break(old(parser).ch(0)),
    ensures
        fetch_post(*old(parser), *final(parser), r),
        r ==> final(parser).scanner.tokens.len() > old(parser).scanner.tokens.len(),
        r ==> final(parser).reader.measure() < old(parser).reader.measure(),
        r ==> final(parser).scanner.simple_key_allowed,
        r ==> final(parser).scanner.tokens@.last() == simple_token(
            yaml_token_type_t::YAML_BLOCK_ENTRY_TOKEN,
            old(parser).reader.mark,
            final(parser).reader.mark,
        ),
        old(parser).scanner.flow_level == 0 && !old(parser).scanner.simple_key_allowed ==> !r
            && final(parser).error == yaml_error_type_t::YAML_SCANNER_ERROR && final(parser).problem == Some("block sequence entries are not allowed in this context"),
{
    if parser.scanner.flow_level == 0 {
        if !parser.scanner.simple_key_allowed {
            return yaml_parser_set_scanner_error(
                parser,
                None,
                parser.reader.mark,
                "block sequence entries are not allowed in this context",
            );
        }
        let col = parser.reader.mark.column;
        let m = parser.reader.mark;
        if !yaml_parser_roll_indent(
            parser,
            col,
            None,
            yaml_token_type_t::YAML_BLOCK_SEQUENCE_START_TOKEN,
            m,
        ) {
            return false;
        }
    }
    if !yaml_parser_remove_simple_key(parser) {
        return false;
    }
    parser.scanner.simple_key_allowed = true;
    let start_mark = parser.reader.mark;
    let ghost h0 = parser.reader.history@;
    skip(parser);
    proof {
        assert(parser.reader.history@.take(h0.len() as int) =~= h0);
    }
    let end_mark = parser.reader.mark;
    let token = simple_token_new(yaml_token_type_t::YAML_BLOCK_ENTRY_TOKEN, start_mark, end_mark);
    enqueue_token(parser, token)
}

/// Queues a KEY token for '?'; in block context it may open a block
/// mapping, and is an error where simple keys are not allowed.
pub fn yaml_parser_fetch_key(parser: &mut yaml_parser_t) -> (r: bool)
    requires
        fetch_pre(*old(parser)),
        old(parser).ch(0) != 0,
        !spec_is_break(old(parser).ch(0)),
    ensures
        fetch_post(*old(parser), *final(parser), r),
        r ==> final(parser).scanner.tokens.len() > old(parser).scanner.tokens.len(),
        r ==> final(parser).reader.measure() < old(parser).reader.measure(),
        r ==> final(parser).scanner.simple_key_allowed == (old(parser).scanner.flow_level == 0),
        r ==> final(parser).scanner.tokens@.last() == simple_token(
            yaml_token_type_t::YAML_KEY_TOKEN,
            old(parser).reader.mark,
            final(parser).reader.mark,
        ),
        old(parser).scanner.flow_level == 0 && !old(parser).scanner.simple_key_allowed ==> !r
            && final(parser).error == yaml_error_type_t::YAML_SCANNER_ERROR && final(parser).problem == Some("mapping keys are not allowed in this context"),
{
    if parser.scanner.flow_level == 0 {
        if !parser.scanner.simple_key_allowed {
            return yaml_parser_set_scanner_error(
                parser,
                None,
                parser.reader.mark,
                "mapping keys are not allowed in this context",
            );
        }
        let col = parser.reader.mark.column;
        let m = parser.reader.mark;
        if !yaml_parser_roll_indent(
            parser,
            col,
            None,
            yaml_token_type_t::YAML_BLOCK_MAPPING_START_TOKEN,
            m,
        ) {
            return false;
        }
    }
    if !yaml_parser_remove_simple_key(parser) {
        return false;
    }
    parser.scanner.simple_key_allowed = parser.scanner.flow_level == 0;
    let start_mark = parser.reader.mark;
    let ghost h0 = parser.reader.history@;
    skip(parser);
    proof {
        assert(parser.reader.history@.take(h0.len() as int) =~= h0);
    }
    let end_mark = parser.reader.mark;
    let token = simple_token_new(yaml_token_type_t::YAML_KEY_TOKEN, start_mark, end_mark);
    enqueue_token(parser, token)
}

/// Queues a VALUE token for ':'. When a simple key is pending, a KEY token
/// is first inserted where the key started (opening a block mapping there
/// in block context); otherwise, in block context, a block mapping may be
/// opened here, and ':' is an error where simple keys are not allowed.
pub fn yaml_parser_fetch_value(parser: &mut yaml_parser_t) -> (r: bool)
    requires
        fetch_pre(*old(parser)),
        old(parser).ch(0) != 0,
        !spec_is_break(old(parser).ch(0)),
    ensures
        fetch_post(*old(parser), *final(parser), r),
        r ==> final(parser).scanner.tokens.len() > old(parser).scanner.tokens.len(),
        r ==> final(parser).reader.measure() < old(parser).reader.measure(),
        r ==> final(parser).scanner.tokens@.last() == simple_token(
            yaml_token_type_t::YAML_VALUE_TOKEN,
            old(parser).reader.mark,
            final(parser).reader.mark,
        ),
        ({
            let key = old(parser).scanner.simple_keys@.last();
            &&& (key.possible && r) ==> {
                &&& final(parser).scanner.tokens@[key.token_number - old(parser).scanner.tokens_parsed
                    + if old(parser).scanner.flow_level == 0 && (old(parser).scanner.indent as int)
                    < (key.mark.column as int) {
                    1int
                } else {
                    0int
                }] == simple_token(yaml_token_type_t::YAML_KEY_TOKEN, key.mark, key.mark)
                &&& !final(parser).scanner.simple_key_allowed
                &&& !final(parser).scanner.simple_keys@.last().possible
            }
            &&& (!key.possible && old(parser).scanner.flow_level == 0
                && !old(parser).scanner.simple_key_allowed) ==> !r && final(parser).error
                == yaml_error_type_t::YAML_SCANNER_ERROR && final(parser).problem == Some(
                "mapping values are not allowed in this context",
            )
            &&& (!key.possible && r) ==> final(parser).scanner.simple_key_allowed == (old(parser).scanner.flow_level == 0)
        }),
{
    let top = parser.scanner.simple_keys.len() - 1;
    let key = parser.scanner.simple_keys[top];
    if key.possible {
        let tok = simple_token_new(yaml_token_type_t::YAML_KEY_TOKEN, key.mark, key.mark);
        let idx = key.token_number - parser.scanner.tokens_parsed;
        if !insert_token(parser, idx, tok) {
            return false;
        }
        let ghost after_insert = parser.scanner.tokens@;
        assert(after_insert[idx as int] == tok);
        if !yaml_parser_roll_indent(
            parser,
            key.mark.column,
            Some(key.token_number),
            yaml_token_type_t::YAML_BLOCK_MAPPING_START_TOKEN,
            key.mark,
        ) {
            return false;
        }
        proof {
            if parser.scanner.tokens.len() > after_insert.len() {
                assert(parser.scanner.tokens@[idx + 1] == after_insert[idx as int]);
            }
        }
        parser.scanner.simple_keys.set(top, yaml_simple_key_t { possible: false, ..key });
        parser.scanner.simple_key_allowed = false;
    } else {
        if parser.scanner.flow_level == 0 {
            if !parser.scanner.simple_key_allowed {
                return yaml_parser_set_scanner_error(
                    parser,
                    None,
                    parser.reader.mark,
                    "mapping values are not allowed in this context",
                );
            }
            let col = parser.reader.mark.column;
            let m = parser.reader.mark;
            if !yaml_parser_roll_indent(
                parser,
                col,
                None,
                yaml_token_type_t::YAML_BLOCK_MAPPING_START_TOKEN,
                m,
            ) {
                return false;
            }
        }
        parser.scanner.simple_key_allowed = parser.scanner.flow_level == 0;
    }
    let ghost before_skip = parser.scanner.tokens@;
    let start_mark = parser.reader.mark;
    let ghost h0 = parser.reader.history@;
    skip(parser);
    proof {
        assert(parser.reader.history@.take(h0.len() as int) =~= h0);
    }
    let end_mark = parser.reader.mark;
    let token = simple_token_new(yaml_token_type_t::YAML_VALUE_TOKEN, start_mark, end_mark);
    enqueue_token(parser, token)
}

} // verus!
