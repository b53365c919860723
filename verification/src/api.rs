use vstd::prelude::*;
use crate::reader::{
    yaml_reader_t, yaml_parser_input_string_t, yaml_parser_buffer_t, yaml_raw_buffer_t,
};
use crate::scanner::{yaml_parser_t, yaml_scanner_t};
use crate::types::{
    yaml_encoding_t, yaml_error_type_t, yaml_mark_t, yaml_mark_zero, zero_mark, yaml_token_t,
    yaml_event_t, spec_no_token, spec_no_event, yaml_token_empty, yaml_event_empty,
    yaml_parser_state_t, yaml_parser_state_stack_t, yaml_tag_directive_stack_t,
    YAML_VERSION_MAJOR, YAML_VERSION_MINOR, YAML_VERSION_PATCH,
};

verus! {

/// The default bound on the nesting of collections.
pub const YAML_DEFAULT_MAX_NEST_LEVEL: i32 = 1000;

/// The version of the library as a string.
pub fn yaml_get_version_string() -> (s: &'static str)
    ensures
        s@ == "0.2.5"@,
{
    "0.2.5"
}

/// The version of the library as three numbers.
pub fn yaml_get_version(major: &mut i32, minor: &mut i32, patch: &mut i32)
    ensures
        *final(major) == 0,
        *final(minor) == 2,
        *final(patch) == 5,
{
    *major = YAML_VERSION_MAJOR;
    *minor = YAML_VERSION_MINOR;
    *patch = YAML_VERSION_PATCH;
}

/// A reader that has no input and has read nothing.
pub open spec fn is_fresh_reader(r: yaml_reader_t) -> bool {
    &&& reader_unused(r)
    &&& r.encoding == yaml_encoding_t::YAML_ANY_ENCODING
    &&& r.history@.len() == 0
}

/// A reader that has been given no input and has read nothing (what it
/// records of the characters read aside).
pub open spec fn reader_unused(r: yaml_reader_t) -> bool {
    &&& r.input.input@.len() == 0
    &&& r.input.current == 0
    &&& !r.has_input
    &&& !r.eof
    &&& r.buffer.chars@.len() == 0
    &&& r.buffer.pointer == 0
    &&& r.raw_buffer.bytes@.len() == 0
    &&& r.raw_buffer.pointer == 0
    &&& r.offset == 0
    &&& r.mark == zero_mark()
}

/// A scanner that has produced nothing.
pub open spec fn is_fresh_scanner(s: yaml_scanner_t) -> bool {
    &&& !s.stream_start_produced
    &&& !s.stream_end_produced
    &&& s.flow_level == 0
    &&& s.tokens@.len() == 0
    &&& s.tokens_parsed == 0
    &&& !s.token_available
    &&& s.indents@.len() == 0
    &&& s.indent == 0
    &&& !s.simple_key_allowed
    &&& s.simple_keys@.len() == 0
}

/// A parser as `yaml_parser_initialize` makes it: no error, nothing read,
/// nothing scanned, and the stream start expected.
pub open spec fn is_fresh_parser(p: yaml_parser_t) -> bool {
    &&& p.error == yaml_error_type_t::YAML_NO_ERROR
    &&& p.problem is None
    &&& p.problem_offset == 0
    &&& p.problem_value == 0
    &&& p.problem_mark == zero_mark()
    &&& p.context is None
    &&& p.context_mark == zero_mark()
    &&& is_fresh_reader(p.reader)
    &&& is_fresh_scanner(p.scanner)
    &&& p.states.items@.len() == 0
    &&& p.state == yaml_parser_state_t::YAML_PARSE_STREAM_START_STATE
    &&& p.marks@.len() == 0
    &&& p.tag_directives.items@.len() == 0
    &&& p.max_nest_level == YAML_DEFAULT_MAX_NEST_LEVEL
    &&& p.handed@.len() == 0
}

/// Makes a parser with no input, ready to read the start of a stream.
pub fn yaml_parser_initialize() -> (parser: yaml_parser_t)
    ensures
        is_fresh_parser(parser),
        parser.wf(),
{
    let reader = yaml_reader_t {
        input: yaml_parser_input_string_t { input: Vec::new(), current: 0 },
        has_input: false,
        eof: false,
        buffer: yaml_parser_buffer_t { chars: Vec::new(), pointer: 0 },
        raw_buffer: yaml_raw_buffer_t { bytes: Vec::new(), pointer: 0 },
        encoding: yaml_encoding_t::YAML_ANY_ENCODING,
        offset: 0,
        mark: yaml_mark_zero(),
        history: Ghost(Seq::empty()),
    };
    let scanner = yaml_scanner_t {
        stream_start_produced: false,
        stream_end_produced: false,
        flow_level: 0,
        tokens: Vec::new(),
        tokens_parsed: 0,
        token_available: false,
        indents: Vec::new(),
        indent: 0,
        simple_key_allowed: false,
        simple_keys: Vec::new(),
    };
    yaml_parser_t {
        error: yaml_error_type_t::YAML_NO_ERROR,
        problem: None,
        problem_offset: 0,
        problem_value: 0,
        problem_mark: yaml_mark_zero(),
        context: None,
        context_mark: yaml_mark_zero(),
        reader,
        scanner,
        states: yaml_parser_state_stack_t { items: Vec::new() },
        state: yaml_parser_state_t::YAML_PARSE_STREAM_START_STATE,
        marks: Vec::new(),
        tag_directives: yaml_tag_directive_stack_t { items: Vec::new() },
        max_nest_level: YAML_DEFAULT_MAX_NEST_LEVEL,
        handed: Ghost(Seq::empty()),
    }
}

/// Releases what the parser holds and leaves it as a fresh parser.
pub fn yaml_parser_delete(parser: &mut yaml_parser_t)
    ensures
        is_fresh_parser(*final(parser)),
        final(parser).wf(),
{
    *parser = yaml_parser_initialize();
}

/// Whether the parser has been given no input and has read nothing, so
/// that an input can be set.
pub fn is_fresh_input(parser: &yaml_parser_t) -> (r: bool)
    ensures
        r == reader_unused(parser.reader),
{
    let r = &parser.reader;
    r.input.input.len() == 0 && r.input.current == 0 && !r.has_input && !r.eof
        && r.buffer.chars.len() == 0 && r.buffer.pointer == 0 && r.raw_buffer.bytes.len() == 0
        && r.raw_buffer.pointer == 0 && r.offset == 0 && r.mark.index == 0 && r.mark.line == 0 && r.mark.column == 0
}

/// Gives a parser that has no input yet the octets of a string to read.
pub fn yaml_parser_set_input_string(parser: &mut yaml_parser_t, input: &[u8])
    requires
        reader_unused(old(parser).reader),
        input@.len() < usize::MAX / 2,
    ensures
        final(parser).reader.input.input@ == input@,
        final(parser).reader.has_input,
        final(parser).reader == (yaml_reader_t {
            input: final(parser).reader.input,
            has_input: true,
            ..old(parser).reader
        }),
        final(parser).reader.input.current == 0,
        final(parser).scanner == old(parser).scanner,
        crate::scanner::parser_part_same(*old(parser), *final(parser)),
        crate::scanner::error_same(*old(parser), *final(parser)),
        old(parser).scanner.wf() ==> final(parser).wf(),
{
    let mut bytes: Vec<u8> = Vec::new();
    let mut i: usize = 0;
    while i < input.len()
        invariant
            i <= input@.len(),
            bytes@ == input@.subrange(0, i as int),
        decreases input@.len() - i,
    {
        bytes.push(input[i]);
        i = i + 1;
        assert(bytes@ =~= input@.subrange(0, i as int));
    }
    assert(bytes@ =~= input@);
    parser.reader.input = yaml_parser_input_string_t { input: bytes, current: 0 };
    parser.reader.has_input = true;
}

/// Fixes the encoding of the input of a parser whose encoding is not
/// known yet (it is otherwise found from the first octets).
pub fn yaml_parser_set_encoding(parser: &mut yaml_parser_t, encoding: yaml_encoding_t)
    requires
        old(parser).reader.encoding == yaml_encoding_t::YAML_ANY_ENCODING,
    ensures
        *final(parser) == (yaml_parser_t {
            reader: yaml_reader_t { encoding, ..old(parser).reader },
            ..*old(parser)
        }),
        old(parser).wf() ==> final(parser).wf(),
{
    parser.reader.encoding = encoding;
}

/// Releases what a token holds and leaves it empty.
pub fn yaml_token_delete(token: &mut yaml_token_t)
    ensures
        *final(token) == spec_no_token(),
{
    *token = yaml_token_empty();
}

/// Releases what an event holds and leaves it empty.
pub fn yaml_event_delete(event: &mut yaml_event_t)
    ensures
        *final(event) == spec_no_event(),
{
    *event = yaml_event_empty();
}

} // verus!
