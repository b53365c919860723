use vstd::prelude::*;

verus! {

// ---------------------------------------------------------------------------
// Version
// ---------------------------------------------------------------------------

pub const YAML_VERSION_MAJOR: i32 = 0;

pub const YAML_VERSION_MINOR: i32 = 2;

pub const YAML_VERSION_PATCH: i32 = 5;

/// Size of the chunk of raw input that one read fills.
pub const INPUT_RAW_BUFFER_SIZE: usize = 16384;

/// Size of the output buffer of an emitter.
pub const OUTPUT_BUFFER_SIZE: usize = 16384;

// ---------------------------------------------------------------------------
// Enumerations
// ---------------------------------------------------------------------------

#[derive(Clone, Copy, Debug, PartialEq, Eq, Structural)]
pub enum yaml_encoding_t {
    YAML_ANY_ENCODING,
    YAML_UTF8_ENCODING,
    YAML_UTF16LE_ENCODING,
    YAML_UTF16BE_ENCODING,
}

#[derive(Clone, Copy, Debug, PartialEq, Eq, Structural)]
pub enum yaml_break_t {
    YAML_ANY_BREAK,
    YAML_CR_BREAK,
    YAML_LN_BREAK,
    YAML_CRLN_BREAK,
}

#[derive(Clone, Copy, Debug, PartialEq, Eq, Structural)]
pub enum yaml_error_type_t {
    YAML_NO_ERROR,
    YAML_MEMORY_ERROR,
    YAML_READER_ERROR,
    YAML_SCANNER_ERROR,
    YAML_PARSER_ERROR,
    YAML_COMPOSER_ERROR,
    YAML_WRITER_ERROR,
    YAML_EMITTER_ERROR,
}

#[derive(Clone, Copy, Debug, PartialEq, Eq, Structural)]
pub enum yaml_scalar_style_t {
    YAML_ANY_SCALAR_STYLE,
    YAML_PLAIN_SCALAR_STYLE,
    YAML_SINGLE_QUOTED_SCALAR_STYLE,
    YAML_DOUBLE_QUOTED_SCALAR_STYLE,
    YAML_LITERAL_SCALAR_STYLE,
    YAML_FOLDED_SCALAR_STYLE,
}

#[derive(Clone, Copy, Debug, PartialEq, Eq, Structural)]
pub enum yaml_sequence_style_t {
    YAML_ANY_SEQUENCE_STYLE,
    YAML_BLOCK_SEQUENCE_STYLE,
    YAML_FLOW_SEQUENCE_STYLE,
}

#[derive(Clone, Copy, Debug, PartialEq, Eq, Structural)]
pub enum yaml_mapping_style_t {
    YAML_ANY_MAPPING_STYLE,
    YAML_BLOCK_MAPPING_STYLE,
    YAML_FLOW_MAPPING_STYLE,
}

#[derive(Clone, Copy, Debug, PartialEq, Eq, Structural)]
pub enum yaml_token_type_t {
    YAML_NO_TOKEN,
    YAML_STREAM_START_TOKEN,
    YAML_STREAM_END_TOKEN,
    YAML_VERSION_DIRECTIVE_TOKEN,
    YAML_TAG_DIRECTIVE_TOKEN,
    YAML_DOCUMENT_START_TOKEN,
    YAML_DOCUMENT_END_TOKEN,
    YAML_BLOCK_SEQUENCE_START_TOKEN,
    YAML_BLOCK_MAPPING_START_TOKEN,
    YAML_BLOCK_END_TOKEN,
    YAML_FLOW_SEQUENCE_START_TOKEN,
    YAML_FLOW_SEQUENCE_END_TOKEN,
    YAML_FLOW_MAPPING_START_TOKEN,
    YAML_FLOW_MAPPING_END_TOKEN,
    YAML_BLOCK_ENTRY_TOKEN,
    YAML_FLOW_ENTRY_TOKEN,
    YAML_KEY_TOKEN,
    YAML_VALUE_TOKEN,
    YAML_ALIAS_TOKEN,
    YAML_ANCHOR_TOKEN,
    YAML_TAG_TOKEN,
    YAML_SCALAR_TOKEN,
}

#[derive(Clone, Copy, Debug, PartialEq, Eq, Structural)]
pub enum yaml_event_type_t {
    YAML_NO_EVENT,
    YAML_STREAM_START_EVENT,
    YAML_STREAM_END_EVENT,
    YAML_DOCUMENT_START_EVENT,
    YAML_DOCUMENT_END_EVENT,
    YAML_ALIAS_EVENT,
    YAML_SCALAR_EVENT,
    YAML_SEQUENCE_START_EVENT,
    YAML_SEQUENCE_END_EVENT,
    YAML_MAPPING_START_EVENT,
    YAML_MAPPING_END_EVENT,
}

#[derive(Clone, Copy, Debug, PartialEq, Eq, Structural)]
pub enum yaml_node_type_t {
    YAML_NO_NODE,
    YAML_SCALAR_NODE,
    YAML_SEQUENCE_NODE,
    YAML_MAPPING_NODE,
}

#[derive(Clone, Copy, Debug, PartialEq, Eq, Structural)]
pub enum yaml_parser_state_t {
    YAML_PARSE_STREAM_START_STATE,
    YAML_PARSE_IMPLICIT_DOCUMENT_START_STATE,
    YAML_PARSE_DOCUMENT_START_STATE,
    YAML_PARSE_DOCUMENT_CONTENT_STATE,
    YAML_PARSE_DOCUMENT_END_STATE,
    YAML_PARSE_BLOCK_NODE_STATE,
    YAML_PARSE_BLOCK_NODE_OR_INDENTLESS_SEQUENCE_STATE,
    YAML_PARSE_FLOW_NODE_STATE,
    YAML_PARSE_BLOCK_SEQUENCE_FIRST_ENTRY_STATE,
    YAML_PARSE_BLOCK_SEQUENCE_ENTRY_STATE,
    YAML_PARSE_INDENTLESS_SEQUENCE_ENTRY_STATE,
    YAML_PARSE_BLOCK_MAPPING_FIRST_KEY_STATE,
    YAML_PARSE_BLOCK_MAPPING_KEY_STATE,
    YAML_PARSE_BLOCK_MAPPING_VALUE_STATE,
    YAML_PARSE_FLOW_SEQUENCE_FIRST_ENTRY_STATE,
    YAML_PARSE_FLOW_SEQUENCE_ENTRY_STATE,
    YAML_PARSE_FLOW_SEQUENCE_ENTRY_MAPPING_KEY_STATE,
    YAML_PARSE_FLOW_SEQUENCE_ENTRY_MAPPING_VALUE_STATE,
    YAML_PARSE_FLOW_SEQUENCE_ENTRY_MAPPING_END_STATE,
    YAML_PARSE_FLOW_MAPPING_FIRST_KEY_STATE,
    YAML_PARSE_FLOW_MAPPING_KEY_STATE,
    YAML_PARSE_FLOW_MAPPING_VALUE_STATE,
    YAML_PARSE_FLOW_MAPPING_EMPTY_VALUE_STATE,
    YAML_PARSE_END_STATE,
}

#[derive(Clone, Copy, Debug, PartialEq, Eq, Structural)]
pub enum yaml_emitter_state_t {
    YAML_EMIT_STREAM_START_STATE,
    YAML_EMIT_FIRST_DOCUMENT_START_STATE,
    YAML_EMIT_DOCUMENT_START_STATE,
    YAML_EMIT_DOCUMENT_CONTENT_STATE,
    YAML_EMIT_DOCUMENT_END_STATE,
    YAML_EMIT_FLOW_SEQUENCE_FIRST_ITEM_STATE,
    YAML_EMIT_FLOW_SEQUENCE_ITEM_STATE,
    YAML_EMIT_FLOW_MAPPING_FIRST_KEY_STATE,
    YAML_EMIT_FLOW_MAPPING_KEY_STATE,
    YAML_EMIT_FLOW_MAPPING_SIMPLE_VALUE_STATE,
    YAML_EMIT_FLOW_MAPPING_VALUE_STATE,
    YAML_EMIT_BLOCK_SEQUENCE_FIRST_ITEM_STATE,
    YAML_EMIT_BLOCK_SEQUENCE_ITEM_STATE,
    YAML_EMIT_BLOCK_MAPPING_FIRST_KEY_STATE,
    YAML_EMIT_BLOCK_MAPPING_KEY_STATE,
    YAML_EMIT_BLOCK_MAPPING_SIMPLE_VALUE_STATE,
    YAML_EMIT_BLOCK_MAPPING_VALUE_STATE,
    YAML_EMIT_END_STATE,
}

// ---------------------------------------------------------------------------
// Marks and directives
// ---------------------------------------------------------------------------

/// A position in the input: characters read, lines read, column.
#[derive(Clone, Copy, Debug, PartialEq, Eq, Structural)]
pub struct yaml_mark_t {
    pub index: usize,
    pub line: usize,
    pub column: usize,
}

pub open spec fn zero_mark() -> yaml_mark_t {
    yaml_mark_t { index: 0, line: 0, column: 0 }
}

pub fn yaml_mark_zero() -> (m: yaml_mark_t)
    ensures
        m == zero_mark(),
{
    yaml_mark_t { index: 0, line: 0, column: 0 }
}

#[derive(Clone, Copy, Debug, PartialEq, Eq, Structural)]
pub struct yaml_version_directive_t {
    pub major: i32,
    pub minor: i32,
}

#[derive(Clone, Debug)]
pub struct yaml_tag_directive_t {
    pub handle: Vec<u8>,
    pub prefix: Vec<u8>,
}

/// The value of a tag directive: its handle and its prefix.
pub open spec fn tag_directive_view(t: yaml_tag_directive_t) -> (Seq<u8>, Seq<u8>) {
    (t.handle@, t.prefix@)
}

pub open spec fn tag_directives_view(ts: Seq<yaml_tag_directive_t>) -> Seq<(Seq<u8>, Seq<u8>)> {
    ts.map_values(|t: yaml_tag_directive_t| tag_directive_view(t))
}

/// A stack of tag directives.
#[derive(Clone, Debug)]
pub struct yaml_tag_directive_stack_t {
    pub items: Vec<yaml_tag_directive_t>,
}

/// A range of tag directives owned by a document.
#[derive(Clone, Debug)]
pub struct yaml_tag_directive_range_t {
    pub items: Vec<yaml_tag_directive_t>,
}

/// A growable octet string used while a scalar is being assembled.
#[derive(Clone, Debug)]
pub struct yaml_string_t {
    pub data: Vec<u8>,
}

// ---------------------------------------------------------------------------
// Tokens
// ---------------------------------------------------------------------------

#[derive(Clone, Copy, Debug, PartialEq, Eq, Structural)]
pub struct yaml_token_stream_start_t {
    pub encoding: yaml_encoding_t,
}

#[derive(Clone, Debug)]
pub struct yaml_token_alias_t {
    pub value: Vec<u8>,
}

#[derive(Clone, Debug)]
pub struct yaml_token_anchor_t {
    pub value: Vec<u8>,
}

#[derive(Clone, Debug)]
pub struct yaml_token_tag_t {
    pub handle: Vec<u8>,
    pub suffix: Vec<u8>,
}

#[derive(Clone, Debug)]
pub struct yaml_token_scalar_t {
    pub value: Vec<u8>,
    pub style: yaml_scalar_style_t,
}

#[derive(Clone, Copy, Debug, PartialEq, Eq, Structural)]
pub struct yaml_token_version_directive_t {
    pub major: i32,
    pub minor: i32,
}

#[derive(Clone, Debug)]
pub struct yaml_token_tag_directive_t {
    pub handle: Vec<u8>,
    pub prefix: Vec<u8>,
}

/// The data a token carries, by kind.
#[derive(Clone, Debug)]
pub enum yaml_token_data_t {
    NoData,
    StreamStart(yaml_token_stream_start_t),
    Alias(yaml_token_alias_t),
    Anchor(yaml_token_anchor_t),
    Tag(yaml_token_tag_t),
    Scalar(yaml_token_scalar_t),
    VersionDirective(yaml_token_version_directive_t),
    TagDirective(yaml_token_tag_directive_t),
}

#[derive(Clone, Debug)]
pub struct yaml_token_t {
    pub type_: yaml_token_type_t,
    pub data: yaml_token_data_t,
    pub start_mark: yaml_mark_t,
    pub end_mark: yaml_mark_t,
}

/// A token that carries no data.
pub open spec fn spec_simple_token(
    type_: yaml_token_type_t,
    start_mark: yaml_mark_t,
    end_mark: yaml_mark_t,
) -> yaml_token_t {
    yaml_token_t { type_, data: yaml_token_data_t::NoData, start_mark, end_mark }
}

// ---------------------------------------------------------------------------
// Events
// ---------------------------------------------------------------------------

#[derive(Clone, Copy, Debug, PartialEq, Eq, Structural)]
pub struct yaml_event_stream_start_t {
    pub encoding: yaml_encoding_t,
}

/// The tag directives of a document-start event.
#[derive(Clone, Debug)]
pub struct yaml_event_document_start_tag_directives_t {
    pub items: Vec<yaml_tag_directive_t>,
}

#[derive(Clone, Debug)]
pub struct yaml_event_document_start_t {
    pub version_directive: Option<yaml_version_directive_t>,
    pub tag_directives: yaml_event_document_start_tag_directives_t,
    pub implicit: i32,
}

#[derive(Clone, Copy, Debug, PartialEq, Eq, Structural)]
pub struct yaml_event_document_end_t {
    pub implicit: i32,
}

#[derive(Clone, Debug)]
pub struct yaml_event_alias_t {
    pub anchor: Vec<u8>,
}

#[derive(Clone, Debug)]
pub struct yaml_event_scalar_t {
    pub anchor: Option<Vec<u8>>,
    pub tag: Option<Vec<u8>>,
    pub value: Vec<u8>,
    pub plain_implicit: i32,
    pub quoted_implicit: i32,
    pub style: yaml_scalar_style_t,
}

#[derive(Clone, Debug)]
pub struct yaml_event_sequence_start_t {
    pub anchor: Option<Vec<u8>>,
    pub tag: Option<Vec<u8>>,
    pub implicit: i32,
    pub style: yaml_sequence_style_t,
}

#[derive(Clone, Debug)]
pub struct yaml_event_mapping_start_t {
    pub anchor: Option<Vec<u8>>,
    pub tag: Option<Vec<u8>>,
    pub implicit: i32,
    pub style: yaml_mapping_style_t,
}

/// The data an event carries, by kind.
#[derive(Clone, Debug)]
pub enum yaml_event_data_t {
    NoData,
    StreamStart(yaml_event_stream_start_t),
    DocumentStart(yaml_event_document_start_t),
    DocumentEnd(yaml_event_document_end_t),
    Alias(yaml_event_alias_t),
    Scalar(yaml_event_scalar_t),
    SequenceStart(yaml_event_sequence_start_t),
    MappingStart(yaml_event_mapping_start_t),
}

#[derive(Clone, Debug)]
pub struct yaml_event_t {
    pub type_: yaml_event_type_t,
    pub data: yaml_event_data_t,
    pub start_mark: yaml_mark_t,
    pub end_mark: yaml_mark_t,
}

/// The empty event that a caller receives when no event is produced.
pub open spec fn spec_no_event() -> yaml_event_t {
    yaml_event_t {
        type_: yaml_event_type_t::YAML_NO_EVENT,
        data: yaml_event_data_t::NoData,
        start_mark: zero_mark(),
        end_mark: zero_mark(),
    }
}

pub fn yaml_event_empty() -> (e: yaml_event_t)
    ensures
        e == spec_no_event(),
{
    yaml_event_t {
        type_: yaml_event_type_t::YAML_NO_EVENT,
        data: yaml_event_data_t::NoData,
        start_mark: yaml_mark_zero(),
        end_mark: yaml_mark_zero(),
    }
}

/// The empty token that a caller receives when no token is produced.
pub open spec fn spec_no_token() -> yaml_token_t {
    spec_simple_token(yaml_token_type_t::YAML_NO_TOKEN, zero_mark(), zero_mark())
}

pub fn yaml_token_empty() -> (t: yaml_token_t)
    ensures
        t == spec_no_token(),
{
    yaml_token_t {
        type_: yaml_token_type_t::YAML_NO_TOKEN,
        data: yaml_token_data_t::NoData,
        start_mark: yaml_mark_zero(),
        end_mark: yaml_mark_zero(),
    }
}

// ---------------------------------------------------------------------------
// Error context and local stacks
// ---------------------------------------------------------------------------

/// The error slot of an operation that has no parser or emitter.
#[derive(Clone, Copy, Debug, PartialEq, Eq, Structural)]
pub struct ErrContext {
    pub error: yaml_error_type_t,
}

/// A stack of tag directives being copied.
#[derive(Clone, Debug)]
pub struct LocalTagDirStack {
    pub items: Vec<yaml_tag_directive_t>,
}

/// A stack of parser states.
#[derive(Clone, Debug)]
pub struct yaml_parser_state_stack_t {
    pub items: Vec<yaml_parser_state_t>,
}

/// A stack of emitter states.
#[derive(Clone, Debug)]
pub struct yaml_emitter_state_stack_t {
    pub items: Vec<yaml_emitter_state_t>,
}

} // verus!
