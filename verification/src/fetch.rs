use vstd::prelude::*;
use crate::chars::{spec_is_alpha, spec_is_blank, spec_is_break, spec_is_blankz, spec_is_breakz, utf8_encode_all, is_blank, is_blankz, is_breakz};
use crate::lexer::{
    scan_frame, all_chars, anchor_end, is_anchor_token, yaml_parser_scan_anchor,
    yaml_parser_scan_tag, yaml_parser_scan_directive, tag_text, tag_end_ok, directive_text,
    yaml_parser_scan_to_next_token, lemma_frame_trans,
};
use crate::scalars::{
    yaml_parser_scan_flow_scalar, yaml_parser_scan_plain_scalar, yaml_parser_scan_block_scalar,
    quote_char, flow_value, solid, plain_value,
};
use crate::scanner::{
    yaml_parser_t, fetch_pre, fetch_post, read_between, enqueue_token, yaml_parser_save_simple_key,
    yaml_parser_remove_simple_key, yaml_parser_unroll_indent, parser_part_same, error_same,
    yaml_parser_update_buffer, peek, yaml_parser_stale_simple_keys, yaml_parser_set_scanner_error,
    yaml_parser_fetch_stream_start, yaml_parser_fetch_stream_end,
    yaml_parser_fetch_document_indicator, yaml_parser_fetch_flow_collection_start,
    yaml_parser_fetch_flow_collection_end, yaml_parser_fetch_flow_entry,
    yaml_parser_fetch_block_entry, yaml_parser_fetch_key, yaml_parser_fetch_value,
};
use crate::types::{
    yaml_error_type_t, yaml_mark_t, yaml_token_t, yaml_token_type_t, yaml_token_data_t,
    yaml_scalar_style_t,
};

verus! {

/// A token was queued: the queue is the old one and the token.
pub open spec fn queued(a: yaml_parser_t, b: yaml_parser_t) -> bool {
    &&& b.scanner.tokens.len() == a.scanner.tokens.len() + 1
    &&& b.scanner.tokens@.drop_last() == a.scanner.tokens@
}

/// Queues an ANCHOR or ALIAS token for '&' or '*': a simple key may start
/// here.
pub fn yaml_parser_fetch_anchor(parser: &mut yaml_parser_t, type_: yaml_token_type_t) -> (r: bool)
    requires
        fetch_pre(*old(parser)),
        old(parser).ch(0) != 0,
        type_ == yaml_token_type_t::YAML_ANCHOR_TOKEN || type_ == yaml_token_type_t::YAML_ALIAS_TOKEN,
    ensures
        fetch_post(*old(parser), *final(parser), r),
        r ==> final(parser).reader.measure() < old(parser).reader.measure(),
        r ==> !final(parser).scanner.simple_key_allowed,
        r ==> queued(*old(parser), *final(parser)) && {
            let name = read_between(*old(parser), *final(parser)).skip(1);
            &&& name.len() > 0
            &&& all_chars(name, |c: u32| spec_is_alpha(c))
            &&& anchor_end(final(parser).ch(0))
            &&& is_anchor_token(
                final(parser).scanner.tokens@.last(),
                type_,
                utf8_encode_all(name),
                old(parser).reader.mark,
                final(parser).reader.mark,
            )
        },
{
    if !yaml_parser_save_simple_key(parser) {
        return false;
    }
    parser.scanner.simple_key_allowed = false;
    let ghost m1 = *parser;
    let tok = match yaml_parser_scan_anchor(parser, type_) {
        None => return false,
        Some(t) => t,
    };
    let ghost m2 = *parser;
    let ghost before = parser.scanner.tokens@;
    if !enqueue_token(parser, tok) {
        return false;
    }
    proof {
        assert(parser.scanner.tokens@.drop_last() =~= before);
    }
    true
}

/// Queues a TAG token for '!': a simple key may start here.
pub fn yaml_parser_fetch_tag(parser: &mut yaml_parser_t) -> (r: bool)
    requires
        fetch_pre(*old(parser)),
        old(parser).ch(0) == 0x21,
    ensures
        fetch_post(*old(parser), *final(parser), r),
        r ==> final(parser).reader.measure() < old(parser).reader.measure(),
        r ==> !final(parser).scanner.simple_key_allowed,
        r ==> queued(*old(parser), *final(parser)) && {
            let t = final(parser).scanner.tokens@.last();
            &&& t.type_ == yaml_token_type_t::YAML_TAG_TOKEN
            &&& t.start_mark == old(parser).reader.mark
            &&& t.end_mark == final(parser).reader.mark
            &&& t.data matches yaml_token_data_t::Tag(d) && tag_text(
                read_between(*old(parser), *final(parser)),
                d.handle@,
                d.suffix@,
            )
            &&& tag_end_ok(final(parser).ch(0), final(parser).scanner.flow_level)
        },
{
    if !yaml_parser_save_simple_key(parser) {
        return false;
    }
    parser.scanner.simple_key_allowed = false;
    let tok = match yaml_parser_scan_tag(parser) {
        None => return false,
        Some(t) => t,
    };
    let ghost before = parser.scanner.tokens@;
    if !enqueue_token(parser, tok) {
        return false;
    }
    proof {
        assert(parser.scanner.tokens@.drop_last() =~= before);
        assert(read_between(*old(parser), *parser).len() > 0) by {
            assert(tag_text(read_between(*old(parser), *parser), tok.data->Tag_0.handle@, tok.data->Tag_0.suffix@));
        }
    }
    true
}

/// Queues a directive token for '%' at the start of a line: all block
/// collections are closed and no simple key may follow.
pub fn yaml_parser_fetch_directive(parser: &mut yaml_parser_t) -> (r: bool)
    requires
        fetch_pre(*old(parser)),
        old(parser).ch(0) == 0x25,
    ensures
        fetch_post(*old(parser), *final(parser), r),
        r ==> final(parser).reader.measure() < old(parser).reader.measure(),
        r ==> !final(parser).scanner.simple_key_allowed,
        r ==> {
            let t = final(parser).scanner.tokens@.last();
            &&& final(parser).scanner.tokens.len() > old(parser).scanner.tokens.len()
            &&& t.start_mark == old(parser).reader.mark
            &&& directive_text(read_between(*old(parser), *final(parser)), t)
        },
{
    if !yaml_parser_unroll_indent(parser, -1) {
        return false;
    }
    if !yaml_parser_remove_simple_key(parser) {
        return false;
    }
    parser.scanner.simple_key_allowed = false;
    let ghost m1 = *parser;
    let tok = match yaml_parser_scan_directive(parser) {
        None => return false,
        Some(t) => t,
    };
    if !enqueue_token(parser, tok) {
        return false;
    }
    true
}

/// Queues the SCALAR token of a literal ('|') or folded ('>') block scalar;
/// a simple key may follow it.
pub fn yaml_parser_fetch_block_scalar(parser: &mut yaml_parser_t, literal: bool) -> (r: bool)
    requires
        fetch_pre(*old(parser)),
        old(parser).ch(0) != 0,
    ensures
        fetch_post(*old(parser), *final(parser), r),
        r ==> final(parser).reader.measure() < old(parser).reader.measure(),
        r ==> final(parser).scanner.simple_key_allowed,
        r ==> queued(*old(parser), *final(parser)) && {
            let t = final(parser).scanner.tokens@.last();
            &&& t.type_ == yaml_token_type_t::YAML_SCALAR_TOKEN
            &&& t.start_mark == old(parser).reader.mark
            &&& t.data matches yaml_token_data_t::Scalar(d) && d.style == if literal {
                yaml_scalar_style_t::YAML_LITERAL_SCALAR_STYLE
            } else {
                yaml_scalar_style_t::YAML_FOLDED_SCALAR_STYLE
            }
        },
{
    if !yaml_parser_remove_simple_key(parser) {
        return false;
    }
    parser.scanner.simple_key_allowed = true;
    let tok = match yaml_parser_scan_block_scalar(parser, literal) {
        None => return false,
        Some(t) => t,
    };
    let ghost before = parser.scanner.tokens@;
    if !enqueue_token(parser, tok) {
        return false;
    }
    proof {
        assert(parser.scanner.tokens@.drop_last() =~= before);
    }
    true
}

/// Queues the SCALAR token of a single-quoted or double-quoted scalar: a
/// simple key may start here.
pub fn yaml_parser_fetch_flow_scalar(parser: &mut yaml_parser_t, single: bool) -> (r: bool)
    requires
        fetch_pre(*old(parser)),
        old(parser).ch(0) == quote_char(single),
    ensures
        fetch_post(*old(parser), *final(parser), r),
        r ==> final(parser).reader.measure() < old(parser).reader.measure(),
        r ==> !final(parser).scanner.simple_key_allowed,
        r ==> queued(*old(parser), *final(parser)) && {
            let t = final(parser).scanner.tokens@.last();
            let read = read_between(*old(parser), *final(parser));
            let inner = read.subrange(1, read.len() - 1);
            &&& t.type_ == yaml_token_type_t::YAML_SCALAR_TOKEN
            &&& t.start_mark == old(parser).reader.mark
            &&& t.end_mark == final(parser).reader.mark
            &&& read.len() >= 2
            &&& read.last() == quote_char(single)
            &&& t.data matches yaml_token_data_t::Scalar(d) && {
                &&& d.style == if single {
                    yaml_scalar_style_t::YAML_SINGLE_QUOTED_SCALAR_STYLE
                } else {
                    yaml_scalar_style_t::YAML_DOUBLE_QUOTED_SCALAR_STYLE
                }
                &&& d.value@ == flow_value(inner, single)
            }
        },
{
    if !yaml_parser_save_simple_key(parser) {
        return false;
    }
    parser.scanner.simple_key_allowed = false;
    let tok = match yaml_parser_scan_flow_scalar(parser, single) {
        None => return false,
        Some(t) => t,
    };
    let ghost before = parser.scanner.tokens@;
    if !enqueue_token(parser, tok) {
        return false;
    }
    proof {
        assert(parser.scanner.tokens@.drop_last() =~= before);
    }
    true
}

/// Queues the SCALAR token of a plain scalar: a simple key may start here.
pub fn yaml_parser_fetch_plain_scalar(parser: &mut yaml_parser_t) -> (r: bool)
    requires
        fetch_pre(*old(parser)),
        old(parser).reader.unread() >= 4 || old(parser).reader.raw_done(),
    ensures
        r && crate::scalars::plain_can_start(*old(parser)) ==> final(parser).reader.measure() < old(parser).reader.measure(),
        fetch_post(*old(parser), *final(parser), r),
        r ==> final(parser).reader.measure() <= old(parser).reader.measure(),
        r ==> queued(*old(parser), *final(parser)) && {
            let t = final(parser).scanner.tokens@.last();
            let read = read_between(*old(parser), *final(parser));
            &&& t.type_ == yaml_token_type_t::YAML_SCALAR_TOKEN
            &&& t.start_mark == old(parser).reader.mark
            &&& t.data matches yaml_token_data_t::Scalar(d) && {
                &&& d.style == yaml_scalar_style_t::YAML_PLAIN_SCALAR_STYLE
                &&& all_chars(read, |c: u32| solid(c)) ==> d.value@ == utf8_encode_all(read)
                    && t.end_mark == final(parser).reader.mark
                &&& d.value@ == plain_value(read)
            }
        },
{
    if !yaml_parser_save_simple_key(parser) {
        return false;
    }
    parser.scanner.simple_key_allowed = false;
    let tok = match yaml_parser_scan_plain_scalar(parser) {
        None => return false,
        Some(t) => t,
    };
    let ghost before = parser.scanner.tokens@;
    if !enqueue_token(parser, tok) {
        return false;
    }
    proof {
        assert(parser.scanner.tokens@.drop_last() =~= before);
    }
    true
}

/// A fetching step made progress: it read input, produced the
/// STREAM-START token, or queued the STREAM-END token.
pub open spec fn fetch_progress(a: yaml_parser_t, b: yaml_parser_t) -> bool {
    ||| b.reader.measure() < a.reader.measure()
    ||| !a.scanner.stream_start_produced && b.scanner.stream_start_produced
    ||| b.scanner.ends_with_stream_end()
}

/// Whether a character can start no token but a plain scalar.
pub open spec fn is_indicator(c: u32) -> bool {
    spec_is_blankz(c) || c == 0x2D || c == 0x3F || c == 0x3A || c == 0x2C || c == 0x5B || c == 0x5D
        || c == 0x7B || c == 0x7D || c == 0x23 || c == 0x26 || c == 0x2A || c == 0x21 || c == 0x7C
        || c == 0x3E || c == 0x27 || c == 0x22 || c == 0x25 || c == 0x40 || c == 0x60
}

/// The types of token that start with the characters `c0`..`c3` (at the
/// start of a line when `col0`, inside a flow collection when `flow`), one
/// type twice or the two kinds of directive; none when no token starts so.
pub open spec fn token_kind(c0: u32, c1: u32, c2: u32, c3: u32, col0: bool, flow: bool) -> Option<
    (yaml_token_type_t, yaml_token_type_t),
> {
    if col0 && c0 == 0x25 {
        Some((yaml_token_type_t::YAML_VERSION_DIRECTIVE_TOKEN, yaml_token_type_t::YAML_TAG_DIRECTIVE_TOKEN))
    } else if col0 && c0 == 0x2D && c1 == 0x2D && c2 == 0x2D && spec_is_blankz(c3) {
        Some((yaml_token_type_t::YAML_DOCUMENT_START_TOKEN, yaml_token_type_t::YAML_DOCUMENT_START_TOKEN))
    } else if col0 && c0 == 0x2E && c1 == 0x2E && c2 == 0x2E && spec_is_blankz(c3) {
        Some((yaml_token_type_t::YAML_DOCUMENT_END_TOKEN, yaml_token_type_t::YAML_DOCUMENT_END_TOKEN))
    } else if c0 == 0x5B {
        Some((yaml_token_type_t::YAML_FLOW_SEQUENCE_START_TOKEN, yaml_token_type_t::YAML_FLOW_SEQUENCE_START_TOKEN))
    } else if c0 == 0x7B {
        Some((yaml_token_type_t::YAML_FLOW_MAPPING_START_TOKEN, yaml_token_type_t::YAML_FLOW_MAPPING_START_TOKEN))
    } else if c0 == 0x5D {
        Some((yaml_token_type_t::YAML_FLOW_SEQUENCE_END_TOKEN, yaml_token_type_t::YAML_FLOW_SEQUENCE_END_TOKEN))
    } else if c0 == 0x7D {
        Some((yaml_token_type_t::YAML_FLOW_MAPPING_END_TOKEN, yaml_token_type_t::YAML_FLOW_MAPPING_END_TOKEN))
    } else if c0 == 0x2C {
        Some((yaml_token_type_t::YAML_FLOW_ENTRY_TOKEN, yaml_token_type_t::YAML_FLOW_ENTRY_TOKEN))
    } else if c0 == 0x2D && spec_is_blankz(c1) {
        Some((yaml_token_type_t::YAML_BLOCK_ENTRY_TOKEN, yaml_token_type_t::YAML_BLOCK_ENTRY_TOKEN))
    } else if c0 == 0x3F && (flow || spec_is_blankz(c1)) {
        Some((yaml_token_type_t::YAML_KEY_TOKEN, yaml_token_type_t::YAML_KEY_TOKEN))
    } else if c0 == 0x3A && (flow || spec_is_blankz(c1)) {
        Some((yaml_token_type_t::YAML_VALUE_TOKEN, yaml_token_type_t::YAML_VALUE_TOKEN))
    } else if c0 == 0x2A {
        Some((yaml_token_type_t::YAML_ALIAS_TOKEN, yaml_token_type_t::YAML_ALIAS_TOKEN))
    } else if c0 == 0x26 {
        Some((yaml_token_type_t::YAML_ANCHOR_TOKEN, yaml_token_type_t::YAML_ANCHOR_TOKEN))
    } else if c0 == 0x21 {
        Some((yaml_token_type_t::YAML_TAG_TOKEN, yaml_token_type_t::YAML_TAG_TOKEN))
    } else if (c0 == 0x7C || c0 == 0x3E) && !flow {
        Some((yaml_token_type_t::YAML_SCALAR_TOKEN, yaml_token_type_t::YAML_SCALAR_TOKEN))
    } else if c0 == 0x27 || c0 == 0x22 {
        Some((yaml_token_type_t::YAML_SCALAR_TOKEN, yaml_token_type_t::YAML_SCALAR_TOKEN))
    } else if !is_indicator(c0) || (c0 == 0x2D && !spec_is_blank(c1)) || (!flow && (c0 == 0x3F || c0
        == 0x3A) && !spec_is_blankz(c1)) {
        Some((yaml_token_type_t::YAML_SCALAR_TOKEN, yaml_token_type_t::YAML_SCALAR_TOKEN))
    } else {
        None
    }
}

/// The token queued last is of a type that the characters at the position
/// `p` start.
pub open spec fn token_kind_at(p: yaml_parser_t, t: yaml_token_t) -> bool {
    token_kind(p.ch(0), p.ch(1), p.ch(2), p.ch(3), p.reader.mark.column == 0, p.scanner.flow_level != 0)
        matches Some(k) && (t.type_ == k.0 || t.type_ == k.1)
}

/// Queues the token that starts at the current position, chosen by its
/// first characters.
#[verifier::rlimit(80)]
fn fetch_token_at(parser: &mut yaml_parser_t) -> (r: bool)
    requires
        fetch_pre(*old(parser)),
        old(parser).reader.unread() >= 4 || old(parser).reader.raw_done(),
        old(parser).ch(0) != 0,
    ensures
        fetch_post(*old(parser), *final(parser), r),
        r ==> final(parser).scanner.tokens.len() > old(parser).scanner.tokens.len(),
        r ==> final(parser).reader.measure() < old(parser).reader.measure(),
        r ==> token_kind_at(*old(parser), final(parser).scanner.tokens@.last()),
        r && (old(parser).ch(0) == 0x5B || old(parser).ch(0) == 0x7B) ==> final(parser).scanner.flow_level
            == old(parser).scanner.flow_level + 1,
        token_kind(
            old(parser).ch(0),
            old(parser).ch(1),
            old(parser).ch(2),
            old(parser).ch(3),
            old(parser).reader.mark.column == 0,
            old(parser).scanner.flow_level != 0,
        ) is None ==> {
            &&& !r
            &&& final(parser).error == yaml_error_type_t::YAML_SCANNER_ERROR
            &&& final(parser).problem == Some("found character that cannot start any token")
            &&& final(parser).problem_mark == old(parser).reader.mark
        },
{
    let c0 = peek(parser, 0);
    let c1 = peek(parser, 1);
    let c2 = peek(parser, 2);
    let c3 = peek(parser, 3);
    let col0 = parser.reader.mark.column == 0;
    let flow = parser.scanner.flow_level != 0;
    if col0 && c0 == 0x25 {
        return yaml_parser_fetch_directive(parser);
    }
    if col0 && c0 == 0x2D && c1 == 0x2D && c2 == 0x2D && is_blankz(c3) {
        return yaml_parser_fetch_document_indicator(
            parser,
            yaml_token_type_t::YAML_DOCUMENT_START_TOKEN,
        );
    }
    if col0 && c0 == 0x2E && c1 == 0x2E && c2 == 0x2E && is_blankz(c3) {
        return yaml_parser_fetch_document_indicator(parser, yaml_token_type_t::YAML_DOCUMENT_END_TOKEN);
    }
    if c0 == 0x5B {
        return yaml_parser_fetch_flow_collection_start(
            parser,
            yaml_token_type_t::YAML_FLOW_SEQUENCE_START_TOKEN,
        );
    }
    if c0 == 0x7B {
        return yaml_parser_fetch_flow_collection_start(
            parser,
            yaml_token_type_t::YAML_FLOW_MAPPING_START_TOKEN,
        );
    }
    if c0 == 0x5D {
        return yaml_parser_fetch_flow_collection_end(
            parser,
            yaml_token_type_t::YAML_FLOW_SEQUENCE_END_TOKEN,
        );
    }
    if c0 == 0x7D {
        return yaml_parser_fetch_flow_collection_end(
            parser,
            yaml_token_type_t::YAML_FLOW_MAPPING_END_TOKEN,
        );
    }
    if c0 == 0x2C {
        return yaml_parser_fetch_flow_entry(parser);
    }
    if c0 == 0x2D && is_blankz(c1) {
        return yaml_parser_fetch_block_entry(parser);
    }
    if c0 == 0x3F && (flow || is_blankz(c1)) {
        return yaml_parser_fetch_key(parser);
    }
    if c0 == 0x3A && (flow || is_blankz(c1)) {
        return yaml_parser_fetch_value(parser);
    }
    if c0 == 0x2A {
        return yaml_parser_fetch_anchor(parser, yaml_token_type_t::YAML_ALIAS_TOKEN);
    }
    if c0 == 0x26 {
        return yaml_parser_fetch_anchor(parser, yaml_token_type_t::YAML_ANCHOR_TOKEN);
    }
    if c0 == 0x21 {
        return yaml_parser_fetch_tag(parser);
    }
    if c0 == 0x7C && !flow {
        return yaml_parser_fetch_block_scalar(parser, true);
    }
    if c0 == 0x3E && !flow {
        return yaml_parser_fetch_block_scalar(parser, false);
    }
    if c0 == 0x27 {
        return yaml_parser_fetch_flow_scalar(parser, true);
    }
    if c0 == 0x22 {
        return yaml_parser_fetch_flow_scalar(parser, false);
    }
    if !is_indicator_char(c0) || (c0 == 0x2D && !is_blank(c1)) || (!flow && (c0 == 0x3F || c0
        == 0x3A) && !is_blankz(c1)) {
        proof {
            assert(crate::scalars::plain_can_start(*parser));
        }
        return yaml_parser_fetch_plain_scalar(parser);
    }
    let m = parser.reader.mark;
    yaml_parser_set_scanner_error(
        parser,
        Some("while scanning for the next token"),
        m,
        "found character that cannot start any token",
    )
}

fn is_indicator_char(c: u32) -> (r: bool)
    ensures
        r == is_indicator(c),
{
    is_blankz(c) || c == 0x2D || c == 0x3F || c == 0x3A || c == 0x2C || c == 0x5B || c == 0x5D
        || c == 0x7B || c == 0x7D || c == 0x23 || c == 0x26 || c == 0x2A || c == 0x21 || c == 0x7C
        || c == 0x3E || c == 0x27 || c == 0x22 || c == 0x25 || c == 0x40 || c == 0x60
}

/// Two fetching steps, the first successful, make one.
pub proof fn lemma_fetch_post_trans(a: yaml_parser_t, m: yaml_parser_t, b: yaml_parser_t, r: bool)
    requires
        fetch_post(a, m, true),
        fetch_post(m, b, r),
    ensures
        fetch_post(a, b, r),
{
    lemma_read_split_hist(a, m, b);
}

proof fn lemma_read_split_hist(a: yaml_parser_t, m: yaml_parser_t, b: yaml_parser_t)
    requires
        a.reader.history@.is_prefix_of(m.reader.history@),
        m.reader.history@.is_prefix_of(b.reader.history@),
    ensures
        a.reader.history@.is_prefix_of(b.reader.history@),
{
    crate::lexer::lemma_read_split(a, m, b);
}

/// Fetches the next token: STREAM-START first; then, after skipping
/// whitespace and comments, dropping stale simple keys and closing the
/// block collections deeper than the current column, STREAM-END at the
/// end of the input, or the token that starts here.
#[verifier::rlimit(40)]
pub fn yaml_parser_fetch_next_token(parser: &mut yaml_parser_t) -> (r: bool)
    requires
        old(parser).wf(),
        old(parser).error == yaml_error_type_t::YAML_NO_ERROR,
    ensures
        fetch_post(*old(parser), *final(parser), r),
        r ==> final(parser).scanner.tokens.len() > old(parser).scanner.tokens.len(),
        r ==> final(parser).scanner.stream_start_produced,
        r ==> fetch_progress(*old(parser), *final(parser)),
        !old(parser).scanner.stream_start_produced ==> r && final(parser).scanner.tokens@
            == old(parser).scanner.tokens@.push(yaml_token_t {
            type_: yaml_token_type_t::YAML_STREAM_START_TOKEN,
            data: yaml_token_data_t::StreamStart(
                crate::types::yaml_token_stream_start_t { encoding: final(parser).reader.encoding },
            ),
            start_mark: old(parser).reader.mark,
            end_mark: old(parser).reader.mark,
        }) || !r,
{
    let ghost a = *parser;
    if !yaml_parser_update_buffer(parser, 1) {
        return false;
    }
    let ghost m0 = *parser;
    proof {
        assert(fetch_post(a, m0, true));
    }
    if !parser.scanner.stream_start_produced {
        let r = yaml_parser_fetch_stream_start(parser);
        proof { lemma_fetch_post_trans(a, m0, *parser, r); }
        return r;
    }
    if !yaml_parser_scan_to_next_token(parser) {
        proof { lemma_fetch_post_trans(a, m0, *parser, false); }
        return false;
    }
    let ghost m1 = *parser;
    proof { lemma_fetch_post_trans(a, m0, m1, true); }
    if !yaml_parser_stale_simple_keys(parser) {
        proof { lemma_fetch_post_trans(a, m1, *parser, false); }
        return false;
    }
    let ghost m2 = *parser;
    proof { lemma_fetch_post_trans(a, m1, m2, true); }
    let col = crate::scalars::column_of(parser);
    if !yaml_parser_unroll_indent(parser, col) {
        proof { lemma_fetch_post_trans(a, m2, *parser, false); }
        return false;
    }
    let ghost m3 = *parser;
    proof { lemma_fetch_post_trans(a, m2, m3, true); }
    if !yaml_parser_update_buffer(parser, 4) {
        proof { lemma_fetch_post_trans(a, m3, *parser, false); }
        return false;
    }
    let ghost m4 = *parser;
    proof { lemma_fetch_post_trans(a, m3, m4, true); }
    if peek(parser, 0) == 0 {
        let r = yaml_parser_fetch_stream_end(parser);
        proof { lemma_fetch_post_trans(a, m4, *parser, r); }
        return r;
    }
    let r = fetch_token_at(parser);
    proof {
        lemma_fetch_post_trans(a, m4, *parser, r);
    }
    r
}

/// The measure that fetching tokens decreases.
pub open spec fn fetch_measure(p: yaml_parser_t) -> nat {
    4 * p.reader.measure() + (if p.scanner.stream_start_produced {
        0nat
    } else {
        2nat
    }) + (if p.scanner.ends_with_stream_end() {
        0nat
    } else {
        1nat
    })
}

/// Whether a simple key that may still be completed refers to the head of
/// the queue.
fn key_at_head(parser: &yaml_parser_t) -> (r: bool)
    ensures
        r == !parser.scanner.head_ready(),
{
    let n = parser.scanner.simple_keys.len();
    let mut i: usize = 0;
    while i < n
        invariant
            n == parser.scanner.simple_keys.len(),
            0 <= i <= n,
            forall|j: int|
                0 <= j < i && (#[trigger] parser.scanner.simple_keys@[j]).possible
                    ==> parser.scanner.simple_keys@[j].token_number != parser.scanner.tokens_parsed,
        decreases n - i,
    {
        let k = parser.scanner.simple_keys[i];
        if k.possible && k.token_number == parser.scanner.tokens_parsed {
            return true;
        }
        i = i + 1;
    }
    false
}

/// Once the end of the stream is queued, no simple key can be completed:
/// those that refer to the head of the queue are dropped.
fn drop_keys_at_head(parser: &mut yaml_parser_t)
    requires
        old(parser).wf(),
    ensures
        final(parser).wf(),
        crate::scanner::scanner_same_but_keys(old(parser).scanner, final(parser).scanner),
        final(parser).reader == old(parser).reader,
        parser_part_same(*old(parser), *final(parser)),
        error_same(*old(parser), *final(parser)),
        final(parser).scanner.head_ready(),
{
    let n = parser.scanner.simple_keys.len();
    let mut i: usize = 0;
    while i < n
        invariant
            n == parser.scanner.simple_keys.len(),
            0 <= i <= n,
            parser.wf(),
            crate::scanner::scanner_same_but_keys(old(parser).scanner, parser.scanner),
            parser.reader == old(parser).reader,
            parser_part_same(*old(parser), *parser),
            error_same(*old(parser), *parser),
            forall|j: int|
                0 <= j < i && (#[trigger] parser.scanner.simple_keys@[j]).possible
                    ==> parser.scanner.simple_keys@[j].token_number != parser.scanner.tokens_parsed,
        decreases n - i,
    {
        let k = parser.scanner.simple_keys[i];
        if k.possible && k.token_number == parser.scanner.tokens_parsed {
            parser.scanner.simple_keys.set(i, crate::scanner::yaml_simple_key_t { possible: false, ..k });
        }
        i = i + 1;
    }
}

/// Fetches tokens until the one at the head of the queue is final: the
/// queue is not empty and no simple key that may still be completed
/// refers to its head (a KEY token could still be inserted before it).
#[verifier::rlimit(40)]
pub fn yaml_parser_fetch_more_tokens(parser: &mut yaml_parser_t) -> (r: bool)
    requires
        old(parser).wf(),
        old(parser).error == yaml_error_type_t::YAML_NO_ERROR,
    ensures
        final(parser).wf(),
        parser_part_same(*old(parser), *final(parser)),
        final(parser).reader.input.input@ == old(parser).reader.input.input@,
        final(parser).reader.has_input == old(parser).reader.has_input,
        final(parser).scanner.tokens_parsed == old(parser).scanner.tokens_parsed,
        final(parser).scanner.stream_end_produced == old(parser).scanner.stream_end_produced,
        r ==> {
            &&& final(parser).error == yaml_error_type_t::YAML_NO_ERROR
            &&& final(parser).scanner.token_available
            &&& final(parser).scanner.tokens.len() > 0
            &&& final(parser).scanner.stream_start_produced
            &&& final(parser).scanner.head_ready()
        },
        !r ==> final(parser).error != yaml_error_type_t::YAML_NO_ERROR && final(parser).error
            != yaml_error_type_t::YAML_PARSER_ERROR,
        !r && final(parser).error == yaml_error_type_t::YAML_READER_ERROR ==> crate::scanner::reader_failed(
            *final(parser),
        ),
{
    loop
        invariant
            parser.wf(),
            parser.error == yaml_error_type_t::YAML_NO_ERROR,
            parser_part_same(*old(parser), *parser),
            parser.reader.input.input@ == old(parser).reader.input.input@,
            parser.reader.has_input == old(parser).reader.has_input,
            parser.scanner.tokens_parsed == old(parser).scanner.tokens_parsed,
            parser.scanner.stream_end_produced == old(parser).scanner.stream_end_produced,
            old(parser).scanner.stream_start_produced ==> parser.scanner.stream_start_produced,
        ensures
            parser.wf(),
            parser.error == yaml_error_type_t::YAML_NO_ERROR,
            parser_part_same(*old(parser), *parser),
            parser.reader.input.input@ == old(parser).reader.input.input@,
            parser.reader.has_input == old(parser).reader.has_input,
            parser.scanner.tokens_parsed == old(parser).scanner.tokens_parsed,
            parser.scanner.stream_end_produced == old(parser).scanner.stream_end_produced,
            parser.scanner.tokens.len() > 0,
            parser.scanner.stream_start_produced,
            parser.scanner.head_ready(),
        decreases fetch_measure(*parser),
    {
        let mut need_more = parser.scanner.tokens.len() == 0;
        if !need_more {
            if !yaml_parser_stale_simple_keys(parser) {
                return false;
            }
            need_more = key_at_head(parser);
        }
        if !need_more {
            proof {
                assert(parser.scanner.stream_start_produced);
            }
            break;
        }
        let n = parser.scanner.tokens.len();
        if n > 0 && parser.scanner.tokens[n - 1].type_ == yaml_token_type_t::YAML_STREAM_END_TOKEN {
            drop_keys_at_head(parser);
            break;
        }
        let ghost before = *parser;
        if !yaml_parser_fetch_next_token(parser) {
            return false;
        }
        proof {
            assert(fetch_measure(*parser) < fetch_measure(before));
        }
    }
    parser.scanner.token_available = true;
    true
}

/// Scans the next token into `token`. After the end of the stream or an
/// error, every call gives the empty token and succeeds without changing
/// the parser. Otherwise the token is the head of the queue once enough
/// tokens are fetched to make it final; a failure leaves the empty token.
pub fn yaml_parser_scan(parser: &mut yaml_parser_t, token: &mut yaml_token_t) -> (r: bool)
    requires
        old(parser).wf(),
    ensures
        final(parser).wf(),
        crate::scanner::parse_state_same(*old(parser), *final(parser)),
        (old(parser).scanner.stream_end_produced || old(parser).error
            != yaml_error_type_t::YAML_NO_ERROR) ==> {
            &&& r
            &&& *final(token) == crate::types::spec_no_token()
            &&& *final(parser) == *old(parser)
        },
        (!old(parser).scanner.stream_end_produced && old(parser).error
            == yaml_error_type_t::YAML_NO_ERROR) ==> {
            &&& r ==> {
                &&& final(parser).error == yaml_error_type_t::YAML_NO_ERROR
                &&& final(parser).scanner.tokens_parsed == old(parser).scanner.tokens_parsed + 1
                &&& !final(parser).scanner.token_available
                &&& final(parser).scanner.stream_end_produced == (final(token).type_
                    == yaml_token_type_t::YAML_STREAM_END_TOKEN)
                &&& final(parser).handed@ == old(parser).handed@.push(*final(token))
                &&& old(parser).scanner.token_available ==> {
                    &&& *final(token) == old(parser).scanner.tokens@[0]
                    &&& final(parser).scanner.tokens@ == old(parser).scanner.tokens@.skip(1)
                    &&& final(parser).reader == old(parser).reader
                }
            }
            &&& old(parser).scanner.token_available ==> r
            &&& !r ==> {
                &&& final(parser).error != yaml_error_type_t::YAML_NO_ERROR
                &&& final(parser).error != yaml_error_type_t::YAML_PARSER_ERROR
                &&& final(parser).error == yaml_error_type_t::YAML_READER_ERROR ==> crate::scanner::reader_failed(
                    *final(parser),
                )
                &&& *final(token) == crate::types::spec_no_token()
            }
        },
{
    *token = crate::types::yaml_token_empty();
    if parser.scanner.stream_end_produced || parser.error != yaml_error_type_t::YAML_NO_ERROR {
        return true;
    }
    if !parser.scanner.token_available {
        if !yaml_parser_fetch_more_tokens(parser) {
            return false;
        }
    }
    let t = parser.scanner.tokens.remove(0);
    proof {
        parser.handed = Ghost(parser.handed@.push(t));
    }
    *token = t;
    parser.scanner.token_available = false;
    parser.scanner.tokens_parsed = parser.scanner.tokens_parsed + 1;
    if token.type_ == yaml_token_type_t::YAML_STREAM_END_TOKEN {
        parser.scanner.stream_end_produced = true;
    }
    true
}

} // verus!
