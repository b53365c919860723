use vstd::prelude::*;
use crate::document::{yaml_document_t, yaml_node_t};
use crate::dumper::{anchor_text, decimal, anchors_wf};
use crate::emitter::{indent_for, width_for, yaml_anchors_t, utf16_octets, utf16_output, unit_octets};
use crate::chars::{
    utf8_encode, utf8_encode_all, valid_utf8, spec_utf8_width, spec_seq_value, first_char_ok,
    is_trailing, trailing_ok, shortest_form, spec_lead_value,
};
use crate::decode::{
    DecodeStep, decode_step, unit16, allowed_char, first_bad_trailing, decodes_fully, decoded_chars,
    lemma_decode_append, lemma_decode_empty,
};
use crate::types::yaml_encoding_t;
use crate::scalars::{
    FoldState, fold_start, fold_finish, fold_gap, fold_units, flow_value, fold_chars, fold_char, plain_value,
    unit_len, elem_value,
};
use crate::chars::{spec_is_blank, spec_is_break};
use crate::lexer::{lemma_encode_concat, lemma_encode_push};
use crate::scanner::{flow_after, opens_flow, closes_flow};
use crate::types::yaml_token_type_t;
use crate::types::yaml_event_data_t;
use crate::parser::{resolve_tag, lookup_handle};
use crate::dumper::node_event_is;
use crate::document::{
    yaml_node_data_t, tag_or, YAML_DEFAULT_MAPPING_TAG, YAML_DEFAULT_SEQUENCE_TAG, YAML_DEFAULT_SCALAR_TAG,
};
use crate::lexer::anchor_end;
use crate::chars::{spec_is_alpha, spec_is_blankz};
use vstd::string::StringSliceAdditionalSpecFns;

verus! {

/// The flow level after the tokens `ts`, starting at `level`.
pub open spec fn flow_after_all(level: int, ts: Seq<yaml_token_type_t>) -> int
    decreases ts.len(),
{
    if ts.len() == 0 {
        level
    } else {
        flow_after(flow_after_all(level, ts.drop_last()), ts.last())
    }
}

/// How many of the tokens `ts` open a flow collection.
pub open spec fn flow_opens(ts: Seq<yaml_token_type_t>) -> int
    decreases ts.len(),
{
    if ts.len() == 0 {
        0
    } else {
        flow_opens(ts.drop_last()) + if opens_flow(ts.last()) { 1int } else { 0int }
    }
}

/// How many of the tokens `ts` close a flow collection.
pub open spec fn flow_closes(ts: Seq<yaml_token_type_t>) -> int
    decreases ts.len(),
{
    if ts.len() == 0 {
        0
    } else {
        flow_closes(ts.drop_last()) + if closes_flow(ts.last()) { 1int } else { 0int }
    }
}

/// The flow level counts the flow collections still open: from level
/// zero, where no prefix of the tokens closes more collections than it
/// opened, the level after them is the number of '[' and '{' minus the
/// number of ']' and '}'.
pub proof fn law_flow_level_counts(ts: Seq<yaml_token_type_t>)
    requires
        forall|k: int| 0 <= k <= ts.len() ==> flow_closes(#[trigger] ts.take(k)) <= flow_opens(ts.take(k)),
    ensures
        flow_after_all(0, ts) == flow_opens(ts) - flow_closes(ts),
    decreases ts.len(),
{
    if ts.len() > 0 {
        let p = ts.drop_last();
        assert forall|k: int| 0 <= k <= p.len() implies flow_closes(#[trigger] p.take(k)) <= flow_opens(p.take(k)) by {
            assert(p.take(k) =~= ts.take(k));
        }
        law_flow_level_counts(p);
        assert(ts.take(ts.len() as int) =~= ts);
    }
}

/// A tag with an empty handle (a verbatim tag, or the bare '!') stands
/// for its suffix as it is, whatever tag directives are in force.
pub proof fn law_empty_handle_tag_is_its_suffix(ds: Seq<(Seq<u8>, Seq<u8>)>, suffix: Seq<u8>)
    ensures
        resolve_tag(ds, Seq::<u8>::empty(), suffix) == Some(suffix),
{
}

/// A non-empty handle is replaced by the prefix of the first tag
/// directive that names it, followed by the suffix.
pub proof fn law_handle_takes_first_directive_prefix(
    ds: Seq<(Seq<u8>, Seq<u8>)>,
    handle: Seq<u8>,
    suffix: Seq<u8>,
    i: int,
)
    requires
        handle.len() > 0,
        0 <= i < ds.len(),
        ds[i].0 == handle,
        forall|j: int| 0 <= j < i ==> ds[j].0 != handle,
    ensures
        resolve_tag(ds, handle, suffix) == Some(ds[i].1 + suffix),
{
    lemma_first_directive(ds, handle, i);
}

proof fn lemma_first_directive(ds: Seq<(Seq<u8>, Seq<u8>)>, handle: Seq<u8>, i: int)
    requires
        0 <= i < ds.len(),
        ds[i].0 == handle,
        forall|j: int| 0 <= j < i ==> ds[j].0 != handle,
    ensures
        lookup_handle(ds, handle) == Some(ds[i].1),
    decreases i,
{
    if i > 0 {
        let rest = ds.skip(1);
        assert forall|j: int| 0 <= j < i - 1 implies rest[j].0 != handle by {
            assert(rest[j] == ds[j + 1]);
        }
        assert(rest[i - 1] == ds[i]);
        lemma_first_directive(rest, handle, i - 1);
        assert(ds[0].0 != handle);
    }
}

/// A non-empty handle that no tag directive names resolves to nothing
/// (the parser reports "found undefined tag handle").
pub proof fn law_undefined_handle_has_no_tag(ds: Seq<(Seq<u8>, Seq<u8>)>, handle: Seq<u8>, suffix: Seq<u8>)
    requires
        handle.len() > 0,
        forall|j: int| 0 <= j < ds.len() ==> ds[j].0 != handle,
    ensures
        resolve_tag(ds, handle, suffix) is None,
{
    lemma_no_directive(ds, handle);
}

proof fn lemma_no_directive(ds: Seq<(Seq<u8>, Seq<u8>)>, handle: Seq<u8>)
    requires
        forall|j: int| 0 <= j < ds.len() ==> ds[j].0 != handle,
    ensures
        lookup_handle(ds, handle) is None,
    decreases ds.len(),
{
    if ds.len() > 0 {
        let rest = ds.skip(1);
        assert forall|j: int| 0 <= j < rest.len() implies rest[j].0 != handle by {
            assert(rest[j] == ds[j + 1]);
        }
        lemma_no_directive(rest, handle);
        assert(ds[0].0 != handle);
    }
}

/// A mapping node is dumped as a MAPPING-START event that leaves its tag
/// implicit exactly when the tag is the default mapping tag
/// "tag:yaml.org,2002:map"; any other tag is written out.
pub proof fn law_mapping_start_implicit_iff_default_tag(
    ev: crate::types::yaml_event_t,
    n: yaml_node_t,
    id: i32,
)
    requires
        n.data is Mapping,
        node_event_is(ev, n, id),
    ensures
        ev.data matches yaml_event_data_t::MappingStart(e) && (e.implicit == 1 || e.implicit == 0) && (
            e.implicit == 1) == (n.tag@ == YAML_DEFAULT_MAPPING_TAG.spec_bytes()),
{
}

/// A mapping added without a tag gets the default mapping tag, so it is
/// dumped with its tag implicit.
pub proof fn law_untagged_mapping_dumped_implicit(ev: crate::types::yaml_event_t, n: yaml_node_t, id: i32)
    requires
        n.data is Mapping,
        n.tag@ == tag_or(None, YAML_DEFAULT_MAPPING_TAG),
        node_event_is(ev, n, id),
    ensures
        ev.data matches yaml_event_data_t::MappingStart(e) && e.implicit == 1,
{
}

/// A sequence node is dumped as a SEQUENCE-START event that leaves its
/// tag implicit exactly when the tag is the default sequence tag
/// "tag:yaml.org,2002:seq".
pub proof fn law_sequence_start_implicit_iff_default_tag(
    ev: crate::types::yaml_event_t,
    n: yaml_node_t,
    id: i32,
)
    requires
        n.data is Sequence,
        node_event_is(ev, n, id),
    ensures
        ev.data matches yaml_event_data_t::SequenceStart(e) && (e.implicit == 1 || e.implicit == 0) && (
            e.implicit == 1) == (n.tag@ == YAML_DEFAULT_SEQUENCE_TAG.spec_bytes()),
{
}

/// A scalar node is dumped as a SCALAR event with its value, and with
/// both its plain and its quoted tag left implicit exactly when the tag is
/// the default scalar tag "tag:yaml.org,2002:str".
pub proof fn law_scalar_implicit_iff_default_tag(ev: crate::types::yaml_event_t, n: yaml_node_t, id: i32)
    requires
        n.data is Scalar,
        node_event_is(ev, n, id),
    ensures
        ev.data matches yaml_event_data_t::Scalar(d) && d.value@ == n.data->Scalar_0.value@ && d.plain_implicit
            == d.quoted_implicit && (d.plain_implicit == 1 || d.plain_implicit == 0) && (d.plain_implicit
            == 1) == (n.tag@ == YAML_DEFAULT_SCALAR_TAG.spec_bytes()),
{
}

/// An anchor or alias name ends at a blank, a line break, the end of the
/// input, and at the flow indicators ',', ']' and '}' (so "*x," in a flow
/// collection is the alias x followed by a flow entry); no character of a
/// name ends it.
pub proof fn law_anchor_name_ends_at_flow_indicators(c: u32)
    ensures
        (spec_is_blankz(c) || c == 0x2C || c == 0x5D || c == 0x7D) ==> anchor_end(c),
        anchor_end(c) ==> !spec_is_alpha(c),
{
}

/// A node added to a document is found under the id the addition
/// returned (the new number of nodes), and the nodes added before keep
/// their ids.
pub proof fn law_added_node_found(before: yaml_document_t, after: yaml_document_t, id: int, n: yaml_node_t)
    requires
        after.nodes.items@ == before.nodes.items@.push(n),
        id == after.nodes.items@.len(),
    ensures
        after.has_node(id),
        after.node(id) == n,
        !before.has_node(id),
        forall|k: int| #[trigger] before.has_node(k) ==> after.has_node(k) && after.node(k) == before.node(k),
{
}

/// After nodes are added one after another, each is found under the id its
/// addition returned: `docs[k + 1]` is `docs[k]` with the node added at
/// step `k`, whose id is `ids[k]`.
pub proof fn law_added_nodes_found(docs: Seq<yaml_document_t>, ids: Seq<int>)
    requires
        docs.len() == ids.len() + 1,
        forall|k: int|
            0 <= k < ids.len() ==> (#[trigger] docs[k + 1]).nodes.items@.len() == docs[k].nodes.items@.len() + 1
                && docs[k + 1].nodes.items@.drop_last() == docs[k].nodes.items@ && ids[k]
                == docs[k + 1].nodes.items@.len(),
    ensures
        forall|k: int|
            0 <= k < ids.len() ==> docs.last().has_node(#[trigger] ids[k]) && docs.last().node(ids[k])
                == docs[k + 1].nodes.items@.last(),
    decreases ids.len(),
{
    if ids.len() > 0 {
        let m = ids.len() - 1;
        let d2 = docs.drop_last();
        let i2 = ids.drop_last();
        assert forall|k: int| 0 <= k < i2.len() implies (#[trigger] d2[k + 1]).nodes.items@.len()
            == d2[k].nodes.items@.len() + 1 && d2[k + 1].nodes.items@.drop_last() == d2[k].nodes.items@
            && i2[k] == d2[k + 1].nodes.items@.len() by {
            assert(d2[k + 1] == docs[k + 1]);
            assert(d2[k] == docs[k]);
            assert(i2[k] == ids[k]);
            assert(docs[k + 1].nodes.items@.len() == docs[k].nodes.items@.len() + 1);
        }
        law_added_nodes_found(d2, i2);
        let last = docs.last();
        let prev = docs[m];
        assert(docs[m + 1] == last);
        assert(last.nodes.items@.drop_last() == prev.nodes.items@);
        assert forall|k: int| 0 <= k < ids.len() implies last.has_node(#[trigger] ids[k]) && last.node(ids[k])
            == docs[k + 1].nodes.items@.last() by {
            if k < m {
                assert(i2[k] == ids[k]);
                assert(d2.last() == prev);
                assert(d2[k + 1] == docs[k + 1]);
                assert(prev.has_node(ids[k]));
                assert(last.nodes.items@[ids[k] - 1] == last.nodes.items@.drop_last()[ids[k] - 1]);
            } else {
                assert(docs[m + 1] == docs[k + 1]);
            }
        }
    }
}

/// The root of a document is its first node: there is one exactly when the
/// document has a node with id 1.
pub proof fn law_root_is_first_node(d: yaml_document_t)
    ensures
        (d.nodes.items@.len() > 0) == d.has_node(1),
{
}

/// The indentation an emitter uses is always from 2 to 9, and a request in
/// that range is used as it is.
pub proof fn law_indent_in_range(indent: i32)
    ensures
        2 <= indent_for(indent) <= 9,
        2 <= indent <= 9 ==> indent_for(indent) == indent,
{
}

/// The line width an emitter uses is -1 (no limit) or the request.
pub proof fn law_width_kept_or_unlimited(width: i32)
    ensures
        width_for(width) == width || width_for(width) == -1,
        width >= 0 ==> width_for(width) == width,
        width_for(width) >= -1,
{
}

/// The value of a string of decimal digits.
pub open spec fn digits_value(s: Seq<u8>) -> int
    decreases s.len(),
{
    if s.len() == 0 {
        0
    } else {
        digits_value(s.drop_last()) * 10 + (s.last() - 48)
    }
}

proof fn lemma_decimal_value(n: nat)
    ensures
        digits_value(decimal(n)) == n,
        decimal(n).len() >= 1,
        n >= 100 ==> decimal(n).len() >= 3,
        n >= 10 ==> decimal(n).len() >= 2,
    decreases n,
{
    if n >= 10 {
        lemma_decimal_value(n / 10);
        let d = decimal(n);
        assert(d.drop_last() == decimal(n / 10));
        assert(digits_value(d) == digits_value(decimal(n / 10)) * 10 + (n % 10));
        assert((n / 10) * 10 + n % 10 == n) by (nonlinear_arith);
    } else {
        assert(decimal(n).drop_last() =~= Seq::<u8>::empty());
        assert(digits_value(Seq::<u8>::empty()) == 0);
        assert(decimal(n).last() == 48 + n);
    }
}

proof fn lemma_zeros_value(z: Seq<u8>, d: Seq<u8>)
    requires
        forall|i: int| 0 <= i < z.len() ==> z[i] == 48u8,
    ensures
        digits_value(z + d) == digits_value(z) * pow10_int(d.len()) + digits_value(d),
        digits_value(z) == 0,
    decreases d.len(), z.len(),
{
    if d.len() == 0 {
        assert(z + d =~= z);
        lemma_zeros_zero(z);
    } else {
        lemma_zeros_value(z, d.drop_last());
        assert((z + d).drop_last() =~= z + d.drop_last());
        lemma_zeros_zero(z);
    }
}

proof fn lemma_zeros_zero(z: Seq<u8>)
    requires
        forall|i: int| 0 <= i < z.len() ==> z[i] == 48u8,
    ensures
        digits_value(z) == 0,
    decreases z.len(),
{
    if z.len() > 0 {
        lemma_zeros_zero(z.drop_last());
    }
}

pub open spec fn pow10_int(n: nat) -> int
    decreases n,
{
    if n == 0 {
        1
    } else {
        10 * pow10_int((n - 1) as nat)
    }
}

/// The number an anchor name stands for.
proof fn lemma_anchor_value(id: nat)
    ensures
        anchor_text(id).len() >= 5,
        digits_value(anchor_text(id).skip(2)) == id,
{
    lemma_decimal_value(id);
    let d = decimal(id);
    let t = anchor_text(id);
    if d.len() < 3 {
        let z = Seq::new((3 - d.len()) as nat, |i: int| 48u8);
        assert(t.skip(2) =~= z + d);
        lemma_zeros_value(z, d);
    } else {
        assert(t.skip(2) =~= d);
    }
}

/// Distinct anchor ids get distinct anchor names.
pub proof fn law_anchor_names_distinct(a: nat, b: nat)
    requires
        a != b,
    ensures
        anchor_text(a) != anchor_text(b),
{
    lemma_anchor_value(a);
    lemma_anchor_value(b);
    if anchor_text(a) == anchor_text(b) {
        assert(anchor_text(a).skip(2) == anchor_text(b).skip(2));
    }
}

/// In the anchor records of a dump, two nodes that got anchors have
/// different anchor names, and a node has an anchor exactly when it was
/// referred to at least twice.
pub proof fn law_dump_anchors_unique(s: Seq<yaml_anchors_t>, last: i32, i: int, j: int)
    requires
        anchors_wf(s, last),
        0 <= i < s.len(),
        0 <= j < s.len(),
        i != j,
        s[i].anchor != 0,
        s[j].anchor != 0,
    ensures
        anchor_text(s[i].anchor as nat) != anchor_text(s[j].anchor as nat),
        s[i].references >= 2,
{
    assert(s[i].anchor != s[j].anchor);
    assert(0 <= s[i].anchor && 0 <= s[j].anchor);
    law_anchor_names_distinct(s[i].anchor as nat, s[j].anchor as nat);
}

proof fn lemma_div_mod(v: int, d: int)
    requires
        v >= 0,
        d > 0,
    ensures
        (v / d) * d + v % d == v,
        0 <= v % d < d,
        v / d >= 0,
{
    assert((v / d) * d + v % d == v && 0 <= v % d < d && v / d >= 0) by (nonlinear_arith)
        requires
            v >= 0,
            d > 0,
    ;
}

proof fn lemma_div_div(v: int, a: int, b: int)
    requires
        v >= 0,
        a > 0,
        b > 0,
    ensures
        (v / a) / b == v / (a * b),
{
    vstd::arithmetic::div_mod::lemma_div_denominator(v, a, b);
}

/// The UTF-8 encoding of a code point starts with a well-formed sequence
/// that takes the whole encoding and carries the code point.
proof fn lemma_encode_first(v: u32, rest: Seq<u8>)
    requires
        v <= 0x10FFFF,
    ensures
        ({
            let e = utf8_encode(v);
            let s = e + rest;
            &&& spec_utf8_width(s[0]) == e.len()
            &&& 1 <= e.len() <= 4
            &&& trailing_ok(s, e.len())
            &&& first_bad_trailing(s, 1, e.len()) is None
            &&& spec_seq_value(s, e.len()) == v
            &&& shortest_form(e.len(), v as nat)
            &&& first_char_ok(s)
        }),
{
    let e = utf8_encode(v);
    let s = e + rest;
    let x = v as int;
    lemma_div_mod(x, 64);
    lemma_div_mod(x / 64, 64);
    lemma_div_mod(x, 4096);
    lemma_div_mod(x / 4096, 64);
    lemma_div_mod(x, 262144);
    lemma_div_div(x, 64, 64);
    lemma_div_div(x, 4096, 64);
    if v <= 0x7F {
        assert(s[0] == e[0]);
    } else if v <= 0x7FF {
        assert(s[0] == e[0] && s[1] == e[1]);
        assert(spec_seq_value(s, 1) == x / 64);
        assert(s[1] % 64 == x % 64);
        assert(first_bad_trailing(s, 2, 2) is None);
    } else if v <= 0xFFFF {
        assert(s[0] == e[0] && s[1] == e[1] && s[2] == e[2]);
        assert(spec_seq_value(s, 1) == x / 4096);
        assert(s[1] % 64 == (x / 64) % 64);
        assert(s[2] % 64 == x % 64);
        assert(spec_seq_value(s, 2) == x / 64);
        assert(first_bad_trailing(s, 3, 3) is None);
        assert(first_bad_trailing(s, 2, 3) is None);
    } else {
        assert(s[0] == e[0] && s[1] == e[1] && s[2] == e[2] && s[3] == e[3]);
        lemma_div_mod(x / 4096, 64);
        lemma_div_div(x, 4096, 64);
        assert(spec_seq_value(s, 1) == x / 262144);
        assert(s[1] % 64 == (x / 4096) % 64);
        assert(s[2] % 64 == (x / 64) % 64);
        assert(s[3] % 64 == x % 64);
        assert(spec_seq_value(s, 2) == x / 4096);
        assert(spec_seq_value(s, 3) == x / 64);
        assert(first_bad_trailing(s, 4, 4) is None);
        assert(first_bad_trailing(s, 3, 4) is None);
        assert(first_bad_trailing(s, 2, 4) is None);
    }
}

/// What the reader reads of a character written in UTF-8 is that
/// character, for every character a YAML stream may hold.
pub proof fn law_utf8_read_back(v: u32, rest: Seq<u8>, eof: bool)
    requires
        allowed_char(v),
    ensures
        decode_step(yaml_encoding_t::YAML_UTF8_ENCODING, utf8_encode(v) + rest, eof)
            == DecodeStep::Char(v, utf8_encode(v).len() as usize),
{
    reveal(decode_step);
    lemma_encode_first(v, rest);
}

/// The UTF-8 check accepts the UTF-8 encoding of any sequence of code
/// points.
pub proof fn law_utf8_encoding_accepted(cs: Seq<u32>)
    requires
        forall|i: int| 0 <= i < cs.len() ==> cs[i] <= 0x10FFFF,
    ensures
        valid_utf8(utf8_encode_all(cs)),
    decreases cs.len(),
{
    if cs.len() > 0 {
        law_utf8_encoding_accepted(cs.drop_last());
        lemma_valid_append(utf8_encode_all(cs.drop_last()), cs.last());
    }
}

proof fn lemma_valid_append(a: Seq<u8>, v: u32)
    requires
        valid_utf8(a),
        v <= 0x10FFFF,
    ensures
        valid_utf8(a + utf8_encode(v)),
    decreases a.len(),
{
    let e = utf8_encode(v);
    if a.len() == 0 {
        assert(a + e =~= e);
        lemma_encode_first(v, Seq::empty());
        assert(e + Seq::<u8>::empty() =~= e);
        assert(e.skip(e.len() as int) =~= Seq::<u8>::empty());
        assert(valid_utf8(e.skip(spec_utf8_width(e[0]) as int)));
        assert(first_char_ok(e));
    } else {
        let w = spec_utf8_width(a[0]);
        assert(first_char_ok(a));
        lemma_valid_append(a.skip(w as int), v);
        let s = a + e;
        assert(s.skip(w as int) =~= a.skip(w as int) + e);
        assert(s[0] == a[0]);
        assert forall|k: int| 1 <= k < w implies #[trigger] is_trailing(s[k]) by {
            assert(s[k] == a[k]);
            assert(is_trailing(a[k]));
        }
        lemma_seq_value_prefix(a, s, w);
        assert(first_char_ok(s));
        assert(valid_utf8(s.skip(w as int)));
    }
}

proof fn lemma_seq_value_prefix(a: Seq<u8>, s: Seq<u8>, n: nat)
    requires
        1 <= n <= a.len(),
        a.len() <= s.len(),
        forall|k: int| 0 <= k < a.len() ==> s[k] == a[k],
    ensures
        spec_seq_value(s, n) == spec_seq_value(a, n),
    decreases n,
{
    if n > 1 {
        lemma_seq_value_prefix(a, s, (n - 1) as nat);
    }
}

/// What the reader reads of a character of the Basic Multilingual Plane
/// written in UTF-16 is that character.
pub proof fn law_utf16_read_back_bmp(v: u32, le: bool, rest: Seq<u8>, eof: bool)
    requires
        allowed_char(v),
        v < 0x10000,
    ensures
        decode_step(
            if le { yaml_encoding_t::YAML_UTF16LE_ENCODING } else { yaml_encoding_t::YAML_UTF16BE_ENCODING },
            utf16_octets(v as nat, le) + rest,
            eof,
        ) == DecodeStep::Char(v, 2),
{
    reveal(decode_step);
    let s = utf16_octets(v as nat, le) + rest;
    let x = v as int;
    lemma_div_mod(x, 256);
    assert(s[0] == utf16_octets(v as nat, le)[0] && s[1] == utf16_octets(v as nat, le)[1]);
    assert(unit16(s, 0, le) == x);
}

proof fn lemma_unit_read(u: int, le: bool, s: Seq<u8>, i: int)
    requires
        0 <= u < 0x10000,
        0 <= i,
        i + 2 <= s.len(),
        s[i] == unit_octets(u, le)[0],
        s[i + 1] == unit_octets(u, le)[1],
    ensures
        unit16(s, i, le) == u,
{
    lemma_div_mod(u, 256);
    assert(u / 256 < 256) by (nonlinear_arith)
        requires
            0 <= u < 0x10000,
    ;
}

/// What the reader reads of a character past the Basic Multilingual Plane
/// written in UTF-16 (as a surrogate pair) is that character.
#[verifier::rlimit(60)]
#[verifier::spinoff_prover]
pub proof fn law_utf16_read_back_pair(v: u32, le: bool, rest: Seq<u8>, eof: bool)
    requires
        0x10000 <= v <= 0x10FFFF,
    ensures
        decode_step(
            if le { yaml_encoding_t::YAML_UTF16LE_ENCODING } else { yaml_encoding_t::YAML_UTF16BE_ENCODING },
            utf16_octets(v as nat, le) + rest,
            eof,
        ) == DecodeStep::Char(v, 4),
{
    reveal(decode_step);
    let w = v - 0x10000;
    lemma_div_mod(w, 1024);
    let hi = 0xD800 + w / 1024;
    let lo = 0xDC00 + w % 1024;
    assert(w / 1024 < 1024) by (nonlinear_arith)
        requires
            0 <= w < 0x100000,
    ;
    let s = utf16_octets(v as nat, le) + rest;
    let c = utf16_octets(v as nat, le);
    assert(c == unit_octets(hi, le) + unit_octets(lo, le));
    assert(s[0] == unit_octets(hi, le)[0] && s[1] == unit_octets(hi, le)[1]);
    assert(s[2] == unit_octets(lo, le)[0] && s[3] == unit_octets(lo, le)[1]);
    lemma_unit_read(hi, le, s, 0);
    lemma_unit_read(lo, le, s, 2);
    assert(0x10000 + (hi - 0xD800) * 1024 + (lo - 0xDC00) == v);
}

proof fn lemma_utf16_output_append(a: Seq<u8>, v: u32, le: bool)
    requires
        valid_utf8(a),
        v <= 0x10FFFF,
    ensures
        utf16_output(a + utf8_encode(v), le) == utf16_output(a, le) + utf16_octets(v as nat, le),
    decreases a.len(),
{
    let e = utf8_encode(v);
    lemma_encode_first(v, Seq::empty());
    assert(e + Seq::<u8>::empty() =~= e);
    if a.len() == 0 {
        assert(a + e =~= e);
        assert(e.skip(e.len() as int) =~= Seq::<u8>::empty());
        assert(utf16_output(Seq::<u8>::empty(), le) =~= Seq::<u8>::empty());
        assert(utf16_output(e, le) =~= utf16_octets(v as nat, le));
        assert(utf16_output(a, le) =~= Seq::<u8>::empty());
    } else {
        let w = spec_utf8_width(a[0]);
        assert(first_char_ok(a));
        let s = a + e;
        assert(s[0] == a[0]);
        assert(s.skip(w as int) =~= a.skip(w as int) + e);
        lemma_seq_value_prefix(a, s, w);
        lemma_utf16_output_append(a.skip(w as int), v, le);
        assert(utf16_output(s, le) =~= utf16_octets(spec_seq_value(a, w), le) + utf16_output(
            a.skip(w as int),
            le,
        ) + utf16_octets(v as nat, le));
    }
}

/// The UTF-16 octets the writer produces for each code point in turn.
pub open spec fn utf16_of_chars(cs: Seq<u32>, le: bool) -> Seq<u8>
    decreases cs.len(),
{
    if cs.len() == 0 {
        Seq::empty()
    } else {
        utf16_of_chars(cs.drop_last(), le) + utf16_octets(cs.last() as nat, le)
    }
}

/// What the writer produces for UTF-16 output from the UTF-8 form of a
/// text is the UTF-16 form of each of its characters in turn.
pub proof fn law_utf16_output_per_char(cs: Seq<u32>, le: bool)
    requires
        forall|i: int| 0 <= i < cs.len() ==> cs[i] <= 0x10FFFF,
    ensures
        utf16_output(utf8_encode_all(cs), le) == utf16_of_chars(cs, le),
    decreases cs.len(),
{
    if cs.len() == 0 {
        assert(utf8_encode_all(cs) =~= Seq::<u8>::empty());
    } else {
        law_utf16_output_per_char(cs.drop_last(), le);
        law_utf8_encoding_accepted(cs.drop_last());
        lemma_utf16_output_append(utf8_encode_all(cs.drop_last()), cs.last(), le);
    }
}

/// What the reader reads of a text that the writer wrote in UTF-16 is that
/// text, for every text of characters that a YAML stream may hold.
pub proof fn law_utf16_text_read_back(cs: Seq<u32>, le: bool)
    requires
        forall|i: int| 0 <= i < cs.len() ==> allowed_char(#[trigger] cs[i]),
    ensures
        decodes_fully(
            if le { yaml_encoding_t::YAML_UTF16LE_ENCODING } else { yaml_encoding_t::YAML_UTF16BE_ENCODING },
            utf16_output(utf8_encode_all(cs), le),
        ),
        decoded_chars(
            if le { yaml_encoding_t::YAML_UTF16LE_ENCODING } else { yaml_encoding_t::YAML_UTF16BE_ENCODING },
            utf16_output(utf8_encode_all(cs), le),
        ) == cs,
    decreases cs.len(),
{
    let enc = if le { yaml_encoding_t::YAML_UTF16LE_ENCODING } else { yaml_encoding_t::YAML_UTF16BE_ENCODING };
    law_utf16_output_per_char(cs, le);
    if cs.len() == 0 {
        lemma_decode_empty(enc);
        assert(utf16_of_chars(cs, le) =~= Seq::<u8>::empty());
    } else {
        let init = cs.drop_last();
        assert forall|i: int| 0 <= i < init.len() implies allowed_char(#[trigger] init[i]) by {
            assert(init[i] == cs[i]);
        }
        law_utf16_text_read_back(init, le);
        law_utf16_output_per_char(init, le);
        let v = cs.last();
        assert(allowed_char(cs[cs.len() - 1]));
        let c = utf16_octets(v as nat, le);
        if v < 0x10000 {
            law_utf16_read_back_bmp(v, le, Seq::empty(), false);
        } else {
            law_utf16_read_back_pair(v, le, Seq::empty(), false);
        }
        assert(c + Seq::<u8>::empty() =~= c);
        lemma_decode_append(enc, utf16_of_chars(init, le), c);
        assert(decoded_chars(enc, utf16_of_chars(init, le)).push(v) =~= cs);
    }
}


/// The characters of a quoted scalar's text that stand for themselves: no
/// line break and no escape character of its style.
pub open spec fn literal_char(c: u32, single: bool) -> bool {
    !spec_is_break(c) && c != (if single { 0x27u32 } else { 0x5Cu32 })
}

proof fn lemma_encode_cons(c: u32, rest: Seq<u32>)
    ensures
        utf8_encode_all(seq![c] + rest) == utf8_encode(c) + utf8_encode_all(rest),
{
    lemma_encode_concat(seq![c], rest);
    lemma_encode_push(Seq::<u32>::empty(), c);
    assert(Seq::<u32>::empty().push(c) =~= seq![c]);
    assert(utf8_encode_all(Seq::<u32>::empty()) =~= Seq::<u8>::empty());
}

proof fn lemma_fold_literal(s: Seq<u32>, single: bool, st: FoldState)
    requires
        !st.lb,
        forall|i: int| 0 <= i < s.len() ==> literal_char(#[trigger] s[i], single),
    ensures
        !fold_units(s, single, st).lb,
        fold_finish(fold_units(s, single, st)) == fold_finish(st) + utf8_encode_all(s),
    decreases s.len(),
{
    if s.len() == 0 {
        assert(fold_finish(st) + utf8_encode_all(s) =~= fold_finish(st));
    } else {
        let c = s[0];
        assert(literal_char(c, single));
        assert(unit_len(s, single) == 1);
        let u = s.take(1);
        assert(u =~= seq![c]);
        let st1 = crate::scalars::fold_step(st, u, single);
        let rest = s.skip(1);
        assert forall|i: int| 0 <= i < rest.len() implies literal_char(#[trigger] rest[i], single) by {
            assert(rest[i] == s[i + 1]);
        }
        lemma_fold_literal(rest, single, st1);
        assert(s =~= seq![c] + rest);
        lemma_encode_cons(c, rest);
        if !spec_is_blank(c) {
            assert(elem_value(u, single) == utf8_encode(c));
            assert(fold_gap(st1) =~= Seq::<u8>::empty());
        }
        assert(fold_finish(st1) =~= fold_finish(st) + utf8_encode(c));
    }
}

/// A quoted scalar whose text has no line break and no escape character of
/// its style ('\'' for single-quoted, '\\' for double-quoted) holds that
/// text as it is.
pub proof fn law_quoted_literal_text(s: Seq<u32>, single: bool)
    requires
        forall|i: int| 0 <= i < s.len() ==> literal_char(#[trigger] s[i], single),
    ensures
        flow_value(s, single) == utf8_encode_all(s),
{
    lemma_fold_literal(s, single, fold_start());
    assert(fold_finish(fold_start()) =~= Seq::<u8>::empty());
    assert(Seq::<u8>::empty() + utf8_encode_all(s) =~= utf8_encode_all(s));
}

proof fn lemma_fold_line(s: Seq<u32>, st: FoldState)
    requires
        !st.lb,
        forall|i: int| 0 <= i < s.len() ==> !spec_is_break(#[trigger] s[i]),
    ensures
        !fold_chars(s, st).lb,
        fold_finish(fold_chars(s, st)) == fold_finish(st) + utf8_encode_all(s),
    decreases s.len(),
{
    if s.len() == 0 {
        assert(fold_finish(st) + utf8_encode_all(s) =~= fold_finish(st));
    } else {
        let c = s[0];
        let st1 = fold_char(st, c);
        let rest = s.skip(1);
        assert forall|i: int| 0 <= i < rest.len() implies !spec_is_break(#[trigger] rest[i]) by {
            assert(rest[i] == s[i + 1]);
        }
        lemma_fold_line(rest, st1);
        assert(s =~= seq![c] + rest);
        lemma_encode_cons(c, rest);
        if spec_is_blank(c) {
            assert(seq![c][0] == c);
        } else {
            assert(fold_gap(st1) =~= Seq::<u8>::empty());
        }
        assert(fold_finish(st1) =~= fold_finish(st) + utf8_encode(c));
    }
}

/// A plain scalar on one line that does not end in a blank holds its
/// characters as they are, the blanks between its words included.
pub proof fn law_plain_line_text(s: Seq<u32>)
    requires
        s.len() > 0,
        !spec_is_blank(s.last()),
        forall|i: int| 0 <= i < s.len() ==> !spec_is_break(#[trigger] s[i]),
    ensures
        plain_value(s) == utf8_encode_all(s),
{
    let init = s.drop_last();
    let c = s.last();
    assert forall|i: int| 0 <= i < init.len() implies !spec_is_break(#[trigger] init[i]) by {
        assert(init[i] == s[i]);
    }
    lemma_fold_line(init, fold_start());
    assert(fold_finish(fold_start()) =~= Seq::<u8>::empty());
    assert(!spec_is_break(s[s.len() - 1]));
    crate::scalars::lemma_fold_chars_push(init, c, fold_start());
    assert(init.push(c) =~= s);
    lemma_encode_push(init, c);
    assert(Seq::<u8>::empty() + utf8_encode_all(init) =~= utf8_encode_all(init));
}

} // verus!
