use vstd::prelude::*;
use vstd::string::StringSliceAdditionalSpecFns;
use crate::document::{
    yaml_document_t, yaml_node_data_t, yaml_document_empty, is_empty_document,
    YAML_DEFAULT_SCALAR_TAG, YAML_DEFAULT_SEQUENCE_TAG, YAML_DEFAULT_MAPPING_TAG,
};
use crate::emitter::{yaml_emitter_t, yaml_anchors_t};
use crate::parser::{opt_view, simple_event};
use crate::types::{
    yaml_encoding_t, yaml_event_t, yaml_event_type_t, yaml_event_data_t, yaml_mark_zero,
    zero_mark, yaml_node_type_t, yaml_event_stream_start_t, yaml_event_document_start_t,
    yaml_event_document_start_tag_directives_t, yaml_event_document_end_t, yaml_event_alias_t,
    yaml_event_scalar_t, yaml_event_sequence_start_t, yaml_event_mapping_start_t,
    tag_directives_view,
};

verus! {

// ---------------------------------------------------------------------------
// Handing events to the emitter
// ---------------------------------------------------------------------------

/// Hands an event to the emitter, which takes it into its queue.
pub fn yaml_emitter_emit(emitter: &mut yaml_emitter_t, event: yaml_event_t) -> (r: bool)
    ensures
        r,
        final(emitter).events.items@ == old(emitter).events.items@.push(event),
        *final(emitter) == (yaml_emitter_t { events: final(emitter).events, ..*old(emitter) }),
{
    emitter.events.items.push(event);
    true
}

/// The stream-start event the dumper sends.
pub open spec fn stream_start_event() -> yaml_event_t {
    yaml_event_t {
        type_: yaml_event_type_t::YAML_STREAM_START_EVENT,
        data: yaml_event_data_t::StreamStart(
            yaml_event_stream_start_t { encoding: yaml_encoding_t::YAML_ANY_ENCODING },
        ),
        start_mark: zero_mark(),
        end_mark: zero_mark(),
    }
}

/// Starts the stream: sends a stream-start event.
pub fn yaml_emitter_open(emitter: &mut yaml_emitter_t) -> (r: bool)
    requires
        !old(emitter).opened,
    ensures
        r,
        final(emitter).events.items@ == old(emitter).events.items@.push(stream_start_event()),
        *final(emitter) == (yaml_emitter_t {
            events: final(emitter).events,
            opened: true,
            ..*old(emitter)
        }),
{
    let event = yaml_event_t {
        type_: yaml_event_type_t::YAML_STREAM_START_EVENT,
        data: yaml_event_data_t::StreamStart(
            yaml_event_stream_start_t { encoding: yaml_encoding_t::YAML_ANY_ENCODING },
        ),
        start_mark: yaml_mark_zero(),
        end_mark: yaml_mark_zero(),
    };
    if !yaml_emitter_emit(emitter, event) {
        return false;
    }
    emitter.opened = true;
    true
}

/// Ends the stream: sends a stream-end event, once.
pub fn yaml_emitter_close(emitter: &mut yaml_emitter_t) -> (r: bool)
    requires
        old(emitter).opened,
    ensures
        r,
        old(emitter).closed ==> *final(emitter) == *old(emitter),
        !old(emitter).closed ==> {
            &&& final(emitter).events.items@ == old(emitter).events.items@.push(
                simple_event(yaml_event_type_t::YAML_STREAM_END_EVENT, zero_mark(), zero_mark()),
            )
            &&& *final(emitter) == (yaml_emitter_t {
                events: final(emitter).events,
                closed: true,
                ..*old(emitter)
            })
        },
{
    if emitter.closed {
        return true;
    }
    let event = yaml_event_t {
        type_: yaml_event_type_t::YAML_STREAM_END_EVENT,
        data: yaml_event_data_t::NoData,
        start_mark: yaml_mark_zero(),
        end_mark: yaml_mark_zero(),
    };
    if !yaml_emitter_emit(emitter, event) {
        return false;
    }
    emitter.closed = true;
    true
}

// ---------------------------------------------------------------------------
// Counting anchor records
// ---------------------------------------------------------------------------

/// The kinds of anchor records that are counted: not referred to yet, not
/// serialized yet, and given an anchor.
pub open spec fn record_is(a: yaml_anchors_t, kind: int) -> bool {
    if kind == 0 {
        a.references == 0
    } else if kind == 1 {
        !a.serialized
    } else {
        a.anchor != 0
    }
}

/// How many records of `s` are of the kind `kind`.
pub open spec fn count_where(s: Seq<yaml_anchors_t>, kind: int) -> nat
    decreases s.len(),
{
    if s.len() == 0 {
        0
    } else {
        count_where(s.drop_last(), kind) + if record_is(s.last(), kind) {
            1nat
        } else {
            0nat
        }
    }
}

proof fn lemma_count_update(s: Seq<yaml_anchors_t>, i: int, a: yaml_anchors_t, kind: int)
    requires
        0 <= i < s.len(),
    ensures
        count_where(s.update(i, a), kind) + (if record_is(s[i], kind) { 1int } else { 0int }) == count_where(s, kind)
            + (if record_is(a, kind) { 1int } else { 0int }),
    decreases s.len(),
{
    let t = s.update(i, a);
    if i == s.len() - 1 {
        assert(t.drop_last() =~= s.drop_last());
    } else {
        assert(t.drop_last() =~= s.drop_last().update(i, a));
        lemma_count_update(s.drop_last(), i, a, kind);
    }
}

proof fn lemma_count_bound(s: Seq<yaml_anchors_t>, kind: int)
    ensures
        count_where(s, kind) <= s.len(),
    decreases s.len(),
{
    if s.len() > 0 {
        lemma_count_bound(s.drop_last(), kind);
    }
}

proof fn lemma_count_miss(s: Seq<yaml_anchors_t>, i: int, kind: int)
    requires
        0 <= i < s.len(),
        !record_is(s[i], kind),
    ensures
        count_where(s, kind) < s.len(),
    decreases s.len(),
{
    if i == s.len() - 1 {
        lemma_count_bound(s.drop_last(), kind);
    } else {
        lemma_count_miss(s.drop_last(), i, kind);
    }
}

proof fn lemma_count_zero(n: nat, kind: int)
    ensures
        count_where(Seq::new(n, |i: int| yaml_anchors_t { references: 0, anchor: 0, serialized: false }), kind)
            == if record_is(yaml_anchors_t { references: 0, anchor: 0, serialized: false }, kind) {
            n
        } else {
            0
        },
    decreases n,
{
    let s = Seq::new(n, |i: int| yaml_anchors_t { references: 0, anchor: 0, serialized: false });
    if n > 0 {
        assert(s.drop_last() =~= Seq::new(
            (n - 1) as nat,
            |i: int| yaml_anchors_t { references: 0, anchor: 0, serialized: false },
        ));
        lemma_count_zero((n - 1) as nat, kind);
    }
}

// ---------------------------------------------------------------------------
// Documents the dumper can walk
// ---------------------------------------------------------------------------

/// `id` names one of the nodes `nodes`.
pub open spec fn id_in(nodes: Seq<crate::document::yaml_node_t>, id: int) -> bool {
    0 < id <= nodes.len()
}

/// The kind of node `i` agrees with its content, and every node it refers
/// to is one of `nodes`.
pub open spec fn node_wf(nodes: Seq<crate::document::yaml_node_t>, i: int) -> bool {
    let n = nodes[i];
    match n.data {
        yaml_node_data_t::Scalar(_) => n.type_ == yaml_node_type_t::YAML_SCALAR_NODE,
        yaml_node_data_t::Sequence(q) => {
            &&& n.type_ == yaml_node_type_t::YAML_SEQUENCE_NODE
            &&& forall|k: int| 0 <= k < q.items.items@.len() ==> id_in(nodes, #[trigger] q.items.items@[k] as int)
        },
        yaml_node_data_t::Mapping(m) => {
            &&& n.type_ == yaml_node_type_t::YAML_MAPPING_NODE
            &&& forall|k: int|
                0 <= k < m.pairs.items@.len() ==> id_in(nodes, #[trigger] m.pairs.items@[k].key as int)
                    && id_in(nodes, m.pairs.items@[k].value as int)
        },
        yaml_node_data_t::NoData => false,
    }
}

/// Every node of the document is well formed, and their ids fit an `i32`.
pub open spec fn doc_wf(d: yaml_document_t) -> bool {
    &&& d.nodes.items@.len() < i32::MAX
    &&& forall|i: int| 0 <= i < d.nodes.items@.len() ==> #[trigger] node_wf(d.nodes.items@, i)
}

/// Every id in `items` is from 1 to `n`.
fn ids_in_range(items: &Vec<i32>, n: usize) -> (r: bool)
    ensures
        r == forall|k: int| 0 <= k < items@.len() ==> 0 < #[trigger] items@[k] <= n,
{
    let mut k: usize = 0;
    while k < items.len()
        invariant
            k <= items@.len(),
            forall|j: int| 0 <= j < k ==> 0 < #[trigger] items@[j] <= n,
        decreases items@.len() - k,
    {
        let id = items[k];
        if !(id > 0 && (id as usize) <= n) {
            return false;
        }
        k = k + 1;
    }
    true
}

/// Every key and value in `pairs` is from 1 to `n`.
fn pairs_in_range(pairs: &Vec<crate::document::yaml_node_pair_t>, n: usize) -> (r: bool)
    ensures
        r == forall|k: int|
            0 <= k < pairs@.len() ==> 0 < #[trigger] pairs@[k].key <= n && 0 < pairs@[k].value <= n,
{
    let mut k: usize = 0;
    while k < pairs.len()
        invariant
            k <= pairs@.len(),
            forall|j: int| 0 <= j < k ==> 0 < #[trigger] pairs@[j].key <= n && 0 < pairs@[j].value <= n,
        decreases pairs@.len() - k,
    {
        let key = pairs[k].key;
        let value = pairs[k].value;
        if !(key > 0 && (key as usize) <= n && value > 0 && (value as usize) <= n) {
            return false;
        }
        k = k + 1;
    }
    true
}

/// Checks that node `i` of a document is well formed.
fn node_is_wf(d: &yaml_document_t, i: usize) -> (r: bool)
    requires
        i < d.nodes.items@.len(),
    ensures
        r == node_wf(d.nodes.items@, i as int),
{
    let n = d.nodes.items.len();
    let node = &d.nodes.items[i];
    match &node.data {
        yaml_node_data_t::Scalar(_) => node.type_ == yaml_node_type_t::YAML_SCALAR_NODE,
        yaml_node_data_t::Sequence(q) => {
            if node.type_ != yaml_node_type_t::YAML_SEQUENCE_NODE {
                return false;
            }
            let r = ids_in_range(&q.items.items, n);
            assert(r == forall|k: int| 0 <= k < q.items.items@.len() ==> d.has_node(#[trigger] q.items.items@[k] as int));
            r
        },
        yaml_node_data_t::Mapping(m) => {
            if node.type_ != yaml_node_type_t::YAML_MAPPING_NODE {
                return false;
            }
            let r = pairs_in_range(&m.pairs.items, n);
            let ghost ps = m.pairs.items@;
            if r {
                assert forall|k: int| 0 <= k < ps.len() implies d.has_node(#[trigger] ps[k].key as int)
                    && d.has_node(ps[k].value as int) by {
                    assert(0 < ps[k].key <= n && 0 < ps[k].value <= n);
                }
            } else {
                proof {
                    let k = choose|k: int| 0 <= k < ps.len() && !(0 < #[trigger] ps[k].key <= n && 0 < ps[k].value <= n);
                    assert(!(d.has_node(ps[k].key as int) && d.has_node(ps[k].value as int)));
                }
            }
            r
        },
        yaml_node_data_t::NoData => false,
    }
}

/// Checks that a document is one the dumper can walk.
pub fn yaml_document_is_walkable(d: &yaml_document_t) -> (r: bool)
    ensures
        r == doc_wf(*d),
{
    let n = d.nodes.items.len();
    if n >= i32::MAX as usize {
        return false;
    }
    let mut i: usize = 0;
    while i < n
        invariant
            i <= n,
            n == d.nodes.items@.len(),
            n < i32::MAX,
            forall|j: int| 0 <= j < i ==> #[trigger] node_wf(d.nodes.items@, j),
        decreases n - i,
    {
        if !node_is_wf(d, i) {
            return false;
        }
        i = i + 1;
    }
    true
}

// ---------------------------------------------------------------------------
// Anchors
// ---------------------------------------------------------------------------

/// The anchor records agree with the reference counts: a node has an
/// anchor exactly when it is referred to twice or more, the anchors are
/// distinct, and they are the numbers from 1 to `last`.
pub open spec fn anchors_wf(s: Seq<yaml_anchors_t>, last: i32) -> bool {
    &&& forall|i: int| 0 <= i < s.len() ==> 0 <= #[trigger] s[i].references
    &&& forall|i: int| 0 <= i < s.len() ==> (#[trigger] s[i].anchor != 0) == (s[i].references >= 2)
    &&& forall|i: int| 0 <= i < s.len() ==> 0 <= #[trigger] s[i].anchor <= last
    &&& forall|i: int, j: int|
        0 <= i < s.len() && 0 <= j < s.len() && i != j && #[trigger] s[i].anchor != 0 ==> s[i].anchor
            != #[trigger] s[j].anchor
    &&& last == count_where(s, 2)
}

/// What walking from a node keeps of the anchor records: their number,
/// the serialized flags, and references never go down.
pub open spec fn anchor_step(a: Seq<yaml_anchors_t>, b: Seq<yaml_anchors_t>) -> bool {
    &&& b.len() == a.len()
    &&& forall|i: int| 0 <= i < a.len() ==> #[trigger] b[i].serialized == a[i].serialized
    &&& forall|i: int| 0 <= i < a.len() ==> #[trigger] b[i].references >= a[i].references
}

/// Counts one more reference to the record `k`; the second reference
/// gives it the next anchor id.
fn count_reference(emitter: &mut yaml_emitter_t, k: usize) -> (refs: i32)
    requires
        k < old(emitter).anchors@.len() < i32::MAX,
        anchors_wf(old(emitter).anchors@, old(emitter).last_anchor_id),
    ensures
        anchors_wf(final(emitter).anchors@, final(emitter).last_anchor_id),
        anchor_step(old(emitter).anchors@, final(emitter).anchors@),
        refs == final(emitter).anchors@[k as int].references,
        refs >= 1,
        refs == 1 <==> old(emitter).anchors@[k as int].references == 0,
        forall|i: int| 0 <= i < old(emitter).anchors@.len() && i != k ==> #[trigger] final(emitter).anchors@[i]
            == old(emitter).anchors@[i],
        count_where(final(emitter).anchors@, 0) + (if refs == 1 { 1int } else { 0int }) == count_where(
            old(emitter).anchors@,
            0,
        ),
        *final(emitter) == (yaml_emitter_t {
            anchors: final(emitter).anchors,
            last_anchor_id: final(emitter).last_anchor_id,
            ..*old(emitter)
        }),
{
    let ghost s0 = emitter.anchors@;
    let mut a = emitter.anchors[k];
    if a.references < i32::MAX {
        a.references = a.references + 1;
    }
    if a.references == 2 {
        proof {
            lemma_count_miss(s0, k as int, 2);
        }
        emitter.last_anchor_id = emitter.last_anchor_id + 1;
        a.anchor = emitter.last_anchor_id;
    }
    emitter.anchors.set(k, a);
    proof {
        lemma_count_update(s0, k as int, a, 0);
        lemma_count_update(s0, k as int, a, 2);
        assert(emitter.anchors@ == s0.update(k as int, a));
        let s1 = emitter.anchors@;
        assert forall|i: int, j: int|
            0 <= i < s1.len() && 0 <= j < s1.len() && i != j && #[trigger] s1[i].anchor != 0 implies s1[i].anchor
            != #[trigger] s1[j].anchor by {
            if i != k && j != k {
                assert(s0[i].anchor != s0[j].anchor);
            }
        }
    }
    a.references
}

/// `b` follows `a` in a walk: `anchor_step` is transitive.
proof fn lemma_step_trans(a: Seq<yaml_anchors_t>, b: Seq<yaml_anchors_t>, c: Seq<yaml_anchors_t>)
    requires
        anchor_step(a, b),
        anchor_step(b, c),
    ensures
        anchor_step(a, c),
{
    assert forall|i: int| 0 <= i < a.len() implies #[trigger] c[i].references >= a[i].references by {
        assert(b[i].references >= a[i].references);
        assert(c[i].references >= b[i].references);
    }
    assert forall|i: int| 0 <= i < a.len() implies #[trigger] c[i].serialized == a[i].serialized by {
        assert(b[i].serialized == a[i].serialized);
        assert(c[i].serialized == b[i].serialized);
    }
}

/// What the walk from a node keeps and promises.
pub open spec fn anchor_walk(d: yaml_document_t, a: yaml_emitter_t, b: yaml_emitter_t, index: int) -> bool {
    &&& anchors_wf(b.anchors@, b.last_anchor_id)
    &&& anchor_step(a.anchors@, b.anchors@)
    &&& b.anchors@[index - 1].references >= 1
    &&& count_where(b.anchors@, 0) <= count_where(a.anchors@, 0)
    &&& b == (yaml_emitter_t { anchors: b.anchors, last_anchor_id: b.last_anchor_id, ..a })
}

/// Counts a reference to node `index`; on its first reference the nodes it
/// refers to are counted too, and on its second it gets the next anchor id.
fn yaml_emitter_anchor_node(emitter: &mut yaml_emitter_t, document: &yaml_document_t, index: i32)
    requires
        doc_wf(*document),
        old(emitter).anchors@.len() == document.nodes.items@.len(),
        document.has_node(index as int),
        anchors_wf(old(emitter).anchors@, old(emitter).last_anchor_id),
    ensures
        anchor_walk(*document, *old(emitter), *final(emitter), index as int),
    decreases count_where(old(emitter).anchors@, 0),
{
    let k = (index - 1) as usize;
    let ghost e0 = *emitter;
    let refs = count_reference(emitter, k);
    let ghost e1 = *emitter;
    if refs == 1 {
        assert(node_wf(document.nodes.items@, k as int));
        match &document.nodes.items[k].data {
            yaml_node_data_t::Sequence(q) => {
                let mut j: usize = 0;
                while j < q.items.items.len()
                    invariant
                        j <= q.items.items@.len(),
                        doc_wf(*document),
                        document.has_node(index as int),
                        forall|t: int| 0 <= t < q.items.items@.len() ==> document.has_node(#[trigger] q.items.items@[t] as int),
                        emitter.anchors@.len() == document.nodes.items@.len(),
                        count_where(emitter.anchors@, 0) < count_where(e0.anchors@, 0),
                        e0 == *old(emitter),
                        anchor_walk(*document, e1, *emitter, index as int),
                        anchor_step(e0.anchors@, e1.anchors@),
                        e1 == (yaml_emitter_t { anchors: e1.anchors, last_anchor_id: e1.last_anchor_id, ..e0 }),
                    decreases q.items.items@.len() - j,
                {
                    let item = q.items.items[j];
                    assert(document.has_node(q.items.items@[j as int] as int));
                    let ghost before = *emitter;
                    yaml_emitter_anchor_node(emitter, document, item);
                    proof { lemma_step_trans(e1.anchors@, before.anchors@, emitter.anchors@); 
                    assert(emitter.anchors@[index - 1].references >= before.anchors@[index - 1].references);
                    assert(*emitter == (yaml_emitter_t { anchors: emitter.anchors, last_anchor_id: emitter.last_anchor_id, ..e1 }));
                    }
                    j = j + 1;
                }
            },
            yaml_node_data_t::Mapping(m) => {
                let mut j: usize = 0;
                while j < m.pairs.items.len()
                    invariant
                        j <= m.pairs.items@.len(),
                        doc_wf(*document),
                        document.has_node(index as int),
                        forall|t: int|
                            0 <= t < m.pairs.items@.len() ==> document.has_node(#[trigger] m.pairs.items@[t].key as int)
                                && document.has_node(m.pairs.items@[t].value as int),
                        emitter.anchors@.len() == document.nodes.items@.len(),
                        count_where(emitter.anchors@, 0) < count_where(e0.anchors@, 0),
                        e0 == *old(emitter),
                        anchor_walk(*document, e1, *emitter, index as int),
                        anchor_step(e0.anchors@, e1.anchors@),
                        e1 == (yaml_emitter_t { anchors: e1.anchors, last_anchor_id: e1.last_anchor_id, ..e0 }),
                    decreases m.pairs.items@.len() - j,
                {
                    let key = m.pairs.items[j].key;
                    let value = m.pairs.items[j].value;
                    assert(document.has_node(m.pairs.items@[j as int].key as int));
                    let ghost before = *emitter;
                    yaml_emitter_anchor_node(emitter, document, key);
                    proof { lemma_step_trans(e1.anchors@, before.anchors@, emitter.anchors@); 
                    assert(emitter.anchors@[index - 1].references >= before.anchors@[index - 1].references);
                    assert(*emitter == (yaml_emitter_t { anchors: emitter.anchors, last_anchor_id: emitter.last_anchor_id, ..e1 }));
                    }
                    let ghost before2 = *emitter;
                    yaml_emitter_anchor_node(emitter, document, value);
                    proof { lemma_step_trans(e1.anchors@, before2.anchors@, emitter.anchors@); 
                    assert(emitter.anchors@[index - 1].references >= before2.anchors@[index - 1].references);
                    assert(*emitter == (yaml_emitter_t { anchors: emitter.anchors, last_anchor_id: emitter.last_anchor_id, ..e1 }));
                    }
                    j = j + 1;
                }
            },
            _ => {},
        }
    }
    proof { lemma_step_trans(e0.anchors@, e1.anchors@, emitter.anchors@); }
}

// ---------------------------------------------------------------------------
// Anchor names
// ---------------------------------------------------------------------------

/// The decimal digits of `n`.
pub open spec fn decimal(n: nat) -> Seq<u8>
    decreases n,
{
    if n < 10 {
        seq![(48 + n) as u8]
    } else {
        decimal(n / 10).push((48 + n % 10) as u8)
    }
}

/// The name of the anchor with id `id`: "id" and the id in decimal, with
/// at least three digits.
pub open spec fn anchor_text(id: nat) -> Seq<u8> {
    let d = decimal(id);
    seq![105u8, 100u8] + if d.len() < 3 {
        Seq::new((3 - d.len()) as nat, |i: int| 48u8) + d
    } else {
        d
    }
}

/// The anchor a node is serialized with: none for the id 0.
pub open spec fn anchor_opt(id: i32) -> Option<Seq<u8>> {
    if id == 0 {
        None
    } else {
        Some(anchor_text(id as nat))
    }
}

proof fn lemma_decimal_len(n: nat)
    ensures
        decimal(n).len() >= 1,
        n < 10 ==> decimal(n).len() == 1,
        10 <= n < 100 ==> decimal(n).len() == 2,
    decreases n,
{
    if n >= 10 {
        lemma_decimal_len(n / 10);
    }
}

fn push_decimal(v: &mut Vec<u8>, n: u32)
    ensures
        final(v)@ == old(v)@ + decimal(n as nat),
    decreases n,
{
    if n >= 10 {
        push_decimal(v, n / 10);
    }
    v.push((48 + n % 10) as u8);
    assert(final(v)@ =~= old(v)@ + decimal(n as nat));
}

/// The name of the anchor with id `anchor_id`.
fn yaml_emitter_generate_anchor(anchor_id: i32) -> (r: Vec<u8>)
    requires
        anchor_id >= 0,
    ensures
        r@ == anchor_text(anchor_id as nat),
{
    let mut digits: Vec<u8> = Vec::new();
    push_decimal(&mut digits, anchor_id as u32);
    assert(digits@ =~= decimal(anchor_id as nat));
    let mut out: Vec<u8> = Vec::new();
    out.push(105u8);
    out.push(100u8);
    let mut pad: usize = digits.len();
    let ghost zeros = if digits@.len() < 3 {
        Seq::new((3 - digits@.len()) as nat, |i: int| 48u8)
    } else {
        Seq::empty()
    };
    while pad < 3
        invariant
            digits@.len() <= pad <= 3 || (pad == digits@.len() && pad >= 3),
            out@ == seq![105u8, 100u8] + Seq::new((pad - digits@.len()) as nat, |i: int| 48u8),
        decreases 3 - pad,
    {
        out.push(48u8);
        pad = pad + 1;
        assert(out@ =~= seq![105u8, 100u8] + Seq::new((pad - digits@.len()) as nat, |i: int| 48u8));
    }
    let mut i: usize = 0;
    let ghost head = out@;
    while i < digits.len()
        invariant
            i <= digits@.len(),
            out@ == head + digits@.take(i as int),
        decreases digits@.len() - i,
    {
        out.push(digits[i]);
        i = i + 1;
        assert(out@ =~= head + digits@.take(i as int));
    }
    assert(digits@.take(digits@.len() as int) =~= digits@);
    proof {
        if digits@.len() >= 3 {
            assert(Seq::new(0nat, |i: int| 48u8) =~= Seq::<u8>::empty());
            assert(out@ =~= anchor_text(anchor_id as nat));
        } else {
            assert(out@ =~= anchor_text(anchor_id as nat));
        }
    }
    out
}

// ---------------------------------------------------------------------------
// Serializing nodes
// ---------------------------------------------------------------------------

/// 1 when the tag is the default one, else 0.
pub open spec fn implicit_for(tag: Seq<u8>, default: &str) -> i32 {
    if tag == default.spec_bytes() {
        1
    } else {
        0
    }
}

fn bytes_eq(a: &[u8], b: &[u8]) -> (r: bool)
    ensures
        r == (a@ == b@),
{
    if a.len() != b.len() {
        return false;
    }
    let mut i: usize = 0;
    while i < a.len()
        invariant
            i <= a@.len() == b@.len(),
            forall|j: int| 0 <= j < i ==> a@[j] == b@[j],
        decreases a@.len() - i,
    {
        if a[i] != b[i] {
            return false;
        }
        i = i + 1;
    }
    assert(a@ =~= b@);
    true
}

/// A copy of the octets of `v`.
fn copy_bytes(v: &Vec<u8>) -> (r: Vec<u8>)
    ensures
        r@ == v@,
{
    let r = crate::events::copy_prefix(v.as_slice(), v.len());
    assert(v@.take(v@.len() as int) =~= v@);
    r
}

/// A copy of an optional string.
fn copy_opt(v: &Option<Vec<u8>>) -> (r: Option<Vec<u8>>)
    ensures
        opt_view(r) == opt_view(*v),
{
    match v {
        Some(b) => Some(copy_bytes(b)),
        None => None,
    }
}

/// The event that starts the serialization of the node `n` with the
/// anchor id `id`.
pub open spec fn node_event_is(ev: yaml_event_t, n: crate::document::yaml_node_t, id: i32) -> bool {
    &&& ev.start_mark == zero_mark()
    &&& ev.end_mark == zero_mark()
    &&& match n.data {
        yaml_node_data_t::Scalar(d) => crate::parser::scalar_event_is(
            ev,
            anchor_opt(id),
            Some(n.tag@),
            d.value@,
            (implicit_for(n.tag@, YAML_DEFAULT_SCALAR_TAG), implicit_for(n.tag@, YAML_DEFAULT_SCALAR_TAG)),
            d.style,
            zero_mark(),
            zero_mark(),
        ),
        yaml_node_data_t::Sequence(d) => {
            &&& ev.type_ == yaml_event_type_t::YAML_SEQUENCE_START_EVENT
            &&& ev.data matches yaml_event_data_t::SequenceStart(e) && {
                &&& opt_view(e.anchor) == anchor_opt(id)
                &&& opt_view(e.tag) == Some(n.tag@)
                &&& e.implicit == implicit_for(n.tag@, YAML_DEFAULT_SEQUENCE_TAG)
                &&& e.style == d.style
            }
        },
        yaml_node_data_t::Mapping(d) => {
            &&& ev.type_ == yaml_event_type_t::YAML_MAPPING_START_EVENT
            &&& ev.data matches yaml_event_data_t::MappingStart(e) && {
                &&& opt_view(e.anchor) == anchor_opt(id)
                &&& opt_view(e.tag) == Some(n.tag@)
                &&& e.implicit == implicit_for(n.tag@, YAML_DEFAULT_MAPPING_TAG)
                &&& e.style == d.style
            }
        },
        yaml_node_data_t::NoData => false,
    }
}

/// An alias event for the anchor id `id` (an empty name for the id 0).
pub open spec fn alias_event_is(ev: yaml_event_t, id: i32) -> bool {
    &&& ev.type_ == yaml_event_type_t::YAML_ALIAS_EVENT
    &&& ev.start_mark == zero_mark()
    &&& ev.end_mark == zero_mark()
    &&& ev.data matches yaml_event_data_t::Alias(a) && a.anchor@ == match anchor_opt(id) {
        Some(t) => t,
        None => Seq::empty(),
    }
}

/// What serializing keeps of the anchor records: their number, references
/// and anchors; a node serialized stays serialized.
pub open spec fn dump_step(a: Seq<yaml_anchors_t>, b: Seq<yaml_anchors_t>) -> bool {
    &&& b.len() == a.len()
    &&& forall|i: int| 0 <= i < a.len() ==> #[trigger] b[i].references == a[i].references
    &&& forall|i: int| 0 <= i < a.len() ==> #[trigger] b[i].anchor == a[i].anchor
    &&& forall|i: int| 0 <= i < a.len() && a[i].serialized ==> #[trigger] b[i].serialized
}

/// The emitter after sending events: only the events and the anchor
/// records changed, events were only appended, and the records changed as
/// `dump_step` allows.
pub open spec fn dump_frame(a: yaml_emitter_t, b: yaml_emitter_t) -> bool {
    &&& a.events.items@.is_prefix_of(b.events.items@)
    &&& dump_step(a.anchors@, b.anchors@)
    &&& count_where(b.anchors@, 1) <= count_where(a.anchors@, 1)
    &&& b == (yaml_emitter_t { events: b.events, anchors: b.anchors, ..a })
}

proof fn lemma_dump_frame_trans(a: yaml_emitter_t, b: yaml_emitter_t, c: yaml_emitter_t)
    requires
        dump_frame(a, b),
        dump_frame(b, c),
    ensures
        dump_frame(a, c),
{
    assert forall|i: int| 0 <= i < a.anchors@.len() implies #[trigger] c.anchors@[i].references
        == a.anchors@[i].references && c.anchors@[i].anchor == a.anchors@[i].anchor by {
        assert(b.anchors@[i].references == a.anchors@[i].references);
        assert(c.anchors@[i].references == b.anchors@[i].references);
        assert(b.anchors@[i].anchor == a.anchors@[i].anchor);
        assert(c.anchors@[i].anchor == b.anchors@[i].anchor);
    }
    assert forall|i: int| 0 <= i < a.anchors@.len() && a.anchors@[i].serialized implies #[trigger] c.anchors@[i].serialized by {
        assert(b.anchors@[i].serialized);
    }
    assert forall|i: int| 0 <= i < a.anchors@.len() implies #[trigger] c.anchors@[i].anchor == a.anchors@[i].anchor by {
        assert(b.anchors@[i].anchor == a.anchors@[i].anchor);
    }
}

/// The emitter can serialize nodes of `d`: one record per node, and no
/// negative anchor id.
pub open spec fn dump_ready(d: yaml_document_t, e: yaml_emitter_t) -> bool {
    &&& doc_wf(d)
    &&& e.anchors@.len() == d.nodes.items@.len()
    &&& forall|i: int| 0 <= i < e.anchors@.len() ==> #[trigger] e.anchors@[i].anchor >= 0
}

proof fn lemma_ready_kept(d: yaml_document_t, a: yaml_emitter_t, b: yaml_emitter_t)
    requires
        dump_ready(d, a),
        dump_frame(a, b),
    ensures
        dump_ready(d, b),
{
    assert forall|i: int| 0 <= i < b.anchors@.len() implies #[trigger] b.anchors@[i].anchor >= 0 by {
        assert(b.anchors@[i].anchor == a.anchors@[i].anchor);
    }
}

/// Sends an alias event.
fn yaml_emitter_dump_alias(emitter: &mut yaml_emitter_t, anchor: Option<Vec<u8>>) -> (r: bool)
    ensures
        r,
        final(emitter).events.items@.len() == old(emitter).events.items@.len() + 1,
        final(emitter).events.items@.drop_last() == old(emitter).events.items@,
        final(emitter).events.items@.last().type_ == yaml_event_type_t::YAML_ALIAS_EVENT,
        final(emitter).events.items@.last().start_mark == zero_mark(),
        final(emitter).events.items@.last().end_mark == zero_mark(),
        final(emitter).events.items@.last().data matches yaml_event_data_t::Alias(a) && a.anchor@
            == match opt_view(anchor) {
            Some(t) => t,
            None => Seq::empty(),
        },
        *final(emitter) == (yaml_emitter_t { events: final(emitter).events, ..*old(emitter) }),
{
    let name = match anchor {
        Some(a) => a,
        None => Vec::new(),
    };
    let event = yaml_event_t {
        type_: yaml_event_type_t::YAML_ALIAS_EVENT,
        data: yaml_event_data_t::Alias(yaml_event_alias_t { anchor: name }),
        start_mark: yaml_mark_zero(),
        end_mark: yaml_mark_zero(),
    };
    let r = yaml_emitter_emit(emitter, event);
    assert(emitter.events.items@.drop_last() =~= old(emitter).events.items@);
    r
}

/// Sends the scalar event of a scalar node.
fn yaml_emitter_dump_scalar(
    emitter: &mut yaml_emitter_t,
    node: &crate::document::yaml_node_t,
    anchor: Option<Vec<u8>>,
    Ghost(id): Ghost<i32>,
) -> (r: bool)
    requires
        node.data is Scalar,
        opt_view(anchor) == anchor_opt(id),
    ensures
        r,
        final(emitter).events.items@.len() == old(emitter).events.items@.len() + 1,
        final(emitter).events.items@.drop_last() == old(emitter).events.items@,
        node_event_is(final(emitter).events.items@.last(), *node, id),
        *final(emitter) == (yaml_emitter_t { events: final(emitter).events, ..*old(emitter) }),
{
    let implicit: i32 = if bytes_eq(node.tag.as_slice(), YAML_DEFAULT_SCALAR_TAG.as_bytes()) {
        1
    } else {
        0
    };
    let (value, style) = match &node.data {
        yaml_node_data_t::Scalar(d) => (copy_bytes(&d.value), d.style),
        _ => (Vec::new(), crate::types::yaml_scalar_style_t::YAML_ANY_SCALAR_STYLE),
    };
    let event = yaml_event_t {
        type_: yaml_event_type_t::YAML_SCALAR_EVENT,
        data: yaml_event_data_t::Scalar(yaml_event_scalar_t {
            anchor,
            tag: Some(copy_bytes(&node.tag)),
            value,
            plain_implicit: implicit,
            quoted_implicit: implicit,
            style,
        }),
        start_mark: yaml_mark_zero(),
        end_mark: yaml_mark_zero(),
    };
    let r = yaml_emitter_emit(emitter, event);
    assert(emitter.events.items@.drop_last() =~= old(emitter).events.items@);
    r
}

/// Sending one event is a step that keeps the frame.
proof fn lemma_emit_frame(a: yaml_emitter_t, b: yaml_emitter_t)
    requires
        b.events.items@.drop_last() == a.events.items@,
        b.events.items@.len() == a.events.items@.len() + 1,
        b == (yaml_emitter_t { events: b.events, ..a }),
    ensures
        dump_frame(a, b),
{
    assert(a.events.items@ =~= b.events.items@.subrange(0, a.events.items@.len() as int));
}

/// The start event of a collection node, and whether it is a sequence.
fn collection_start_event(
    node: &crate::document::yaml_node_t,
    anchor: Option<Vec<u8>>,
    Ghost(id): Ghost<i32>,
) -> (ev: yaml_event_t)
    requires
        node.data is Sequence || node.data is Mapping,
        opt_view(anchor) == anchor_opt(id),
    ensures
        node_event_is(ev, *node, id),
{
    let tag = copy_bytes(&node.tag);
    match &node.data {
        yaml_node_data_t::Sequence(d) => {
            let implicit: i32 = if bytes_eq(node.tag.as_slice(), YAML_DEFAULT_SEQUENCE_TAG.as_bytes()) {
                1
            } else {
                0
            };
            yaml_event_t {
                type_: yaml_event_type_t::YAML_SEQUENCE_START_EVENT,
                data: yaml_event_data_t::SequenceStart(yaml_event_sequence_start_t {
                    anchor,
                    tag: Some(tag),
                    implicit,
                    style: d.style,
                }),
                start_mark: yaml_mark_zero(),
                end_mark: yaml_mark_zero(),
            }
        },
        _ => {
            let implicit: i32 = if bytes_eq(node.tag.as_slice(), YAML_DEFAULT_MAPPING_TAG.as_bytes()) {
                1
            } else {
                0
            };
            let style = match &node.data {
                yaml_node_data_t::Mapping(d) => d.style,
                _ => crate::types::yaml_mapping_style_t::YAML_ANY_MAPPING_STYLE,
            };
            yaml_event_t {
                type_: yaml_event_type_t::YAML_MAPPING_START_EVENT,
                data: yaml_event_data_t::MappingStart(yaml_event_mapping_start_t {
                    anchor,
                    tag: Some(tag),
                    implicit,
                    style,
                }),
                start_mark: yaml_mark_zero(),
                end_mark: yaml_mark_zero(),
            }
        },
    }
}

/// What serializing node `index` sends first: an alias when the node was
/// serialized before, else the event that starts the node.
pub open spec fn first_event_ok(d: yaml_document_t, a: yaml_emitter_t, b: yaml_emitter_t, index: int) -> bool {
    let rec = a.anchors@[index - 1];
    let ev = b.events.items@[a.events.items@.len() as int];
    &&& b.events.items@.len() > a.events.items@.len()
    &&& if rec.serialized {
        &&& b.events.items@.len() == a.events.items@.len() + 1
        &&& alias_event_is(ev, rec.anchor)
    } else {
        node_event_is(ev, d.node(index), rec.anchor)
    }
}

/// Serializes node `index`: an alias if it was serialized before, else
/// its events (and those of the nodes it refers to).
fn yaml_emitter_dump_node(
    emitter: &mut yaml_emitter_t,
    document: &yaml_document_t,
    index: i32,
    Ghost(f): Ghost<nat>,
) -> (r: bool)
    requires
        dump_ready(*document, *old(emitter)),
        document.has_node(index as int),
        f > count_where(old(emitter).anchors@, 1),
    ensures
        r,
        dump_frame(*old(emitter), *final(emitter)),
        final(emitter).anchors@[index - 1].serialized,
        first_event_ok(*document, *old(emitter), *final(emitter), index as int),
        ({
            let w = walk_node(document.nodes.items@, serialized_flags(old(emitter).anchors@), index as int, f);
            &&& serialized_flags(final(emitter).anchors@) == w.1
            &&& events_match(
                final(emitter).events.items@.skip(old(emitter).events.items@.len() as int),
                w.0,
                document.nodes.items@,
                anchor_ids(old(emitter).anchors@),
            )
        }),
    decreases count_where(old(emitter).anchors@, 1), 0int,
{
    let k = (index - 1) as usize;
    let rec = emitter.anchors[k];
    assert(rec.anchor >= 0);
    let anchor: Option<Vec<u8>> = if rec.anchor != 0 {
        Some(yaml_emitter_generate_anchor(rec.anchor))
    } else {
        None
    };
    if rec.serialized {
        let ghost e0 = *emitter;
        let r = yaml_emitter_dump_alias(emitter, anchor);
        proof {
            lemma_emit_frame(e0, *emitter);
            let evs = emitter.events.items@.skip(e0.events.items@.len() as int);
            assert(evs =~= seq![emitter.events.items@.last()]);
            assert(serialized_flags(e0.anchors@)[index - 1]);
            assert(alias_event_is(evs[0], anchor_ids(e0.anchors@)[index - 1]));
        }
        return r;
    }
    let ghost s0 = emitter.anchors@;
    let mut a = rec;
    a.serialized = true;
    emitter.anchors.set(k, a);
    let ghost e1 = *emitter;
    proof {
        lemma_count_update(s0, k as int, a, 1);
        assert(emitter.anchors@ == s0.update(k as int, a));
        assert(dump_frame(*old(emitter), e1)) by {
            assert(old(emitter).events.items@ =~= e1.events.items@.subrange(0, old(emitter).events.items@.len() as int));
        }
        lemma_ready_kept(*document, *old(emitter), e1);
    }
    let node = &document.nodes.items[k];
    assert(node_wf(document.nodes.items@, k as int));
    proof {
        assert(serialized_flags(e1.anchors@) =~= serialized_flags(old(emitter).anchors@).update(
            index - 1,
            true,
        ));
        assert(anchor_ids(e1.anchors@) =~= anchor_ids(old(emitter).anchors@));
        assert(anchor_ids(e1.anchors@)[index - 1] == rec.anchor);
        assert(!serialized_flags(old(emitter).anchors@)[index - 1]);
    }
    let r = match &node.data {
        yaml_node_data_t::Scalar(_) => {
            let r = yaml_emitter_dump_scalar(emitter, node, anchor, Ghost(rec.anchor));
            proof {
                lemma_emit_frame(e1, *emitter);
                let evs = emitter.events.items@.skip(e1.events.items@.len() as int);
                assert(evs =~= seq![emitter.events.items@.last()]);
            }
            r
        },
        yaml_node_data_t::Sequence(_) => {
            yaml_emitter_dump_collection(emitter, document, index, anchor, Ghost(rec.anchor), Ghost((f - 1) as nat))
        },
        yaml_node_data_t::Mapping(_) => {
            yaml_emitter_dump_collection(emitter, document, index, anchor, Ghost(rec.anchor), Ghost((f - 1) as nat))
        },
        yaml_node_data_t::NoData => false,
    };
    proof {
        lemma_dump_frame_trans(*old(emitter), e1, *emitter);
        assert(emitter.anchors@[index - 1].serialized);
        assert(e1.events.items@ == old(emitter).events.items@);
    }
    r
}

/// One event of the serialization of a document, by the node it is about:
/// an alias of a node sent before, the event that starts a node, or the
/// event that ends a collection node.
pub enum DumpItem {
    Alias(int),
    Start(int),
    End(int),
}

/// The serialized flags of the anchor records.
pub open spec fn serialized_flags(s: Seq<yaml_anchors_t>) -> Seq<bool> {
    Seq::new(s.len(), |i: int| s[i].serialized)
}

/// The anchor ids of the anchor records.
pub open spec fn anchor_ids(s: Seq<yaml_anchors_t>) -> Seq<i32> {
    Seq::new(s.len(), |i: int| s[i].anchor)
}

/// The events of node `i` of `d`, for the nodes already serialized `ser`,
/// and the flags afterwards: an alias if `i` was serialized before, else
/// its start event, for a collection the events of the nodes it refers to
/// in order, and its end event (`f` bounds the depth).
pub open spec fn walk_node(nodes: Seq<crate::document::yaml_node_t>, ser: Seq<bool>, i: int, f: nat) -> (Seq<DumpItem>, Seq<bool>)
    decreases f, 0int, 0int,
{
    if f == 0 {
        (Seq::empty(), ser)
    } else if ser[i - 1] {
        (seq![DumpItem::Alias(i)], ser)
    } else {
        let s1 = ser.update(i - 1, true);
        match nodes[i - 1].data {
            yaml_node_data_t::Scalar(_) => (seq![DumpItem::Start(i)], s1),
            yaml_node_data_t::Sequence(q) => {
                let w = walk_items(nodes, s1, q.items.items@, 0, (f - 1) as nat);
                (seq![DumpItem::Start(i)] + w.0 + seq![DumpItem::End(i)], w.1)
            },
            yaml_node_data_t::Mapping(m) => {
                let w = walk_pairs(nodes, s1, m.pairs.items@, 0, (f - 1) as nat);
                (seq![DumpItem::Start(i)] + w.0 + seq![DumpItem::End(i)], w.1)
            },
            yaml_node_data_t::NoData => (Seq::empty(), s1),
        }
    }
}

/// The events of the nodes `items[k..]` in turn.
pub open spec fn walk_items(nodes: Seq<crate::document::yaml_node_t>, ser: Seq<bool>, items: Seq<i32>, k: int, f: nat) -> (
    Seq<DumpItem>,
    Seq<bool>,
)
    decreases f, 1int, items.len() - k,
{
    if k < 0 || k >= items.len() {
        (Seq::empty(), ser)
    } else {
        let a = walk_node(nodes, ser, items[k] as int, f);
        let b = walk_items(nodes, a.1, items, k + 1, f);
        (a.0 + b.0, b.1)
    }
}

/// The events of the keys and values of the pairs `pairs[k..]` in turn.
pub open spec fn walk_pairs(
    nodes: Seq<crate::document::yaml_node_t>,
    ser: Seq<bool>,
    pairs: Seq<crate::document::yaml_node_pair_t>,
    k: int,
    f: nat,
) -> (Seq<DumpItem>, Seq<bool>)
    decreases f, 1int, pairs.len() - k,
{
    if k < 0 || k >= pairs.len() {
        (Seq::empty(), ser)
    } else {
        let a = walk_node(nodes, ser, pairs[k].key as int, f);
        let b = walk_node(nodes, a.1, pairs[k].value as int, f);
        let c = walk_pairs(nodes, b.1, pairs, k + 1, f);
        (a.0 + b.0 + c.0, c.1)
    }
}

/// The events of the nodes that collection node `i` refers to.
pub open spec fn walk_children(nodes: Seq<crate::document::yaml_node_t>, ser: Seq<bool>, i: int, f: nat) -> (Seq<DumpItem>, Seq<bool>) {
    match nodes[i - 1].data {
        yaml_node_data_t::Sequence(q) => walk_items(nodes, ser, q.items.items@, 0, f),
        yaml_node_data_t::Mapping(m) => walk_pairs(nodes, ser, m.pairs.items@, 0, f),
        _ => (Seq::empty(), ser),
    }
}

/// The serialization of a document's nodes from its root, no node sent yet.
pub open spec fn dump_walk(nodes: Seq<crate::document::yaml_node_t>) -> Seq<DumpItem> {
    walk_node(nodes, Seq::new(nodes.len(), |i: int| false), 1, (nodes.len() + 1) as nat).0
}

/// `ev` is the event `it` stands for, with the anchor ids `ids`.
pub open spec fn item_event_is(ev: yaml_event_t, it: DumpItem, nodes: Seq<crate::document::yaml_node_t>, ids: Seq<i32>) -> bool {
    match it {
        DumpItem::Alias(i) => alias_event_is(ev, ids[i - 1]),
        DumpItem::Start(i) => node_event_is(ev, nodes[i - 1], ids[i - 1]),
        DumpItem::End(i) => ev == collection_end_event(nodes[i - 1]),
    }
}

/// The events `evs` are, one by one, those the items stand for.
pub open spec fn events_match(evs: Seq<yaml_event_t>, items: Seq<DumpItem>, nodes: Seq<crate::document::yaml_node_t>, ids: Seq<i32>) -> bool {
    &&& evs.len() == items.len()
    &&& forall|k: int| 0 <= k < evs.len() ==> item_event_is(#[trigger] evs[k], items[k], nodes, ids)
}

/// Anchor ids that name nodes apart: none negative, and no two nodes share
/// an id other than 0 (no anchor).
pub open spec fn ids_distinct(ids: Seq<i32>) -> bool {
    &&& forall|i: int| 0 <= i < ids.len() ==> #[trigger] ids[i] >= 0
    &&& forall|i: int, j: int|
        0 <= i < ids.len() && 0 <= j < ids.len() && i != j && #[trigger] ids[i] != 0 ==> ids[i]
            != #[trigger] ids[j]
}

proof fn lemma_events_match_concat(
    e1: Seq<yaml_event_t>,
    i1: Seq<DumpItem>,
    e2: Seq<yaml_event_t>,
    i2: Seq<DumpItem>,
    d: Seq<crate::document::yaml_node_t>,
    ids: Seq<i32>,
)
    requires
        events_match(e1, i1, d, ids),
        events_match(e2, i2, d, ids),
    ensures
        events_match(e1 + e2, i1 + i2, d, ids),
{
    assert forall|k: int| 0 <= k < (e1 + e2).len() implies item_event_is(#[trigger] (e1 + e2)[k], (i1 + i2)[k], d, ids) by {
        if k < e1.len() {
            assert((e1 + e2)[k] == e1[k]);
            assert((i1 + i2)[k] == i1[k]);
        } else {
            assert((e1 + e2)[k] == e2[k - e1.len()]);
            assert((i1 + i2)[k] == i2[k - i1.len()]);
        }
    }
}

/// Events appended in two steps are the events of the first step, then
/// those of the second.
proof fn lemma_events_split(a: yaml_emitter_t, m: yaml_emitter_t, b: yaml_emitter_t)
    requires
        a.events.items@.is_prefix_of(m.events.items@),
        m.events.items@.is_prefix_of(b.events.items@),
    ensures
        b.events.items@.skip(a.events.items@.len() as int) == m.events.items@.skip(
            a.events.items@.len() as int,
        ) + b.events.items@.skip(m.events.items@.len() as int),
{
    assert(b.events.items@.skip(a.events.items@.len() as int) =~= m.events.items@.skip(
        a.events.items@.len() as int,
    ) + b.events.items@.skip(m.events.items@.len() as int));
}

/// The anchor ids are kept by a step that only sends events and marks
/// nodes serialized.
proof fn lemma_ids_kept(a: Seq<yaml_anchors_t>, b: Seq<yaml_anchors_t>)
    requires
        dump_step(a, b),
    ensures
        anchor_ids(b) == anchor_ids(a),
{
    assert forall|i: int| 0 <= i < a.len() implies #[trigger] anchor_ids(b)[i] == anchor_ids(a)[i] by {
        assert(b[i].anchor == a[i].anchor);
    }
    assert(anchor_ids(b) =~= anchor_ids(a));
}

/// The event that ends a collection node.
pub open spec fn collection_end_event(n: crate::document::yaml_node_t) -> yaml_event_t {
    if n.data is Sequence {
        simple_event(yaml_event_type_t::YAML_SEQUENCE_END_EVENT, zero_mark(), zero_mark())
    } else {
        simple_event(yaml_event_type_t::YAML_MAPPING_END_EVENT, zero_mark(), zero_mark())
    }
}

/// Serializes a collection node marked as serialized: its start event,
/// the nodes it refers to, and its end event.
fn yaml_emitter_dump_collection(
    emitter: &mut yaml_emitter_t,
    document: &yaml_document_t,
    index: i32,
    anchor: Option<Vec<u8>>,
    Ghost(id): Ghost<i32>,
    Ghost(f): Ghost<nat>,
) -> (r: bool)
    requires
        dump_ready(*document, *old(emitter)),
        document.has_node(index as int),
        document.node(index as int).data is Sequence || document.node(index as int).data is Mapping,
        old(emitter).anchors@[index - 1].serialized,
        opt_view(anchor) == anchor_opt(id),
        id == old(emitter).anchors@[index - 1].anchor,
        f > count_where(old(emitter).anchors@, 1),
    ensures
        r,
        dump_frame(*old(emitter), *final(emitter)),
        ({
            let w = walk_children(document.nodes.items@, serialized_flags(old(emitter).anchors@), index as int, f);
            &&& serialized_flags(final(emitter).anchors@) == w.1
            &&& events_match(
                final(emitter).events.items@.skip(old(emitter).events.items@.len() as int),
                seq![DumpItem::Start(index as int)] + w.0 + seq![DumpItem::End(index as int)],
                document.nodes.items@,
                anchor_ids(old(emitter).anchors@),
            )
        }),
        final(emitter).events.items@.len() >= old(emitter).events.items@.len() + 2,
        node_event_is(
            final(emitter).events.items@[old(emitter).events.items@.len() as int],
            document.node(index as int),
            id,
        ),
        final(emitter).events.items@.last() == collection_end_event(document.node(index as int)),
    decreases count_where(old(emitter).anchors@, 1), 1int,
{
    let k = (index - 1) as usize;
    let node = &document.nodes.items[k];
    assert(node_wf(document.nodes.items@, k as int));
    let start = collection_start_event(node, anchor, Ghost(id));
    let ghost start_ev = start;
    let ghost e0 = *emitter;
    yaml_emitter_emit(emitter, start);
    let ghost e1 = *emitter;
    proof {
        assert(emitter.events.items@.drop_last() =~= e0.events.items@);
        lemma_emit_frame(e0, e1);
        lemma_ready_kept(*document, e0, e1);
    }
    let ghost mut end_items: Seq<DumpItem> = Seq::empty();
    proof {
        lemma_ids_kept(e0.anchors@, e1.anchors@);
        assert(serialized_flags(e1.anchors@) =~= serialized_flags(e0.anchors@));
    }
    let is_seq = match &node.data {
        yaml_node_data_t::Sequence(_) => true,
        _ => false,
    };
    match &node.data {
        yaml_node_data_t::Sequence(q) => {
            let ghost items = q.items.items@;
            let ghost mut done: Seq<DumpItem> = Seq::empty();
            proof {
                assert(done + walk_items(document.nodes.items@, serialized_flags(e1.anchors@), items, 0, f).0
                    =~= walk_items(document.nodes.items@, serialized_flags(e1.anchors@), items, 0, f).0);
                assert(emitter.events.items@.skip(e1.events.items@.len() as int) =~= Seq::<yaml_event_t>::empty());
            }
            let mut j: usize = 0;
            while j < q.items.items.len()
                invariant
                    j <= q.items.items@.len(),
                    items == q.items.items@,
                    forall|t: int| 0 <= t < q.items.items@.len() ==> document.has_node(#[trigger] q.items.items@[t] as int),
                    dump_ready(*document, *emitter),
                    dump_frame(e1, *emitter),
                    dump_frame(e0, e1),
                    e0 == *old(emitter),
                    count_where(e1.anchors@, 1) == count_where(e0.anchors@, 1),
                    f > count_where(e0.anchors@, 1),
                    anchor_ids(e1.anchors@) == anchor_ids(e0.anchors@),
                    ({
                        let w0 = walk_items(document.nodes.items@, serialized_flags(e1.anchors@), items, 0, f);
                        let wj = walk_items(document.nodes.items@, serialized_flags(emitter.anchors@), items, j as int, f);
                        &&& w0.0 == done + wj.0
                        &&& w0.1 == wj.1
                    }),
                    events_match(
                        emitter.events.items@.skip(e1.events.items@.len() as int),
                        done,
                        document.nodes.items@,
                        anchor_ids(e0.anchors@),
                    ),
                decreases q.items.items@.len() - j,
            {
                let item = q.items.items[j];
                let ghost before = *emitter;
                proof {
                    lemma_ids_kept(e1.anchors@, before.anchors@);
                }
                yaml_emitter_dump_node(emitter, document, item, Ghost(f));
                proof {
                    lemma_dump_frame_trans(e1, before, *emitter);
                    lemma_events_split(e1, before, *emitter);
                    let a = walk_node(document.nodes.items@, serialized_flags(before.anchors@), item as int, f);
                    lemma_events_match_concat(
                        before.events.items@.skip(e1.events.items@.len() as int),
                        done,
                        emitter.events.items@.skip(before.events.items@.len() as int),
                        a.0,
                        document.nodes.items@,
                        anchor_ids(e0.anchors@),
                    );
                    let b = walk_items(document.nodes.items@, serialized_flags(emitter.anchors@), items, j + 1, f);
                    assert(walk_items(document.nodes.items@, serialized_flags(before.anchors@), items, j as int, f) == (a.0 + b.0, b.1));
                    assert(done + (a.0 + b.0) =~= (done + a.0) + b.0);
                    done = done + a.0;
                }
                j = j + 1;
            }
            proof {
                assert(walk_items(document.nodes.items@, serialized_flags(emitter.anchors@), items, j as int, f).0 =~= Seq::<DumpItem>::empty());
                assert(done + Seq::<DumpItem>::empty() =~= done);
                end_items = done;
            }
        },
        yaml_node_data_t::Mapping(m) => {
            let ghost pairs = m.pairs.items@;
            let ghost mut done: Seq<DumpItem> = Seq::empty();
            proof {
                assert(done + walk_pairs(document.nodes.items@, serialized_flags(e1.anchors@), pairs, 0, f).0
                    =~= walk_pairs(document.nodes.items@, serialized_flags(e1.anchors@), pairs, 0, f).0);
                assert(emitter.events.items@.skip(e1.events.items@.len() as int) =~= Seq::<yaml_event_t>::empty());
            }
            let mut j: usize = 0;
            while j < m.pairs.items.len()
                invariant
                    j <= m.pairs.items@.len(),
                    pairs == m.pairs.items@,
                    forall|t: int|
                        0 <= t < m.pairs.items@.len() ==> document.has_node(#[trigger] m.pairs.items@[t].key as int)
                            && document.has_node(m.pairs.items@[t].value as int),
                    dump_ready(*document, *emitter),
                    dump_frame(e1, *emitter),
                    dump_frame(e0, e1),
                    e0 == *old(emitter),
                    count_where(e1.anchors@, 1) == count_where(e0.anchors@, 1),
                    f > count_where(e0.anchors@, 1),
                    anchor_ids(e1.anchors@) == anchor_ids(e0.anchors@),
                    ({
                        let w0 = walk_pairs(document.nodes.items@, serialized_flags(e1.anchors@), pairs, 0, f);
                        let wj = walk_pairs(document.nodes.items@, serialized_flags(emitter.anchors@), pairs, j as int, f);
                        &&& w0.0 == done + wj.0
                        &&& w0.1 == wj.1
                    }),
                    events_match(
                        emitter.events.items@.skip(e1.events.items@.len() as int),
                        done,
                        document.nodes.items@,
                        anchor_ids(e0.anchors@),
                    ),
                decreases m.pairs.items@.len() - j,
            {
                let key = m.pairs.items[j].key;
                let value = m.pairs.items[j].value;
                assert(document.has_node(m.pairs.items@[j as int].key as int));
                let ghost before = *emitter;
                proof {
                    lemma_ids_kept(e1.anchors@, before.anchors@);
                }
                yaml_emitter_dump_node(emitter, document, key, Ghost(f));
                proof { lemma_dump_frame_trans(e1, before, *emitter); }
                let ghost before2 = *emitter;
                proof {
                    lemma_ids_kept(e1.anchors@, before2.anchors@);
                    lemma_ids_kept(before.anchors@, before2.anchors@);
                }
                yaml_emitter_dump_node(emitter, document, value, Ghost(f));
                proof {
                    lemma_dump_frame_trans(e1, before2, *emitter);
                    lemma_events_split(before, before2, *emitter);
                    lemma_events_split(e1, before, *emitter);
                    let a = walk_node(document.nodes.items@, serialized_flags(before.anchors@), key as int, f);
                    let b = walk_node(document.nodes.items@, a.1, value as int, f);
                    lemma_events_match_concat(
                        before2.events.items@.skip(before.events.items@.len() as int),
                        a.0,
                        emitter.events.items@.skip(before2.events.items@.len() as int),
                        b.0,
                        document.nodes.items@,
                        anchor_ids(e0.anchors@),
                    );
                    lemma_events_match_concat(
                        before.events.items@.skip(e1.events.items@.len() as int),
                        done,
                        emitter.events.items@.skip(before.events.items@.len() as int),
                        a.0 + b.0,
                        document.nodes.items@,
                        anchor_ids(e0.anchors@),
                    );
                    let c = walk_pairs(document.nodes.items@, serialized_flags(emitter.anchors@), pairs, j + 1, f);
                    assert(walk_pairs(document.nodes.items@, serialized_flags(before.anchors@), pairs, j as int, f) == (a.0 + b.0 + c.0, c.1));
                    assert(done + (a.0 + b.0 + c.0) =~= (done + (a.0 + b.0)) + c.0);
                    done = done + (a.0 + b.0);
                }
                j = j + 1;
            }
            proof {
                assert(walk_pairs(document.nodes.items@, serialized_flags(emitter.anchors@), pairs, j as int, f).0 =~= Seq::<DumpItem>::empty());
                assert(done + Seq::<DumpItem>::empty() =~= done);
                end_items = done;
            }
        },
        _ => {},
    }
    let end_type = if is_seq {
        yaml_event_type_t::YAML_SEQUENCE_END_EVENT
    } else {
        yaml_event_type_t::YAML_MAPPING_END_EVENT
    };
    let end = yaml_event_t {
        type_: end_type,
        data: yaml_event_data_t::NoData,
        start_mark: yaml_mark_zero(),
        end_mark: yaml_mark_zero(),
    };
    let ghost e2 = *emitter;
    yaml_emitter_emit(emitter, end);
    proof {
        let w = walk_children(document.nodes.items@, serialized_flags(e0.anchors@), index as int, f);
        assert(end_items == w.0);
        assert(serialized_flags(e2.anchors@) == w.1);
        assert(serialized_flags(emitter.anchors@) == serialized_flags(e2.anchors@));
        lemma_events_split(e0, e1, e2);
        lemma_events_split(e0, e2, *emitter);
        let ids = anchor_ids(e0.anchors@);
        let s1 = e1.events.items@.skip(e0.events.items@.len() as int);
        assert(s1 =~= seq![start_ev]);
        assert(anchor_ids(e0.anchors@)[index - 1] == id);
        assert(events_match(s1, seq![DumpItem::Start(index as int)], document.nodes.items@, ids));
        let s3 = emitter.events.items@.skip(e2.events.items@.len() as int);
        assert(s3 =~= seq![emitter.events.items@.last()]);
        assert(emitter.events.items@.last() == collection_end_event(document.node(index as int)));
        assert(events_match(s3, seq![DumpItem::End(index as int)], document.nodes.items@, ids));
        lemma_events_match_concat(s1, seq![DumpItem::Start(index as int)], e2.events.items@.skip(e1.events.items@.len() as int), end_items, document.nodes.items@, ids);
        lemma_events_match_concat(s1 + e2.events.items@.skip(e1.events.items@.len() as int), seq![DumpItem::Start(index as int)] + end_items, s3, seq![DumpItem::End(index as int)], document.nodes.items@, ids);
    }
    proof {
        assert(emitter.events.items@.drop_last() =~= e2.events.items@);
        lemma_emit_frame(e2, *emitter);
        lemma_dump_frame_trans(e1, e2, *emitter);
        lemma_dump_frame_trans(e0, e1, *emitter);
        assert(e1.events.items@.is_prefix_of(emitter.events.items@));
        assert(emitter.events.items@[e0.events.items@.len() as int] == e1.events.items@[e0.events.items@.len() as int]);
    }
    true
}

// ---------------------------------------------------------------------------
// Documents
// ---------------------------------------------------------------------------

/// Forgets the anchor records and leaves the document empty.
fn yaml_emitter_delete_document_and_anchors(emitter: &mut yaml_emitter_t, document: &mut yaml_document_t)
    ensures
        is_empty_document(*final(document)),
        *final(emitter) == (yaml_emitter_t {
            anchors: final(emitter).anchors,
            last_anchor_id: 0,
            ..*old(emitter)
        }),
        final(emitter).anchors@.len() == 0,
{
    emitter.anchors = Vec::new();
    emitter.last_anchor_id = 0;
    *document = yaml_document_empty();
}

/// `ev` starts the serialization of the node `n` (with some anchor id).
pub open spec fn starts_node(ev: yaml_event_t, n: crate::document::yaml_node_t) -> bool {
    exists|id: i32| node_event_is(ev, n, id)
}

/// The document-start event of a document.
pub open spec fn document_start_is(ev: yaml_event_t, d: yaml_document_t) -> bool {
    &&& ev.type_ == yaml_event_type_t::YAML_DOCUMENT_START_EVENT
    &&& ev.start_mark == zero_mark()
    &&& ev.end_mark == zero_mark()
    &&& ev.data matches yaml_event_data_t::DocumentStart(e) && {
        &&& e.version_directive == d.version_directive
        &&& tag_directives_view(e.tag_directives.items@) == tag_directives_view(d.tag_directives.items@)
        &&& e.implicit == d.start_implicit
    }
}

/// The document-end event of a document.
pub open spec fn document_end_is(ev: yaml_event_t, d: yaml_document_t) -> bool {
    &&& ev.type_ == yaml_event_type_t::YAML_DOCUMENT_END_EVENT
    &&& ev.start_mark == zero_mark()
    &&& ev.end_mark == zero_mark()
    &&& ev.data == yaml_event_data_t::DocumentEnd(yaml_event_document_end_t { implicit: d.end_implicit })
}

/// The events an emitter holds once it is open.
pub open spec fn events_when_open(e: yaml_emitter_t) -> Seq<yaml_event_t> {
    if e.opened {
        e.events.items@
    } else {
        e.events.items@.push(stream_start_event())
    }
}

/// Fresh anchor records for `n` nodes.
fn fresh_anchors(n: usize) -> (v: Vec<yaml_anchors_t>)
    ensures
        v@ == Seq::new(n as nat, |i: int| yaml_anchors_t { references: 0, anchor: 0, serialized: false }),
{
    let mut v: Vec<yaml_anchors_t> = Vec::new();
    let mut i: usize = 0;
    while i < n
        invariant
            i <= n,
            v@ == Seq::new(i as nat, |j: int| yaml_anchors_t { references: 0, anchor: 0, serialized: false }),
        decreases n - i,
    {
        v.push(yaml_anchors_t { references: 0, anchor: 0, serialized: false });
        i = i + 1;
        assert(v@ =~= Seq::new(i as nat, |j: int| yaml_anchors_t { references: 0, anchor: 0, serialized: false }));
    }
    v
}

/// Serializes a document: opens the stream if needed; for a document with
/// no nodes, closes the stream; else sends the document-start event, the
/// events of the nodes from the root (a node referred to more than once
/// gets an anchor and is sent once, then as aliases), and the document-end
/// event. The document is left empty.
pub fn yaml_emitter_dump(emitter: &mut yaml_emitter_t, document: &mut yaml_document_t) -> (r: bool)
    requires
        doc_wf(*old(document)),
        old(emitter).last_anchor_id == 0,
    ensures
        r,
        is_empty_document(*final(document)),
        final(emitter).opened,
        final(emitter).anchors@.len() == 0,
        *final(emitter) == (yaml_emitter_t {
            events: final(emitter).events,
            opened: true,
            closed: final(emitter).closed,
            anchors: final(emitter).anchors,
            ..*old(emitter)
        }),
        old(document).nodes.items@.len() == 0 ==> {
            &&& final(emitter).closed
            &&& final(emitter).events.items@ == if old(emitter).closed {
                events_when_open(*old(emitter))
            } else {
                events_when_open(*old(emitter)).push(
                    simple_event(yaml_event_type_t::YAML_STREAM_END_EVENT, zero_mark(), zero_mark()),
                )
            }
        },
        old(document).nodes.items@.len() > 0 ==> {
            let pre = events_when_open(*old(emitter));
            let evs = final(emitter).events.items@;
            &&& final(emitter).closed == old(emitter).closed
            &&& pre.is_prefix_of(evs)
            &&& evs.len() >= pre.len() + 3
            &&& document_start_is(evs[pre.len() as int], *old(document))
            &&& starts_node(evs[pre.len() + 1int], old(document).node(1))
            &&& document_end_is(evs.last(), *old(document))
            &&& exists|ids: Seq<i32>|
                #![trigger ids_distinct(ids)]
                ids.len() == old(document).nodes.items@.len() && ids_distinct(ids) && events_match(
                    evs.subrange(pre.len() + 1int, evs.len() - 1int),
                    dump_walk(old(document).nodes.items@),
                    old(document).nodes.items@,
                    ids,
                )
        },
{
    let ghost d0 = *document;
    if !emitter.opened {
        yaml_emitter_open(emitter);
    }
    assert(emitter.events.items@ == events_when_open(*old(emitter)));
    if document.nodes.items.len() == 0 {
        yaml_emitter_close(emitter);
        yaml_emitter_delete_document_and_anchors(emitter, document);
        return true;
    }
    let ghost pre = emitter.events.items@;
    let n = document.nodes.items.len();
    emitter.anchors = fresh_anchors(n);
    let ghost fresh = emitter.anchors@;
    proof {
        lemma_count_zero(n as nat, 2);
    }
    let mut tags: Vec<crate::types::yaml_tag_directive_t> = Vec::new();
    std::mem::swap(&mut tags, &mut document.tag_directives.items);
    let start = yaml_event_t {
        type_: yaml_event_type_t::YAML_DOCUMENT_START_EVENT,
        data: yaml_event_data_t::DocumentStart(yaml_event_document_start_t {
            version_directive: document.version_directive,
            tag_directives: yaml_event_document_start_tag_directives_t { items: tags },
            implicit: document.start_implicit,
        }),
        start_mark: yaml_mark_zero(),
        end_mark: yaml_mark_zero(),
    };
    yaml_emitter_emit(emitter, start);
    assert(document.nodes == d0.nodes);
    assert(doc_wf(*document)) by {
        assert forall|i: int| 0 <= i < document.nodes.items@.len() implies #[trigger] node_wf(document.nodes.items@, i) by {
            assert(node_wf(d0.nodes.items@, i));
        }
    }
    yaml_emitter_anchor_node(emitter, document, 1);
    let ghost e1 = *emitter;
    assert(dump_ready(*document, e1));
    proof {
        lemma_count_bound(e1.anchors@, 1);
    }
    yaml_emitter_dump_node(emitter, document, 1, Ghost((n + 1) as nat));
    let ghost e15 = *emitter;
    proof {
        assert(e1.events.items@.is_prefix_of(emitter.events.items@));
        assert(emitter.events.items@[pre.len() as int] == e1.events.items@[pre.len() as int]);
        let rec = e1.anchors@[0];
        assert(node_event_is(emitter.events.items@[pre.len() + 1int], d0.node(1), rec.anchor));
    }
    let end = yaml_event_t {
        type_: yaml_event_type_t::YAML_DOCUMENT_END_EVENT,
        data: yaml_event_data_t::DocumentEnd(yaml_event_document_end_t { implicit: document.end_implicit }),
        start_mark: yaml_mark_zero(),
        end_mark: yaml_mark_zero(),
    };
    let ghost e2 = *emitter;
    yaml_emitter_emit(emitter, end);
    proof {
        assert(e2.events.items@.is_prefix_of(emitter.events.items@)) by {
            assert(e2.events.items@ =~= emitter.events.items@.subrange(0, e2.events.items@.len() as int));
        }
        assert(emitter.events.items@[pre.len() as int] == e2.events.items@[pre.len() as int]);
        assert(emitter.events.items@[pre.len() + 1int] == e2.events.items@[pre.len() + 1int]);
        let ids = anchor_ids(e1.anchors@);
        assert(ids_distinct(ids)) by {
            assert forall|i: int, j: int|
                0 <= i < ids.len() && 0 <= j < ids.len() && i != j && #[trigger] ids[i] != 0 implies ids[i]
                != #[trigger] ids[j] by {
                assert(e1.anchors@[i].anchor != 0);
                assert(e1.anchors@[i].anchor != e1.anchors@[j].anchor);
            }
            assert forall|i: int| 0 <= i < ids.len() implies #[trigger] ids[i] >= 0 by {
                assert(e1.anchors@[i].anchor >= 0);
            }
        }
        assert(serialized_flags(e1.anchors@) =~= Seq::new(d0.nodes.items@.len(), |i: int| false)) by {
            assert forall|i: int| 0 <= i < e1.anchors@.len() implies !#[trigger] e1.anchors@[i].serialized by {
                assert(e1.anchors@[i].serialized == fresh[i].serialized);
            }
        }
        let evs = emitter.events.items@;
        let mid = evs.subrange(pre.len() + 1int, evs.len() - 1int);
        assert(mid =~= e15.events.items@.skip(e1.events.items@.len() as int)) by {
            assert(e1.events.items@.len() == pre.len() + 1);
        }
        assert(document.nodes == d0.nodes);
        assert(pre.is_prefix_of(emitter.events.items@)) by {
            assert forall|i: int| 0 <= i < pre.len() implies emitter.events.items@[i] == pre[i] by {
                assert(emitter.events.items@[i] == e2.events.items@[i]);
                assert(e2.events.items@[i] == e1.events.items@[i]);
                assert(e1.events.items@[i] == pre[i]);
            }
            assert(pre =~= emitter.events.items@.subrange(0, pre.len() as int));
        }
    }
    yaml_emitter_delete_document_and_anchors(emitter, document);
    true
}

} // verus!
