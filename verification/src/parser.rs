use vstd::prelude::*;
use crate::fetch::yaml_parser_fetch_more_tokens;
use crate::scanner::{yaml_parser_t, parse_state_same};
use crate::types::{
    yaml_error_type_t, yaml_event_data_t, yaml_event_t, yaml_event_type_t, yaml_mark_t,
    yaml_parser_state_t, yaml_scalar_style_t, yaml_token_data_t, yaml_token_t, yaml_token_type_t,
    yaml_event_scalar_t, zero_mark,
};

verus! {

/// What every parsing step keeps: the input and the nesting limit; the
/// tokens handed out only grow.
pub open spec fn parse_frame(a: yaml_parser_t, b: yaml_parser_t) -> bool {
    &&& b.wf()
    &&& b.reader.input.input@ == a.reader.input.input@
    &&& b.reader.has_input == a.reader.has_input
    &&& b.max_nest_level == a.max_nest_level
    &&& a.handed@.is_prefix_of(b.handed@)
}

/// The outcome of a parsing step from `a` to `b`: no error on success, an
/// error on failure. An error that is not the parser's own comes from the
/// scanner: a reader error from input that does not decode, and, where no
/// token was handed out, only when the head token was not yet at hand.
pub open spec fn parse_outcome(a: yaml_parser_t, b: yaml_parser_t, ok: bool) -> bool {
    &&& ok ==> b.error == yaml_error_type_t::YAML_NO_ERROR
    &&& !ok ==> b.error != yaml_error_type_t::YAML_NO_ERROR
    &&& !ok && b.error == yaml_error_type_t::YAML_READER_ERROR ==> crate::scanner::reader_failed(b)
    &&& !ok && b.error != yaml_error_type_t::YAML_PARSER_ERROR && b.handed@.len() == a.handed@.len()
        ==> !has_head(a)
}

/// The tokens handed out between two states of a parser.
pub open spec fn consumed(a: yaml_parser_t, b: yaml_parser_t) -> Seq<yaml_token_t> {
    b.handed@.skip(a.handed@.len() as int)
}

/// The token at the head of the queue.
pub open spec fn head_token(p: yaml_parser_t) -> yaml_token_t {
    p.scanner.tokens@[0]
}

/// The head of the queue is available.
pub open spec fn has_head(p: yaml_parser_t) -> bool {
    p.scanner.token_available && p.scanner.tokens.len() > 0
}

/// The parser stopped at a head token that its state does not take: the
/// token is still at hand, and the problem is marked at its start.
pub open spec fn stopped_at_head(p: yaml_parser_t) -> bool {
    &&& has_head(p)
    &&& p.problem_mark == head_token(p).start_mark
}

/// An event that carries no data.
pub open spec fn simple_event(t: yaml_event_type_t, s: yaml_mark_t, e: yaml_mark_t) -> yaml_event_t {
    yaml_event_t { type_: t, data: yaml_event_data_t::NoData, start_mark: s, end_mark: e }
}

/// The empty plain scalar that stands for a missing node at `m`.
pub open spec fn is_empty_scalar_event(ev: yaml_event_t, m: yaml_mark_t) -> bool {
    &&& ev.type_ == yaml_event_type_t::YAML_SCALAR_EVENT
    &&& ev.start_mark == m
    &&& ev.end_mark == m
    &&& ev.data matches yaml_event_data_t::Scalar(d) && {
        &&& d.anchor is None
        &&& d.tag is None
        &&& d.value@ == Seq::<u8>::empty()
        &&& d.plain_implicit == 1
        &&& d.quoted_implicit == 0
        &&& d.style == yaml_scalar_style_t::YAML_PLAIN_SCALAR_STYLE
    }
}

/// The head token is final and at hand (PEEK_TOKEN): fetches tokens when
/// none is available.
fn peek_token(parser: &mut yaml_parser_t) -> (r: bool)
    requires
        old(parser).wf(),
        old(parser).error == yaml_error_type_t::YAML_NO_ERROR,
    ensures
        final(parser).wf(),
        crate::scanner::parser_part_same(*old(parser), *final(parser)),
        final(parser).reader.input.input@ == old(parser).reader.input.input@,
        final(parser).reader.has_input == old(parser).reader.has_input,
        final(parser).scanner.tokens_parsed == old(parser).scanner.tokens_parsed,
        final(parser).scanner.stream_end_produced == old(parser).scanner.stream_end_produced,
        parse_outcome(*old(parser), *final(parser), r),
        !r ==> final(parser).error != yaml_error_type_t::YAML_PARSER_ERROR,
        r ==> has_head(*final(parser)),
        has_head(*old(parser)) ==> r && *final(parser) == *old(parser),
{
    if parser.scanner.token_available {
        return true;
    }
    yaml_parser_fetch_more_tokens(parser)
}

/// Hands out the head token (SKIP_TOKEN).
fn skip_token(parser: &mut yaml_parser_t) -> (t: yaml_token_t)
    requires
        old(parser).wf(),
        has_head(*old(parser)),
    ensures
        final(parser).wf(),
        t == head_token(*old(parser)),
        final(parser).handed@ == old(parser).handed@.push(t),
        final(parser).scanner.tokens@ == old(parser).scanner.tokens@.skip(1),
        final(parser).scanner.tokens_parsed == old(parser).scanner.tokens_parsed + 1,
        !final(parser).scanner.token_available,
        final(parser).scanner.stream_end_produced == (t.type_
            == yaml_token_type_t::YAML_STREAM_END_TOKEN),
        final(parser).reader == old(parser).reader,
        final(parser).error == old(parser).error,
        parse_state_same(*old(parser), *final(parser)),
{
    let t = parser.scanner.tokens.remove(0);
    proof {
        parser.handed = Ghost(parser.handed@.push(t));
    }
    parser.scanner.token_available = false;
    parser.scanner.tokens_parsed = parser.scanner.tokens_parsed + 1;
    parser.scanner.stream_end_produced = t.type_ == yaml_token_type_t::YAML_STREAM_END_TOKEN;
    t
}

/// Records a parser error.
fn yaml_parser_set_parser_error(
    parser: &mut yaml_parser_t,
    problem: &'static str,
    problem_mark: yaml_mark_t,
) -> (r: bool)
    ensures
        !r,
        final(parser).error == yaml_error_type_t::YAML_PARSER_ERROR,
        final(parser).problem == Some(problem),
        final(parser).problem_mark == problem_mark,
        final(parser).context == old(parser).context,
        final(parser).reader == old(parser).reader,
        final(parser).scanner == old(parser).scanner,
        crate::scanner::parser_part_same(*old(parser), *final(parser)),
{
    parser.error = yaml_error_type_t::YAML_PARSER_ERROR;
    parser.problem = Some(problem);
    parser.problem_mark = problem_mark;
    false
}

/// Records a parser error with its context.
fn yaml_parser_set_parser_error_context(
    parser: &mut yaml_parser_t,
    context: &'static str,
    context_mark: yaml_mark_t,
    problem: &'static str,
    problem_mark: yaml_mark_t,
) -> (r: bool)
    ensures
        !r,
        final(parser).error == yaml_error_type_t::YAML_PARSER_ERROR,
        final(parser).context == Some(context),
        final(parser).context_mark == context_mark,
        final(parser).problem == Some(problem),
        final(parser).problem_mark == problem_mark,
        final(parser).reader == old(parser).reader,
        final(parser).scanner == old(parser).scanner,
        crate::scanner::parser_part_same(*old(parser), *final(parser)),
{
    parser.error = yaml_error_type_t::YAML_PARSER_ERROR;
    parser.context = Some(context);
    parser.context_mark = context_mark;
    parser.problem = Some(problem);
    parser.problem_mark = problem_mark;
    false
}

/// Reports that a collection would nest deeper than the parser allows.
fn yaml_maximum_level_reached(
    parser: &mut yaml_parser_t,
    context_mark: yaml_mark_t,
    problem_mark: yaml_mark_t,
) -> (r: bool)
    ensures
        !r,
        final(parser).error == yaml_error_type_t::YAML_PARSER_ERROR,
        final(parser).context == Some("while parsing"),
        final(parser).context_mark == context_mark,
        final(parser).problem == Some("Maximum nesting level reached, set with yaml_set_max_nest_level())"),
        final(parser).problem_mark == problem_mark,
        final(parser).reader == old(parser).reader,
        final(parser).scanner == old(parser).scanner,
        crate::scanner::parser_part_same(*old(parser), *final(parser)),
{
    yaml_parser_set_parser_error_context(
        parser,
        "while parsing",
        context_mark,
        "Maximum nesting level reached, set with yaml_set_max_nest_level())",
        problem_mark,
    )
}

/// The state on top of the stack of states, or the end state when it is
/// empty.
pub open spec fn top_state(p: yaml_parser_t) -> yaml_parser_state_t {
    if p.states.items.len() > 0 {
        p.states.items@.last()
    } else {
        yaml_parser_state_t::YAML_PARSE_END_STATE
    }
}

/// Goes back to the state on top of the stack (POP of the states).
fn pop_state(parser: &mut yaml_parser_t)
    ensures
        final(parser).state == top_state(*old(parser)),
        final(parser).states.items@ == if old(parser).states.items.len() > 0 {
            old(parser).states.items@.drop_last()
        } else {
            old(parser).states.items@
        },
        final(parser).reader == old(parser).reader,
        final(parser).scanner == old(parser).scanner,
        final(parser).error == old(parser).error,
        final(parser).handed == old(parser).handed,
        final(parser).marks == old(parser).marks,
        final(parser).tag_directives == old(parser).tag_directives,
        final(parser).max_nest_level == old(parser).max_nest_level,
{
    parser.state = match parser.states.items.pop() {
        Some(s) => s,
        None => yaml_parser_state_t::YAML_PARSE_END_STATE,
    };
}

/// The stack of states after going back to the state on its top.
pub open spec fn states_popped(p: yaml_parser_t) -> Seq<yaml_parser_state_t> {
    if p.states.items.len() > 0 {
        p.states.items@.drop_last()
    } else {
        p.states.items@
    }
}

/// The mark on top of the stack of marks (or the zero mark).
pub open spec fn top_mark(p: yaml_parser_t) -> yaml_mark_t {
    if p.marks.len() > 0 {
        p.marks@.last()
    } else {
        zero_mark()
    }
}

/// Drops the mark on top of the stack and returns it (POP of the marks).
fn pop_mark(parser: &mut yaml_parser_t) -> (m: yaml_mark_t)
    ensures
        m == top_mark(*old(parser)),
        final(parser).marks@ == if old(parser).marks.len() > 0 {
            old(parser).marks@.drop_last()
        } else {
            old(parser).marks@
        },
        final(parser).reader == old(parser).reader,
        final(parser).scanner == old(parser).scanner,
        final(parser).error == old(parser).error,
        final(parser).handed == old(parser).handed,
        final(parser).states == old(parser).states,
        final(parser).state == old(parser).state,
        final(parser).tag_directives == old(parser).tag_directives,
        final(parser).max_nest_level == old(parser).max_nest_level,
{
    match parser.marks.pop() {
        Some(m) => m,
        None => crate::types::yaml_mark_zero(),
    }
}

/// The empty plain scalar that stands for a missing node at `mark`.
fn yaml_parser_process_empty_scalar(event: &mut yaml_event_t, mark: yaml_mark_t)
    ensures
        is_empty_scalar_event(*final(event), mark),
{
    *event = yaml_event_t {
        type_: yaml_event_type_t::YAML_SCALAR_EVENT,
        data: yaml_event_data_t::Scalar(
            yaml_event_scalar_t {
                anchor: None,
                tag: None,
                value: Vec::new(),
                plain_implicit: 1,
                quoted_implicit: 0,
                style: yaml_scalar_style_t::YAML_PLAIN_SCALAR_STYLE,
            },
        ),
        start_mark: mark,
        end_mark: mark,
    };
}

// ---------------------------------------------------------------------------
// Nodes
// ---------------------------------------------------------------------------

/// The name of an ANCHOR or ALIAS token.
pub open spec fn token_name(t: yaml_token_t) -> Seq<u8> {
    match t.data {
        yaml_token_data_t::Anchor(a) => a.value@,
        yaml_token_data_t::Alias(a) => a.value@,
        _ => Seq::empty(),
    }
}

/// The properties of a node: an anchor, a tag, or both in either order.
pub open spec fn is_property(t: yaml_token_t) -> bool {
    t.type_ == yaml_token_type_t::YAML_ANCHOR_TOKEN || t.type_ == yaml_token_type_t::YAML_TAG_TOKEN
}

/// The anchor named by the properties `ps`, if any.
pub open spec fn props_anchor(ps: Seq<yaml_token_t>) -> Option<Seq<u8>> {
    if ps.len() > 0 && ps[0].type_ == yaml_token_type_t::YAML_ANCHOR_TOKEN {
        Some(token_name(ps[0]))
    } else if ps.len() > 1 && ps[1].type_ == yaml_token_type_t::YAML_ANCHOR_TOKEN {
        Some(token_name(ps[1]))
    } else {
        None
    }
}

/// The handle and suffix of a TAG token.
pub open spec fn token_tag(t: yaml_token_t) -> (Seq<u8>, Seq<u8>) {
    match t.data {
        yaml_token_data_t::Tag(g) => (g.handle@, g.suffix@),
        _ => (Seq::empty(), Seq::empty()),
    }
}

/// The tag token among the properties `ps`, if any.
pub open spec fn props_tag(ps: Seq<yaml_token_t>) -> Option<(Seq<u8>, Seq<u8>)> {
    if ps.len() > 0 && ps[0].type_ == yaml_token_type_t::YAML_TAG_TOKEN {
        Some(token_tag(ps[0]))
    } else if ps.len() > 1 && ps[1].type_ == yaml_token_type_t::YAML_TAG_TOKEN {
        Some(token_tag(ps[1]))
    } else {
        None
    }
}

/// The properties are one anchor and one tag at most, in either order.
pub open spec fn props_shape(ps: Seq<yaml_token_t>) -> bool {
    &&& ps.len() <= 2
    &&& forall|i: int| 0 <= i < ps.len() ==> is_property(#[trigger] ps[i])
    &&& ps.len() == 2 ==> ps[0].type_ != ps[1].type_
}

/// The prefix that the tag directives `ds` give the handle `h`, the first
/// one that matches.
pub open spec fn lookup_handle(ds: Seq<(Seq<u8>, Seq<u8>)>, h: Seq<u8>) -> Option<Seq<u8>>
    decreases ds.len(),
{
    if ds.len() == 0 {
        None
    } else if ds[0].0 == h {
        Some(ds[0].1)
    } else {
        lookup_handle(ds.skip(1), h)
    }
}

/// The tag that a handle and a suffix stand for: the suffix alone for an
/// empty handle (a verbatim tag), else the prefix of the handle's
/// directive and the suffix; None for a handle with no directive.
pub open spec fn resolve_tag(ds: Seq<(Seq<u8>, Seq<u8>)>, h: Seq<u8>, s: Seq<u8>) -> Option<
    Seq<u8>,
> {
    if h.len() == 0 {
        Some(s)
    } else {
        match lookup_handle(ds, h) {
            Some(p) => Some(p + s),
            None => None,
        }
    }
}

/// The tag directives of a parser as pairs of handle and prefix.
pub open spec fn directives_view(p: yaml_parser_t) -> Seq<(Seq<u8>, Seq<u8>)> {
    crate::types::tag_directives_view(p.tag_directives.items@)
}

/// An optional string as a sequence.
pub open spec fn opt_view(o: Option<Vec<u8>>) -> Option<Seq<u8>> {
    match o {
        Some(v) => Some(v@),
        None => None,
    }
}

fn bytes_equal(a: &Vec<u8>, b: &Vec<u8>) -> (r: bool)
    ensures
        r == (a@ == b@),
{
    if a.len() != b.len() {
        return false;
    }
    let mut i: usize = 0;
    while i < a.len()
        invariant
            a.len() == b.len(),
            0 <= i <= a.len(),
            forall|k: int| 0 <= k < i ==> a@[k] == b@[k],
        decreases a.len() - i,
    {
        if a[i] != b[i] {
            return false;
        }
        i = i + 1;
    }
    assert(a@ =~= b@);
    true
}

fn concat_bytes(a: &Vec<u8>, b: &Vec<u8>) -> (r: Vec<u8>)
    ensures
        r@ == a@ + b@,
{
    let mut r: Vec<u8> = Vec::new();
    let mut i: usize = 0;
    while i < a.len()
        invariant
            0 <= i <= a.len(),
            r@ == a@.take(i as int),
        decreases a.len() - i,
    {
        r.push(a[i]);
        i = i + 1;
        proof {
            assert(r@ =~= a@.take(i as int));
        }
    }
    let mut j: usize = 0;
    while j < b.len()
        invariant
            0 <= j <= b.len(),
            r@ == a@ + b@.take(j as int),
        decreases b.len() - j,
    {
        r.push(b[j]);
        j = j + 1;
        proof {
            assert(r@ =~= a@ + b@.take(j as int));
        }
    }
    assert(b@.take(b.len() as int) =~= b@);
    r
}

/// Resolves a tag against the parser's tag directives.
fn resolve_tag_exec(parser: &yaml_parser_t, handle: &Vec<u8>, suffix: &Vec<u8>) -> (r: Option<Vec<u8>>)
    ensures
        opt_view(r) == resolve_tag(directives_view(*parser), handle@, suffix@),
{
    if handle.len() == 0 {
        return Some(suffix.clone());
    }
    let ds = &parser.tag_directives.items;
    let ghost dv = directives_view(*parser);
    let mut i: usize = 0;
    proof {
        assert(dv.skip(0) =~= dv);
    }
    while i < ds.len()
        invariant
            0 <= i <= ds.len(),
            dv == crate::types::tag_directives_view(ds@),
            dv == directives_view(*parser),
            handle@.len() > 0,
            lookup_handle(dv, handle@) == lookup_handle(dv.skip(i as int), handle@),
        decreases ds.len() - i,
    {
        proof {
            assert(dv.skip(i as int)[0] == dv[i as int]);
            assert(dv[i as int] == crate::types::tag_directive_view(ds@[i as int]));
            assert(dv.skip(i as int).skip(1) =~= dv.skip(i + 1));
        }
        if bytes_equal(&ds[i].handle, handle) {
            let r = concat_bytes(&ds[i].prefix, suffix);
            proof {
                let rest = dv.skip(i as int);
                assert(rest.len() > 0);
                assert(rest[0].0 == handle@);
                assert(lookup_handle(rest, handle@) == Some(rest[0].1));
                assert(rest[0].1 == ds@[i as int].prefix@);
            }
            return Some(r);
        }
        i = i + 1;
    }
    proof {
        assert(dv.skip(i as int).len() == 0);
    }
    None
}

/// The properties of a node read by the parser: the anchor and the tag
/// parts, where the node starts, where its properties end, and where the
/// tag starts.
pub struct NodeProps {
    pub anchor: Option<Vec<u8>>,
    pub tag: Option<(Vec<u8>, Vec<u8>)>,
    pub start_mark: yaml_mark_t,
    pub end_mark: yaml_mark_t,
    pub tag_mark: yaml_mark_t,
}

/// A tag's parts as sequences.
pub open spec fn tag_parts_view(o: Option<(Vec<u8>, Vec<u8>)>) -> Option<(Seq<u8>, Seq<u8>)> {
    match o {
        Some(p) => Some((p.0@, p.1@)),
        None => None,
    }
}

/// The properties read and what follows them are as described by `ps`:
/// they are the longest run of properties (an anchor and a tag at most)
/// at the head of the stream.
pub open spec fn props_done(ps: Seq<yaml_token_t>, next: yaml_token_t) -> bool {
    &&& props_shape(ps)
    &&& ps.len() == 0 ==> !is_property(next)
    &&& ps.len() == 1 ==> !(is_property(next) && next.type_ != ps[0].type_)
}

/// Reads the properties of a node (ANCHOR TAG?, TAG ANCHOR?, or none).
#[verifier::rlimit(40)]
fn parse_properties(parser: &mut yaml_parser_t) -> (r: Option<NodeProps>)
    requires
        old(parser).wf(),
        old(parser).error == yaml_error_type_t::YAML_NO_ERROR,
        has_head(*old(parser)),
    ensures
        parse_frame(*old(parser), *final(parser)),
        parse_outcome(*old(parser), *final(parser), r is Some),
        r is None ==> final(parser).error != yaml_error_type_t::YAML_PARSER_ERROR,
        parse_state_same(*old(parser), *final(parser)),
        consumed(*old(parser), *final(parser)).len() <= 2,
        consumed(*old(parser), *final(parser)).len() == 0 ==> *final(parser) == *old(parser),
        forall|i: int| 0 <= i < consumed(*old(parser), *final(parser)).len() ==> is_property(
            #[trigger] consumed(*old(parser), *final(parser))[i],
        ),
        r matches Some(p) ==> {
            let ps = consumed(*old(parser), *final(parser));
            &&& has_head(*final(parser))
            &&& props_done(ps, head_token(*final(parser)))
            &&& opt_view(p.anchor) == props_anchor(ps)
            &&& tag_parts_view(p.tag) == props_tag(ps)
            &&& p.start_mark == if ps.len() > 0 {
                ps[0].start_mark
            } else {
                head_token(*old(parser)).start_mark
            }
            &&& p.end_mark == if ps.len() > 0 {
                ps.last().end_mark
            } else {
                head_token(*old(parser)).start_mark
            }
            &&& p.tag is Some ==> p.tag_mark == if ps[0].type_ == yaml_token_type_t::YAML_TAG_TOKEN {
                ps[0].start_mark
            } else {
                ps[1].start_mark
            }
        },
{
    let first_type = parser.scanner.tokens[0].type_;
    let start = parser.scanner.tokens[0].start_mark;
    let mut props = NodeProps {
        anchor: None,
        tag: None,
        start_mark: start,
        end_mark: start,
        tag_mark: crate::types::yaml_mark_zero(),
    };
    if first_type != yaml_token_type_t::YAML_ANCHOR_TOKEN && first_type
        != yaml_token_type_t::YAML_TAG_TOKEN {
        proof {
            assert(consumed(*old(parser), *parser) =~= Seq::<yaml_token_t>::empty());
        }
        return Some(props);
    }
    let t1 = skip_token(parser);
    props.end_mark = t1.end_mark;
    let second = if first_type == yaml_token_type_t::YAML_ANCHOR_TOKEN {
        props.anchor = Some(take_name(t1));
        yaml_token_type_t::YAML_TAG_TOKEN
    } else {
        props.tag_mark = t1.start_mark;
        props.tag = Some(take_tag(t1));
        yaml_token_type_t::YAML_ANCHOR_TOKEN
    };
    let ghost m1 = *parser;
    proof {
        assert(consumed(*old(parser), m1) =~= seq![t1]);
    }
    if !peek_token(parser) {
        return None;
    }
    let ghost m2 = *parser;
    if parser.scanner.tokens[0].type_ != second {
        proof {
            assert(consumed(*old(parser), *parser) =~= seq![t1]);
        }
        return Some(props);
    }
    let t2 = skip_token(parser);
    props.end_mark = t2.end_mark;
    if second == yaml_token_type_t::YAML_ANCHOR_TOKEN {
        props.anchor = Some(take_name(t2));
    } else {
        props.tag_mark = t2.start_mark;
        props.tag = Some(take_tag(t2));
    }
    proof {
        assert(consumed(*old(parser), *parser) =~= seq![t1, t2]);
    }
    if !peek_token(parser) {
        return None;
    }
    Some(props)
}

/// The name an ANCHOR or ALIAS token carries.
fn take_name(t: yaml_token_t) -> (v: Vec<u8>)
    ensures
        v@ == token_name(t),
{
    match t.data {
        yaml_token_data_t::Anchor(a) => a.value,
        yaml_token_data_t::Alias(a) => a.value,
        _ => Vec::new(),
    }
}

/// The handle and suffix a TAG token carries.
fn take_tag(t: yaml_token_t) -> (v: (Vec<u8>, Vec<u8>))
    ensures
        (v.0@, v.1@) == token_tag(t),
{
    match t.data {
        yaml_token_data_t::Tag(g) => (g.handle, g.suffix),
        _ => (Vec::new(), Vec::new()),
    }
}

/// The number of properties at the front of the tokens `cs`.
pub open spec fn prop_count(cs: Seq<yaml_token_t>) -> int {
    if cs.len() >= 1 && is_property(cs[0]) {
        if cs.len() >= 2 && is_property(cs[1]) {
            2
        } else {
            1
        }
    } else {
        0
    }
}

/// The tag of a node with properties `ps`, resolved by the directives `ds`.
pub open spec fn node_tag(ds: Seq<(Seq<u8>, Seq<u8>)>, ps: Seq<yaml_token_t>) -> Option<Seq<u8>> {
    match props_tag(ps) {
        Some(t) => resolve_tag(ds, t.0, t.1),
        None => None,
    }
}

/// A tag leaves the node's kind implicit when it is absent or empty.
pub open spec fn tag_implicit(tag: Option<Seq<u8>>) -> i32 {
    if tag is None || tag == Some(Seq::<u8>::empty()) {
        1
    } else {
        0
    }
}

/// The implicit flags of a scalar: (plain, quoted).
pub open spec fn scalar_implicit(style: yaml_scalar_style_t, tag: Option<Seq<u8>>) -> (i32, i32) {
    if (style == yaml_scalar_style_t::YAML_PLAIN_SCALAR_STYLE && tag is None) || tag == Some(
        seq![0x21u8],
    ) {
        (1, 0)
    } else if tag is None {
        (0, 1)
    } else {
        (0, 0)
    }
}

/// The value and style of a SCALAR token.
pub open spec fn token_scalar(t: yaml_token_t) -> (Seq<u8>, yaml_scalar_style_t) {
    match t.data {
        yaml_token_data_t::Scalar(d) => (d.value@, d.style),
        _ => (Seq::empty(), yaml_scalar_style_t::YAML_ANY_SCALAR_STYLE),
    }
}

/// `ev` is a scalar event with these fields.
pub open spec fn scalar_event_is(
    ev: yaml_event_t,
    anchor: Option<Seq<u8>>,
    tag: Option<Seq<u8>>,
    value: Seq<u8>,
    implicit: (i32, i32),
    style: yaml_scalar_style_t,
    s: yaml_mark_t,
    e: yaml_mark_t,
) -> bool {
    &&& ev.type_ == yaml_event_type_t::YAML_SCALAR_EVENT
    &&& ev.start_mark == s
    &&& ev.end_mark == e
    &&& ev.data matches yaml_event_data_t::Scalar(d) && {
        &&& opt_view(d.anchor) == anchor
        &&& opt_view(d.tag) == tag
        &&& d.value@ == value
        &&& d.plain_implicit == implicit.0
        &&& d.quoted_implicit == implicit.1
        &&& d.style == style
    }
}

/// `ev` starts a collection (a sequence when `seq`) with these fields.
pub open spec fn collection_event_is(
    ev: yaml_event_t,
    seq: bool,
    anchor: Option<Seq<u8>>,
    tag: Option<Seq<u8>>,
    flow: bool,
    s: yaml_mark_t,
    e: yaml_mark_t,
) -> bool {
    &&& ev.start_mark == s
    &&& ev.end_mark == e
    &&& if seq {
        &&& ev.type_ == yaml_event_type_t::YAML_SEQUENCE_START_EVENT
        &&& ev.data matches yaml_event_data_t::SequenceStart(d) && {
            &&& opt_view(d.anchor) == anchor
            &&& opt_view(d.tag) == tag
            &&& d.implicit == tag_implicit(tag)
            &&& d.style == if flow {
                crate::types::yaml_sequence_style_t::YAML_FLOW_SEQUENCE_STYLE
            } else {
                crate::types::yaml_sequence_style_t::YAML_BLOCK_SEQUENCE_STYLE
            }
        }
    } else {
        &&& ev.type_ == yaml_event_type_t::YAML_MAPPING_START_EVENT
        &&& ev.data matches yaml_event_data_t::MappingStart(d) && {
            &&& opt_view(d.anchor) == anchor
            &&& opt_view(d.tag) == tag
            &&& d.implicit == tag_implicit(tag)
            &&& d.style == if flow {
                crate::types::yaml_mapping_style_t::YAML_FLOW_MAPPING_STYLE
            } else {
                crate::types::yaml_mapping_style_t::YAML_BLOCK_MAPPING_STYLE
            }
        }
    }
}

/// What parsing a node produces from the tokens it consumed and the
/// token it stopped at: an alias; a scalar; the start of a collection
/// (the collection's first token is left for the next state); or, for
/// properties with no content, an empty plain scalar. A node that ends
/// (alias or scalar) returns to the state on top of the stack.
pub open spec fn node_step(
    a: yaml_parser_t,
    b: yaml_parser_t,
    ev: yaml_event_t,
    block: bool,
    indentless: bool,
) -> bool {
    let cs = consumed(a, b);
    let k = prop_count(cs);
    let ps = cs.take(k);
    let rest = cs.skip(k);
    let ds = directives_view(a);
    let anchor = props_anchor(ps);
    let tag = node_tag(ds, ps);
    let start = if cs.len() > 0 {
        cs[0].start_mark
    } else {
        head_token(b).start_mark
    };
    let pend = if ps.len() > 0 {
        ps.last().end_mark
    } else {
        start
    };
    if cs.len() == 1 && cs[0].type_ == yaml_token_type_t::YAML_ALIAS_TOKEN {
        &&& ev == (yaml_event_t {
            type_: yaml_event_type_t::YAML_ALIAS_EVENT,
            data: ev.data,
            start_mark: cs[0].start_mark,
            end_mark: cs[0].end_mark,
        })
        &&& ev.data matches yaml_event_data_t::Alias(d) && d.anchor@ == token_name(cs[0])
        &&& b.state == top_state(a)
        &&& b.states.items@ == states_popped(a)
    } else if rest.len() == 1 {
        &&& rest[0].type_ == yaml_token_type_t::YAML_SCALAR_TOKEN
        &&& props_done(ps, rest[0])
        &&& tag is Some || props_tag(ps) is None
        &&& scalar_event_is(
            ev,
            anchor,
            tag,
            token_scalar(rest[0]).0,
            scalar_implicit(token_scalar(rest[0]).1, tag),
            token_scalar(rest[0]).1,
            start,
            rest[0].end_mark,
        )
        &&& b.state == top_state(a)
        &&& b.states.items@ == states_popped(a)
    } else {
        let t = head_token(b);
        &&& rest.len() == 0
        &&& has_head(b)
        &&& props_done(ps, t)
        &&& tag is Some || props_tag(ps) is None
        &&& if indentless && t.type_ == yaml_token_type_t::YAML_BLOCK_ENTRY_TOKEN {
            &&& collection_event_is(ev, true, anchor, tag, false, start, t.end_mark)
            &&& b.state == yaml_parser_state_t::YAML_PARSE_INDENTLESS_SEQUENCE_ENTRY_STATE
            &&& b.states == a.states
        } else if t.type_ == yaml_token_type_t::YAML_FLOW_SEQUENCE_START_TOKEN {
            &&& collection_event_is(ev, true, anchor, tag, true, start, t.end_mark)
            &&& b.state == yaml_parser_state_t::YAML_PARSE_FLOW_SEQUENCE_FIRST_ENTRY_STATE
            &&& b.states == a.states
        } else if t.type_ == yaml_token_type_t::YAML_FLOW_MAPPING_START_TOKEN {
            &&& collection_event_is(ev, false, anchor, tag, true, start, t.end_mark)
            &&& b.state == yaml_parser_state_t::YAML_PARSE_FLOW_MAPPING_FIRST_KEY_STATE
            &&& b.states == a.states
        } else if block && t.type_ == yaml_token_type_t::YAML_BLOCK_SEQUENCE_START_TOKEN {
            &&& collection_event_is(ev, true, anchor, tag, false, start, t.end_mark)
            &&& b.state == yaml_parser_state_t::YAML_PARSE_BLOCK_SEQUENCE_FIRST_ENTRY_STATE
            &&& b.states == a.states
        } else if block && t.type_ == yaml_token_type_t::YAML_BLOCK_MAPPING_START_TOKEN {
            &&& collection_event_is(ev, false, anchor, tag, false, start, t.end_mark)
            &&& b.state == yaml_parser_state_t::YAML_PARSE_BLOCK_MAPPING_FIRST_KEY_STATE
            &&& b.states == a.states
        } else {
            &&& ps.len() > 0
            &&& scalar_event_is(
                ev,
                anchor,
                tag,
                Seq::empty(),
                (tag_implicit(tag), 0),
                yaml_scalar_style_t::YAML_PLAIN_SCALAR_STYLE,
                start,
                pend,
            )
            &&& b.state == top_state(a)
            &&& b.states.items@ == states_popped(a)
        }
    }
}

/// The problems parsing a node can have.
/// A token that starts the content of a node (after its properties).
pub open spec fn starts_node_content(t: yaml_token_type_t, block: bool, indentless: bool) -> bool {
    ||| indentless && t == yaml_token_type_t::YAML_BLOCK_ENTRY_TOKEN
    ||| t == yaml_token_type_t::YAML_SCALAR_TOKEN
    ||| t == yaml_token_type_t::YAML_FLOW_SEQUENCE_START_TOKEN
    ||| t == yaml_token_type_t::YAML_FLOW_MAPPING_START_TOKEN
    ||| block && t == yaml_token_type_t::YAML_BLOCK_SEQUENCE_START_TOKEN
    ||| block && t == yaml_token_type_t::YAML_BLOCK_MAPPING_START_TOKEN
}

pub open spec fn node_problem(p: Option<&'static str>) -> bool {
    ||| p == Some("found undefined tag handle")
    ||| p == Some("Maximum nesting level reached, set with yaml_set_max_nest_level())")
    ||| p == Some("did not find expected node content")
}

fn alias_event(t: yaml_token_t) -> (ev: yaml_event_t)
    ensures
        ev.type_ == yaml_event_type_t::YAML_ALIAS_EVENT,
        ev.start_mark == t.start_mark,
        ev.end_mark == t.end_mark,
        ev.data matches yaml_event_data_t::Alias(d) && d.anchor@ == token_name(t),
{
    let s = t.start_mark;
    let e = t.end_mark;
    yaml_event_t {
        type_: yaml_event_type_t::YAML_ALIAS_EVENT,
        data: yaml_event_data_t::Alias(crate::types::yaml_event_alias_t { anchor: take_name(t) }),
        start_mark: s,
        end_mark: e,
    }
}

fn collection_event(
    seq: bool,
    anchor: Option<Vec<u8>>,
    tag: Option<Vec<u8>>,
    flow: bool,
    s: yaml_mark_t,
    e: yaml_mark_t,
) -> (ev: yaml_event_t)
    ensures
        collection_event_is(ev, seq, opt_view(anchor), opt_view(tag), flow, s, e),
{
    let implicit: i32 = match &tag {
        None => 1,
        Some(t) => if t.len() == 0 { 1 } else { 0 },
    };
    proof {
        if tag is Some && tag->0@.len() == 0 {
            assert(opt_view(tag) == Some(Seq::<u8>::empty()));
        }
    }
    if seq {
        yaml_event_t {
            type_: yaml_event_type_t::YAML_SEQUENCE_START_EVENT,
            data: yaml_event_data_t::SequenceStart(
                crate::types::yaml_event_sequence_start_t {
                    anchor,
                    tag,
                    implicit,
                    style: if flow {
                        crate::types::yaml_sequence_style_t::YAML_FLOW_SEQUENCE_STYLE
                    } else {
                        crate::types::yaml_sequence_style_t::YAML_BLOCK_SEQUENCE_STYLE
                    },
                },
            ),
            start_mark: s,
            end_mark: e,
        }
    } else {
        yaml_event_t {
            type_: yaml_event_type_t::YAML_MAPPING_START_EVENT,
            data: yaml_event_data_t::MappingStart(
                crate::types::yaml_event_mapping_start_t {
                    anchor,
                    tag,
                    implicit,
                    style: if flow {
                        crate::types::yaml_mapping_style_t::YAML_FLOW_MAPPING_STYLE
                    } else {
                        crate::types::yaml_mapping_style_t::YAML_BLOCK_MAPPING_STYLE
                    },
                },
            ),
            start_mark: s,
            end_mark: e,
        }
    }
}

fn scalar_event(
    anchor: Option<Vec<u8>>,
    tag: Option<Vec<u8>>,
    value: Vec<u8>,
    style: yaml_scalar_style_t,
    s: yaml_mark_t,
    e: yaml_mark_t,
) -> (ev: yaml_event_t)
    ensures
        scalar_event_is(
            ev,
            opt_view(anchor),
            opt_view(tag),
            value@,
            scalar_implicit(style, opt_view(tag)),
            style,
            s,
            e,
        ),
{
    let is_bang = match &tag {
        None => false,
        Some(t) => t.len() == 1 && t[0] == 0x21,
    };
    proof {
        if tag is Some {
            if tag->0@ =~= seq![0x21u8] {
                assert(is_bang);
            }
            if is_bang {
                assert(tag->0@ =~= seq![0x21u8]);
            }
        }
    }
    let (pi, qi) = if (style == yaml_scalar_style_t::YAML_PLAIN_SCALAR_STYLE && tag.is_none())
        || is_bang {
        (1i32, 0i32)
    } else if tag.is_none() {
        (0i32, 1i32)
    } else {
        (0i32, 0i32)
    };
    yaml_event_t {
        type_: yaml_event_type_t::YAML_SCALAR_EVENT,
        data: yaml_event_data_t::Scalar(
            yaml_event_scalar_t {
                anchor,
                tag,
                value,
                plain_implicit: pi,
                quoted_implicit: qi,
                style,
            },
        ),
        start_mark: s,
        end_mark: e,
    }
}

/// The value and style a SCALAR token carries.
fn take_scalar(t: yaml_token_t) -> (v: (Vec<u8>, yaml_scalar_style_t))
    ensures
        (v.0@, v.1) == token_scalar(t),
{
    match t.data {
        yaml_token_data_t::Scalar(d) => (d.value, d.style),
        _ => (Vec::new(), yaml_scalar_style_t::YAML_ANY_SCALAR_STYLE),
    }
}

/// Parses a node: an alias, or properties followed by a scalar, the start
/// of a collection (block collections only where `block`, an indentless
/// sequence where `indentless`), or nothing (an empty scalar).
#[verifier::rlimit(80)]
pub fn yaml_parser_parse_node(
    parser: &mut yaml_parser_t,
    event: &mut yaml_event_t,
    block: bool,
    indentless: bool,
) -> (r: bool)
    requires
        old(parser).wf(),
        old(parser).error == yaml_error_type_t::YAML_NO_ERROR,
    ensures
        parse_frame(*old(parser), *final(parser)),
        parse_outcome(*old(parser), *final(parser), r),
        final(parser).marks == old(parser).marks,
        final(parser).tag_directives == old(parser).tag_directives,
        r ==> node_step(*old(parser), *final(parser), *final(event), block, indentless),
        (!r && final(parser).error == yaml_error_type_t::YAML_PARSER_ERROR) ==> node_problem(
            final(parser).problem,
        ),
        (!r && final(parser).error == yaml_error_type_t::YAML_PARSER_ERROR) ==> {
            let ps = consumed(*old(parser), *final(parser));
            &&& final(parser).problem == Some("found undefined tag handle") ==> {
                &&& final(parser).context == Some("while parsing a node")
                &&& props_tag(ps) is Some
                &&& node_tag(directives_view(*old(parser)), ps) is None
            }
            &&& final(parser).problem == Some("did not find expected node content") ==> {
                &&& ps.len() == 0
                &&& has_head(*final(parser))
                &&& head_token(*final(parser)).type_ != yaml_token_type_t::YAML_ALIAS_TOKEN
                &&& !starts_node_content(head_token(*final(parser)).type_, block, indentless)
                &&& final(parser).problem_mark == head_token(*final(parser)).start_mark
            }
        },
{
    if !peek_token(parser) {
        return false;
    }
    if parser.scanner.tokens[0].type_ == yaml_token_type_t::YAML_ALIAS_TOKEN {
        pop_state(parser);
        let t = skip_token(parser);
        proof {
            assert(consumed(*old(parser), *parser) =~= seq![t]);
        }
        *event = alias_event(t);
        proof {
            let cs = consumed(*old(parser), *parser);
            assert(cs.len() == 1 && cs[0].type_ == yaml_token_type_t::YAML_ALIAS_TOKEN);
            assert(node_step(*old(parser), *parser, *event, block, indentless));
        }
        return true;
    }
    let ghost m0 = *parser;
    let props = match parse_properties(parser) {
        None => return false,
        Some(p) => p,
    };
    let ghost m1 = *parser;
    let ghost ps = consumed(*old(parser), m1);
    proof {
        assert(consumed(*old(parser), m1) =~= consumed(m0, m1));
    }
    let tag: Option<Vec<u8>> = match &props.tag {
        None => None,
        Some(hs) => {
            match resolve_tag_exec(parser, &hs.0, &hs.1) {
                Some(t) => Some(t),
                None => {
                    return yaml_parser_set_parser_error_context(
                        parser,
                        "while parsing a node",
                        props.start_mark,
                        "found undefined tag handle",
                        props.tag_mark,
                    );
                },
            }
        },
    };
    let ghost tagv = opt_view(tag);
    proof {
        assert(tagv == node_tag(directives_view(*old(parser)), ps));
    }
    let tt = parser.scanner.tokens[0].type_;
    let t_start = parser.scanner.tokens[0].start_mark;
    let t_end = parser.scanner.tokens[0].end_mark;
    let start_mark = props.start_mark;
    if indentless && tt == yaml_token_type_t::YAML_BLOCK_ENTRY_TOKEN {
        parser.state = yaml_parser_state_t::YAML_PARSE_INDENTLESS_SEQUENCE_ENTRY_STATE;
        *event = collection_event(true, props.anchor, tag, false, start_mark, t_end);
        proof { lemma_props_rest(*old(parser), *parser); }
        return true;
    }
    if tt == yaml_token_type_t::YAML_SCALAR_TOKEN {
        pop_state(parser);
        let t = skip_token(parser);
        let ghost tg = t;
        let e = t.end_mark;
        let (value, style) = take_scalar(t);
        *event = scalar_event(props.anchor, tag, value, style, start_mark, e);
        proof {
            assert(consumed(*old(parser), *parser) =~= ps.push(tg));
            lemma_props_scalar(ps, tg);
        }
        return true;
    }
    let is_flow_seq = tt == yaml_token_type_t::YAML_FLOW_SEQUENCE_START_TOKEN;
    let is_flow_map = tt == yaml_token_type_t::YAML_FLOW_MAPPING_START_TOKEN;
    let is_block_seq = block && tt == yaml_token_type_t::YAML_BLOCK_SEQUENCE_START_TOKEN;
    let is_block_map = block && tt == yaml_token_type_t::YAML_BLOCK_MAPPING_START_TOKEN;
    if is_flow_seq || is_flow_map || is_block_seq || is_block_map {
        if !((parser.scanner.indents.len() as i128) < (parser.max_nest_level as i128
            - parser.scanner.flow_level as i128)) {
            return yaml_maximum_level_reached(parser, start_mark, t_start);
        }
        parser.state = if is_flow_seq {
            yaml_parser_state_t::YAML_PARSE_FLOW_SEQUENCE_FIRST_ENTRY_STATE
        } else if is_flow_map {
            yaml_parser_state_t::YAML_PARSE_FLOW_MAPPING_FIRST_KEY_STATE
        } else if is_block_seq {
            yaml_parser_state_t::YAML_PARSE_BLOCK_SEQUENCE_FIRST_ENTRY_STATE
        } else {
            yaml_parser_state_t::YAML_PARSE_BLOCK_MAPPING_FIRST_KEY_STATE
        };
        *event = collection_event(is_flow_seq || is_block_seq, props.anchor, tag, is_flow_seq
            || is_flow_map, start_mark, t_end);
        proof { lemma_props_rest(*old(parser), *parser); }
        return true;
    }
    if props.anchor.is_some() || tag.is_some() {
        pop_state(parser);
        *event = scalar_event_empty(props.anchor, tag, start_mark, props.end_mark);
        proof { lemma_props_rest(*old(parser), *parser); }
        return true;
    }
    yaml_parser_set_parser_error_context(
        parser,
        if block { "while parsing a block node" } else { "while parsing a flow node" },
        start_mark,
        "did not find expected node content",
        t_start,
    )
}

/// An empty plain scalar with properties.
fn scalar_event_empty(
    anchor: Option<Vec<u8>>,
    tag: Option<Vec<u8>>,
    s: yaml_mark_t,
    e: yaml_mark_t,
) -> (ev: yaml_event_t)
    ensures
        scalar_event_is(
            ev,
            opt_view(anchor),
            opt_view(tag),
            Seq::empty(),
            (tag_implicit(opt_view(tag)), 0),
            yaml_scalar_style_t::YAML_PLAIN_SCALAR_STYLE,
            s,
            e,
        ),
{
    let implicit: i32 = match &tag {
        None => 1,
        Some(t) => if t.len() == 0 { 1 } else { 0 },
    };
    proof {
        if tag is Some && tag->0@.len() == 0 {
            assert(opt_view(tag) == Some(Seq::<u8>::empty()));
        }
    }
    yaml_event_t {
        type_: yaml_event_type_t::YAML_SCALAR_EVENT,
        data: yaml_event_data_t::Scalar(
            yaml_event_scalar_t {
                anchor,
                tag,
                value: Vec::new(),
                plain_implicit: implicit,
                quoted_implicit: 0,
                style: yaml_scalar_style_t::YAML_PLAIN_SCALAR_STYLE,
            },
        ),
        start_mark: s,
        end_mark: e,
    }
}

proof fn lemma_props_scalar(ps: Seq<yaml_token_t>, t: yaml_token_t)
    requires
        props_shape(ps),
        t.type_ == yaml_token_type_t::YAML_SCALAR_TOKEN,
    ensures
        prop_count(ps.push(t)) == ps.len(),
        ps.push(t).take(ps.len() as int) == ps,
        ps.push(t).skip(ps.len() as int) == seq![t],
{
    assert(ps.push(t).take(ps.len() as int) =~= ps);
    assert(ps.push(t).skip(ps.len() as int) =~= seq![t]);
    if ps.len() >= 1 {
        assert(is_property(ps[0]));
    }
    if ps.len() >= 2 {
        assert(is_property(ps[1]));
    }
}

proof fn lemma_props_rest(a: yaml_parser_t, b: yaml_parser_t)
    requires
        props_shape(consumed(a, b)),
    ensures
        prop_count(consumed(a, b)) == consumed(a, b).len(),
        consumed(a, b).take(consumed(a, b).len() as int) == consumed(a, b),
        consumed(a, b).skip(consumed(a, b).len() as int).len() == 0,
{
    let cs = consumed(a, b);
    assert(cs.take(cs.len() as int) =~= cs);
    if cs.len() >= 1 {
        assert(is_property(cs[0]));
    }
    if cs.len() >= 2 {
        assert(is_property(cs[1]));
    }
}

// ---------------------------------------------------------------------------
// Collections
// ---------------------------------------------------------------------------

/// The events that start or are a node.
pub open spec fn is_node_event(t: yaml_event_type_t) -> bool {
    ||| t == yaml_event_type_t::YAML_ALIAS_EVENT
    ||| t == yaml_event_type_t::YAML_SCALAR_EVENT
    ||| t == yaml_event_type_t::YAML_SEQUENCE_START_EVENT
    ||| t == yaml_event_type_t::YAML_MAPPING_START_EVENT
}

/// A node was parsed after `ret` was pushed as the state to come back to.
pub open spec fn node_after_push(a: yaml_parser_t, b: yaml_parser_t, ev: yaml_event_t, ret: yaml_parser_state_t) -> bool {
    &&& is_node_event(ev.type_)
    &&& (b.states.items@ == a.states.items@.push(ret) || (b.states.items@ == a.states.items@ && b.state == ret))
}

/// Pushes a state to come back to, then parses a node.
fn push_and_parse_node(
    parser: &mut yaml_parser_t,
    event: &mut yaml_event_t,
    ret: yaml_parser_state_t,
    block: bool,
    indentless: bool,
) -> (r: bool)
    requires
        old(parser).wf(),
        old(parser).error == yaml_error_type_t::YAML_NO_ERROR,
    ensures
        parse_frame(*old(parser), *final(parser)),
        parse_outcome(*old(parser), *final(parser), r),
        final(parser).marks == old(parser).marks,
        final(parser).tag_directives == old(parser).tag_directives,
        r ==> node_after_push(*old(parser), *final(parser), *final(event), ret),
        (!r && final(parser).error == yaml_error_type_t::YAML_PARSER_ERROR) ==> node_problem(
            final(parser).problem,
        ),
{
    parser.states.items.push(ret);
    let ghost m = *parser;
    let r = yaml_parser_parse_node(parser, event, block, indentless);
    proof {
        if r {
            assert(m.states.items@.drop_last() =~= old(parser).states.items@);
            assert(top_state(m) == ret);
        }
    }
    r
}

/// Parses an entry of a block sequence: '-' and a node (or an empty
/// scalar), or the end of the sequence. The first call takes the
/// BLOCK-SEQUENCE-START token and remembers where the sequence starts.
#[verifier::rlimit(40)]
pub fn yaml_parser_parse_block_sequence_entry(
    parser: &mut yaml_parser_t,
    event: &mut yaml_event_t,
    first: bool,
) -> (r: bool)
    requires
        old(parser).wf(),
        old(parser).error == yaml_error_type_t::YAML_NO_ERROR,
    ensures
        parse_frame(*old(parser), *final(parser)),
        parse_outcome(*old(parser), *final(parser), r),
        final(parser).tag_directives == old(parser).tag_directives,
        r ==> ({
            ||| final(event).type_ == yaml_event_type_t::YAML_SEQUENCE_END_EVENT && final(parser).state
                == top_state(*old(parser)) && consumed(*old(parser), *final(parser)).last().type_
                == yaml_token_type_t::YAML_BLOCK_END_TOKEN
            ||| final(event).type_ == yaml_event_type_t::YAML_SCALAR_EVENT && final(parser).state
                == yaml_parser_state_t::YAML_PARSE_BLOCK_SEQUENCE_ENTRY_STATE
                && consumed(*old(parser), *final(parser)).last().type_
                == yaml_token_type_t::YAML_BLOCK_ENTRY_TOKEN
            ||| is_node_event(final(event).type_)
        }),
        (!r && final(parser).error == yaml_error_type_t::YAML_PARSER_ERROR) ==> {
            &&& final(parser).problem == Some("did not find expected '-' indicator")
                || node_problem(final(parser).problem)
            &&& final(parser).problem == Some("did not find expected '-' indicator") ==> {
                &&& stopped_at_head(*final(parser))
                &&& head_token(*final(parser)).type_ != yaml_token_type_t::YAML_BLOCK_ENTRY_TOKEN
                &&& head_token(*final(parser)).type_ != yaml_token_type_t::YAML_BLOCK_END_TOKEN
            }
        },
{
    if first {
        if !peek_token(parser) {
            return false;
        }
        let m = parser.scanner.tokens[0].start_mark;
        parser.marks.push(m);
        skip_token(parser);
    }
    let ghost m0 = *parser;
    if !peek_token(parser) {
        return false;
    }
    let tt = parser.scanner.tokens[0].type_;
    if tt == yaml_token_type_t::YAML_BLOCK_ENTRY_TOKEN {
        let t = skip_token(parser);
        let mark = t.end_mark;
        let ghost m1 = *parser;
        if !peek_token(parser) {
            return false;
        }
        let nt = parser.scanner.tokens[0].type_;
        if nt != yaml_token_type_t::YAML_BLOCK_ENTRY_TOKEN && nt
            != yaml_token_type_t::YAML_BLOCK_END_TOKEN {
            let ghost m2 = *parser;
            let r = push_and_parse_node(
                parser,
                event,
                yaml_parser_state_t::YAML_PARSE_BLOCK_SEQUENCE_ENTRY_STATE,
                true,
                false,
            );
            return r;
        }
        parser.state = yaml_parser_state_t::YAML_PARSE_BLOCK_SEQUENCE_ENTRY_STATE;
        yaml_parser_process_empty_scalar(event, mark);
        proof {
            assert(consumed(*old(parser), *parser).last() == t);
        }
        return true;
    }
    if tt == yaml_token_type_t::YAML_BLOCK_END_TOKEN {
        pop_state(parser);
        pop_mark(parser);
        let t = skip_token(parser);
        *event = simple_event_new(yaml_event_type_t::YAML_SEQUENCE_END_EVENT, t.start_mark, t.end_mark);
        proof {
            assert(consumed(*old(parser), *parser).last() == t);
        }
        return true;
    }
    let m = pop_mark(parser);
    let s = parser.scanner.tokens[0].start_mark;
    yaml_parser_set_parser_error_context(
        parser,
        "while parsing a block collection",
        m,
        "did not find expected '-' indicator",
        s,
    )
}

fn simple_event_new(t: yaml_event_type_t, s: yaml_mark_t, e: yaml_mark_t) -> (ev: yaml_event_t)
    ensures
        ev == simple_event(t, s, e),
{
    yaml_event_t { type_: t, data: yaml_event_data_t::NoData, start_mark: s, end_mark: e }
}

/// Parses an entry of an indentless sequence (a block sequence inside a
/// mapping, at the mapping's indentation): '-' and a node (or an empty
/// scalar); anything else ends the sequence without taking a token.
#[verifier::rlimit(40)]
pub fn yaml_parser_parse_indentless_sequence_entry(
    parser: &mut yaml_parser_t,
    event: &mut yaml_event_t,
) -> (r: bool)
    requires
        old(parser).wf(),
        old(parser).error == yaml_error_type_t::YAML_NO_ERROR,
    ensures
        parse_frame(*old(parser), *final(parser)),
        parse_outcome(*old(parser), *final(parser), r),
        final(parser).tag_directives == old(parser).tag_directives,
        final(parser).marks == old(parser).marks,
        r ==> ({
            ||| final(event).type_ == yaml_event_type_t::YAML_SEQUENCE_END_EVENT && final(parser).state
                == top_state(*old(parser)) && consumed(*old(parser), *final(parser)).len() == 0
                && final(event).start_mark == final(event).end_mark
            ||| final(event).type_ == yaml_event_type_t::YAML_SCALAR_EVENT && final(parser).state
                == yaml_parser_state_t::YAML_PARSE_INDENTLESS_SEQUENCE_ENTRY_STATE
                && consumed(*old(parser), *final(parser)).last().type_
                == yaml_token_type_t::YAML_BLOCK_ENTRY_TOKEN
            ||| is_node_event(final(event).type_)
        }),
        (!r && final(parser).error == yaml_error_type_t::YAML_PARSER_ERROR) ==> node_problem(
            final(parser).problem,
        ),
{
    if !peek_token(parser) {
        return false;
    }
    let tt = parser.scanner.tokens[0].type_;
    if tt == yaml_token_type_t::YAML_BLOCK_ENTRY_TOKEN {
        let t = skip_token(parser);
        let mark = t.end_mark;
        if !peek_token(parser) {
            return false;
        }
        let nt = parser.scanner.tokens[0].type_;
        if nt != yaml_token_type_t::YAML_BLOCK_ENTRY_TOKEN && nt != yaml_token_type_t::YAML_KEY_TOKEN
            && nt != yaml_token_type_t::YAML_VALUE_TOKEN && nt
            != yaml_token_type_t::YAML_BLOCK_END_TOKEN {
            return push_and_parse_node(
                parser,
                event,
                yaml_parser_state_t::YAML_PARSE_INDENTLESS_SEQUENCE_ENTRY_STATE,
                true,
                false,
            );
        }
        parser.state = yaml_parser_state_t::YAML_PARSE_INDENTLESS_SEQUENCE_ENTRY_STATE;
        yaml_parser_process_empty_scalar(event, mark);
        proof {
            assert(consumed(*old(parser), *parser).last() == t);
        }
        return true;
    }
    pop_state(parser);
    let s = parser.scanner.tokens[0].start_mark;
    *event = simple_event_new(yaml_event_type_t::YAML_SEQUENCE_END_EVENT, s, s);
    proof {
        assert(consumed(*old(parser), *parser).len() == 0);
    }
    true
}

/// Parses a key of a block mapping: '?' and a node (or an empty scalar),
/// or the end of the mapping. The first call takes the
/// BLOCK-MAPPING-START token and remembers where the mapping starts.
#[verifier::rlimit(40)]
pub fn yaml_parser_parse_block_mapping_key(
    parser: &mut yaml_parser_t,
    event: &mut yaml_event_t,
    first: bool,
) -> (r: bool)
    requires
        old(parser).wf(),
        old(parser).error == yaml_error_type_t::YAML_NO_ERROR,
    ensures
        parse_frame(*old(parser), *final(parser)),
        parse_outcome(*old(parser), *final(parser), r),
        final(parser).tag_directives == old(parser).tag_directives,
        r ==> ({
            ||| final(event).type_ == yaml_event_type_t::YAML_MAPPING_END_EVENT && final(parser).state
                == top_state(*old(parser)) && consumed(*old(parser), *final(parser)).last().type_
                == yaml_token_type_t::YAML_BLOCK_END_TOKEN
            ||| final(event).type_ == yaml_event_type_t::YAML_SCALAR_EVENT && final(parser).state
                == yaml_parser_state_t::YAML_PARSE_BLOCK_MAPPING_VALUE_STATE
                && consumed(*old(parser), *final(parser)).last().type_
                == yaml_token_type_t::YAML_KEY_TOKEN
            ||| is_node_event(final(event).type_)
        }),
        (!r && final(parser).error == yaml_error_type_t::YAML_PARSER_ERROR) ==> {
            &&& final(parser).problem == Some("did not find expected key") || node_problem(
                final(parser).problem,
            )
            &&& final(parser).problem == Some("did not find expected key") ==> {
                &&& stopped_at_head(*final(parser))
                &&& head_token(*final(parser)).type_ != yaml_token_type_t::YAML_KEY_TOKEN
                &&& head_token(*final(parser)).type_ != yaml_token_type_t::YAML_BLOCK_END_TOKEN
            }
        },
{
    if first {
        if !peek_token(parser) {
            return false;
        }
        let m = parser.scanner.tokens[0].start_mark;
        parser.marks.push(m);
        skip_token(parser);
    }
    if !peek_token(parser) {
        return false;
    }
    let tt = parser.scanner.tokens[0].type_;
    if tt == yaml_token_type_t::YAML_KEY_TOKEN {
        let t = skip_token(parser);
        let mark = t.end_mark;
        if !peek_token(parser) {
            return false;
        }
        let nt = parser.scanner.tokens[0].type_;
        if nt != yaml_token_type_t::YAML_KEY_TOKEN && nt != yaml_token_type_t::YAML_VALUE_TOKEN
            && nt != yaml_token_type_t::YAML_BLOCK_END_TOKEN {
            return push_and_parse_node(
                parser,
                event,
                yaml_parser_state_t::YAML_PARSE_BLOCK_MAPPING_VALUE_STATE,
                true,
                true,
            );
        }
        parser.state = yaml_parser_state_t::YAML_PARSE_BLOCK_MAPPING_VALUE_STATE;
        yaml_parser_process_empty_scalar(event, mark);
        proof {
            assert(consumed(*old(parser), *parser).last() == t);
        }
        return true;
    }
    if tt == yaml_token_type_t::YAML_BLOCK_END_TOKEN {
        pop_state(parser);
        pop_mark(parser);
        let t = skip_token(parser);
        *event = simple_event_new(yaml_event_type_t::YAML_MAPPING_END_EVENT, t.start_mark, t.end_mark);
        proof {
            assert(consumed(*old(parser), *parser).last() == t);
        }
        return true;
    }
    let m = pop_mark(parser);
    let s = parser.scanner.tokens[0].start_mark;
    yaml_parser_set_parser_error_context(
        parser,
        "while parsing a block mapping",
        m,
        "did not find expected key",
        s,
    )
}

/// Parses a value of a block mapping: ':' and a node (or an empty
/// scalar); without ':' the value is an empty scalar.
#[verifier::rlimit(40)]
pub fn yaml_parser_parse_block_mapping_value(
    parser: &mut yaml_parser_t,
    event: &mut yaml_event_t,
) -> (r: bool)
    requires
        old(parser).wf(),
        old(parser).error == yaml_error_type_t::YAML_NO_ERROR,
    ensures
        parse_frame(*old(parser), *final(parser)),
        parse_outcome(*old(parser), *final(parser), r),
        final(parser).tag_directives == old(parser).tag_directives,
        final(parser).marks == old(parser).marks,
        r ==> ({
            ||| final(event).type_ == yaml_event_type_t::YAML_SCALAR_EVENT && final(parser).state
                == yaml_parser_state_t::YAML_PARSE_BLOCK_MAPPING_KEY_STATE
            ||| is_node_event(final(event).type_)
        }),
        (!r && final(parser).error == yaml_error_type_t::YAML_PARSER_ERROR) ==> node_problem(
            final(parser).problem,
        ),
{
    if !peek_token(parser) {
        return false;
    }
    let tt = parser.scanner.tokens[0].type_;
    if tt == yaml_token_type_t::YAML_VALUE_TOKEN {
        let t = skip_token(parser);
        let mark = t.end_mark;
        if !peek_token(parser) {
            return false;
        }
        let nt = parser.scanner.tokens[0].type_;
        if nt != yaml_token_type_t::YAML_KEY_TOKEN && nt != yaml_token_type_t::YAML_VALUE_TOKEN
            && nt != yaml_token_type_t::YAML_BLOCK_END_TOKEN {
            return push_and_parse_node(
                parser,
                event,
                yaml_parser_state_t::YAML_PARSE_BLOCK_MAPPING_KEY_STATE,
                true,
                true,
            );
        }
        parser.state = yaml_parser_state_t::YAML_PARSE_BLOCK_MAPPING_KEY_STATE;
        yaml_parser_process_empty_scalar(event, mark);
        return true;
    }
    parser.state = yaml_parser_state_t::YAML_PARSE_BLOCK_MAPPING_KEY_STATE;
    let s = parser.scanner.tokens[0].start_mark;
    yaml_parser_process_empty_scalar(event, s);
    true
}

/// Parses an entry of a flow sequence: a node, a single-pair mapping ('?'
/// or a key with ':'), or the end of the sequence; entries after the
/// first follow a ','. The first call takes the FLOW-SEQUENCE-START token
/// and remembers where the sequence starts.
#[verifier::rlimit(40)]
pub fn yaml_parser_parse_flow_sequence_entry(
    parser: &mut yaml_parser_t,
    event: &mut yaml_event_t,
    first: bool,
) -> (r: bool)
    requires
        old(parser).wf(),
        old(parser).error == yaml_error_type_t::YAML_NO_ERROR,
    ensures
        parse_frame(*old(parser), *final(parser)),
        parse_outcome(*old(parser), *final(parser), r),
        final(parser).tag_directives == old(parser).tag_directives,
        r ==> ({
            ||| final(event).type_ == yaml_event_type_t::YAML_SEQUENCE_END_EVENT && final(parser).state
                == top_state(*old(parser)) && consumed(*old(parser), *final(parser)).last().type_
                == yaml_token_type_t::YAML_FLOW_SEQUENCE_END_TOKEN
            ||| final(event).type_ == yaml_event_type_t::YAML_MAPPING_START_EVENT && final(parser).state
                == yaml_parser_state_t::YAML_PARSE_FLOW_SEQUENCE_ENTRY_MAPPING_KEY_STATE
                && consumed(*old(parser), *final(parser)).last().type_
                == yaml_token_type_t::YAML_KEY_TOKEN
            ||| is_node_event(final(event).type_)
        }),
        (!r && final(parser).error == yaml_error_type_t::YAML_PARSER_ERROR) ==> {
            &&& final(parser).problem == Some("did not find expected ',' or ']'") || node_problem(
                final(parser).problem,
            )
            &&& final(parser).problem == Some("did not find expected ',' or ']'") ==> {
                &&& !first
                &&& stopped_at_head(*final(parser))
                &&& head_token(*final(parser)).type_ != yaml_token_type_t::YAML_FLOW_ENTRY_TOKEN
                &&& head_token(*final(parser)).type_ != yaml_token_type_t::YAML_FLOW_SEQUENCE_END_TOKEN
            }
        },
{
    if first {
        if !peek_token(parser) {
            return false;
        }
        let m = parser.scanner.tokens[0].start_mark;
        parser.marks.push(m);
        skip_token(parser);
    }
    if !peek_token(parser) {
        return false;
    }
    if parser.scanner.tokens[0].type_ != yaml_token_type_t::YAML_FLOW_SEQUENCE_END_TOKEN {
        if !first {
            if parser.scanner.tokens[0].type_ == yaml_token_type_t::YAML_FLOW_ENTRY_TOKEN {
                skip_token(parser);
                if !peek_token(parser) {
                    return false;
                }
            } else {
                let m = pop_mark(parser);
                let s = parser.scanner.tokens[0].start_mark;
                return yaml_parser_set_parser_error_context(
                    parser,
                    "while parsing a flow sequence",
                    m,
                    "did not find expected ',' or ']'",
                    s,
                );
            }
        }
        let tt = parser.scanner.tokens[0].type_;
        if tt == yaml_token_type_t::YAML_KEY_TOKEN {
            parser.state = yaml_parser_state_t::YAML_PARSE_FLOW_SEQUENCE_ENTRY_MAPPING_KEY_STATE;
            let t = skip_token(parser);
            *event = collection_event(false, None, None, true, t.start_mark, t.end_mark);
            proof {
                assert(consumed(*old(parser), *parser).last() == t);
            }
            return true;
        } else if tt != yaml_token_type_t::YAML_FLOW_SEQUENCE_END_TOKEN {
            return push_and_parse_node(
                parser,
                event,
                yaml_parser_state_t::YAML_PARSE_FLOW_SEQUENCE_ENTRY_STATE,
                false,
                false,
            );
        }
    }
    pop_state(parser);
    pop_mark(parser);
    let t = skip_token(parser);
    *event = simple_event_new(yaml_event_type_t::YAML_SEQUENCE_END_EVENT, t.start_mark, t.end_mark);
    proof {
        assert(consumed(*old(parser), *parser).last() == t);
    }
    true
}

/// Parses the key of a single-pair mapping in a flow sequence: a node, or
/// an empty scalar before ':', ',' or ']'.
pub fn yaml_parser_parse_flow_sequence_entry_mapping_key(
    parser: &mut yaml_parser_t,
    event: &mut yaml_event_t,
) -> (r: bool)
    requires
        old(parser).wf(),
        old(parser).error == yaml_error_type_t::YAML_NO_ERROR,
    ensures
        parse_frame(*old(parser), *final(parser)),
        parse_outcome(*old(parser), *final(parser), r),
        final(parser).tag_directives == old(parser).tag_directives,
        final(parser).marks == old(parser).marks,
        r ==> ({
            ||| final(event).type_ == yaml_event_type_t::YAML_SCALAR_EVENT && final(parser).state
                == yaml_parser_state_t::YAML_PARSE_FLOW_SEQUENCE_ENTRY_MAPPING_VALUE_STATE
            ||| is_node_event(final(event).type_)
        }),
        (!r && final(parser).error == yaml_error_type_t::YAML_PARSER_ERROR) ==> node_problem(
            final(parser).problem,
        ),
{
    if !peek_token(parser) {
        return false;
    }
    let tt = parser.scanner.tokens[0].type_;
    if tt != yaml_token_type_t::YAML_VALUE_TOKEN && tt != yaml_token_type_t::YAML_FLOW_ENTRY_TOKEN
        && tt != yaml_token_type_t::YAML_FLOW_SEQUENCE_END_TOKEN {
        return push_and_parse_node(
            parser,
            event,
            yaml_parser_state_t::YAML_PARSE_FLOW_SEQUENCE_ENTRY_MAPPING_VALUE_STATE,
            false,
            false,
        );
    }
    if tt == yaml_token_type_t::YAML_FLOW_SEQUENCE_END_TOKEN {
        let mark = parser.scanner.tokens[0].start_mark;
        parser.state = yaml_parser_state_t::YAML_PARSE_FLOW_SEQUENCE_ENTRY_MAPPING_VALUE_STATE;
        yaml_parser_process_empty_scalar(event, mark);
        return true;
    }
    let t = skip_token(parser);
    parser.state = yaml_parser_state_t::YAML_PARSE_FLOW_SEQUENCE_ENTRY_MAPPING_VALUE_STATE;
    yaml_parser_process_empty_scalar(event, t.end_mark);
    true
}

/// Parses the value of a single-pair mapping in a flow sequence: ':' and
/// a node, or an empty scalar.
pub fn yaml_parser_parse_flow_sequence_entry_mapping_value(
    parser: &mut yaml_parser_t,
    event: &mut yaml_event_t,
) -> (r: bool)
    requires
        old(parser).wf(),
        old(parser).error == yaml_error_type_t::YAML_NO_ERROR,
    ensures
        parse_frame(*old(parser), *final(parser)),
        parse_outcome(*old(parser), *final(parser), r),
        final(parser).tag_directives == old(parser).tag_directives,
        final(parser).marks == old(parser).marks,
        r ==> ({
            ||| final(event).type_ == yaml_event_type_t::YAML_SCALAR_EVENT && final(parser).state
                == yaml_parser_state_t::YAML_PARSE_FLOW_SEQUENCE_ENTRY_MAPPING_END_STATE
            ||| is_node_event(final(event).type_)
        }),
        (!r && final(parser).error == yaml_error_type_t::YAML_PARSER_ERROR) ==> node_problem(
            final(parser).problem,
        ),
{
    if !peek_token(parser) {
        return false;
    }
    if parser.scanner.tokens[0].type_ == yaml_token_type_t::YAML_VALUE_TOKEN {
        skip_token(parser);
        if !peek_token(parser) {
            return false;
        }
        let tt = parser.scanner.tokens[0].type_;
        if tt != yaml_token_type_t::YAML_FLOW_ENTRY_TOKEN && tt
            != yaml_token_type_t::YAML_FLOW_SEQUENCE_END_TOKEN {
            return push_and_parse_node(
                parser,
                event,
                yaml_parser_state_t::YAML_PARSE_FLOW_SEQUENCE_ENTRY_MAPPING_END_STATE,
                false,
                false,
            );
        }
    }
    parser.state = yaml_parser_state_t::YAML_PARSE_FLOW_SEQUENCE_ENTRY_MAPPING_END_STATE;
    let s = parser.scanner.tokens[0].start_mark;
    yaml_parser_process_empty_scalar(event, s);
    true
}

/// Ends a single-pair mapping in a flow sequence (no token is taken).
pub fn yaml_parser_parse_flow_sequence_entry_mapping_end(
    parser: &mut yaml_parser_t,
    event: &mut yaml_event_t,
) -> (r: bool)
    requires
        old(parser).wf(),
        old(parser).error == yaml_error_type_t::YAML_NO_ERROR,
    ensures
        parse_frame(*old(parser), *final(parser)),
        parse_outcome(*old(parser), *final(parser), r),
        final(parser).tag_directives == old(parser).tag_directives,
        final(parser).marks == old(parser).marks,
        final(parser).states == old(parser).states,
        consumed(*old(parser), *final(parser)).len() == 0,
        r ==> final(event).type_ == yaml_event_type_t::YAML_MAPPING_END_EVENT && final(parser).state
            == yaml_parser_state_t::YAML_PARSE_FLOW_SEQUENCE_ENTRY_STATE
            && final(event).start_mark == final(event).end_mark,
        !r ==> final(parser).error != yaml_error_type_t::YAML_PARSER_ERROR,
{
    if !peek_token(parser) {
        proof {
            assert(consumed(*old(parser), *parser) =~= Seq::<yaml_token_t>::empty());
        }
        return false;
    }
    parser.state = yaml_parser_state_t::YAML_PARSE_FLOW_SEQUENCE_ENTRY_STATE;
    let s = parser.scanner.tokens[0].start_mark;
    *event = simple_event_new(yaml_event_type_t::YAML_MAPPING_END_EVENT, s, s);
    proof {
        assert(consumed(*old(parser), *parser) =~= Seq::<yaml_token_t>::empty());
    }
    true
}

/// Parses an entry of a flow mapping: '?' and a key (a node or an empty
/// scalar), a key without '?', or the end of the mapping; entries after
/// the first follow a ','. The first call takes the FLOW-MAPPING-START
/// token and remembers where the mapping starts.
#[verifier::rlimit(40)]
pub fn yaml_parser_parse_flow_mapping_key(
    parser: &mut yaml_parser_t,
    event: &mut yaml_event_t,
    first: bool,
) -> (r: bool)
    requires
        old(parser).wf(),
        old(parser).error == yaml_error_type_t::YAML_NO_ERROR,
    ensures
        parse_frame(*old(parser), *final(parser)),
        parse_outcome(*old(parser), *final(parser), r),
        final(parser).tag_directives == old(parser).tag_directives,
        r ==> ({
            ||| final(event).type_ == yaml_event_type_t::YAML_MAPPING_END_EVENT && final(parser).state
                == top_state(*old(parser)) && consumed(*old(parser), *final(parser)).last().type_
                == yaml_token_type_t::YAML_FLOW_MAPPING_END_TOKEN
            ||| final(event).type_ == yaml_event_type_t::YAML_SCALAR_EVENT && final(parser).state
                == yaml_parser_state_t::YAML_PARSE_FLOW_MAPPING_VALUE_STATE
            ||| is_node_event(final(event).type_)
        }),
        (!r && final(parser).error == yaml_error_type_t::YAML_PARSER_ERROR) ==> {
            &&& final(parser).problem == Some("did not find expected ',' or '}'") || node_problem(
                final(parser).problem,
            )
            &&& final(parser).problem == Some("did not find expected ',' or '}'") ==> {
                &&& !first
                &&& stopped_at_head(*final(parser))
                &&& head_token(*final(parser)).type_ != yaml_token_type_t::YAML_FLOW_ENTRY_TOKEN
                &&& head_token(*final(parser)).type_ != yaml_token_type_t::YAML_FLOW_MAPPING_END_TOKEN
            }
        },
{
    if first {
        if !peek_token(parser) {
            return false;
        }
        let m = parser.scanner.tokens[0].start_mark;
        parser.marks.push(m);
        skip_token(parser);
    }
    if !peek_token(parser) {
        return false;
    }
    if parser.scanner.tokens[0].type_ != yaml_token_type_t::YAML_FLOW_MAPPING_END_TOKEN {
        if !first {
            if parser.scanner.tokens[0].type_ == yaml_token_type_t::YAML_FLOW_ENTRY_TOKEN {
                skip_token(parser);
                if !peek_token(parser) {
                    return false;
                }
            } else {
                let m = pop_mark(parser);
                let s = parser.scanner.tokens[0].start_mark;
                return yaml_parser_set_parser_error_context(
                    parser,
                    "while parsing a flow mapping",
                    m,
                    "did not find expected ',' or '}'",
                    s,
                );
            }
        }
        let tt = parser.scanner.tokens[0].type_;
        if tt == yaml_token_type_t::YAML_KEY_TOKEN {
            skip_token(parser);
            if !peek_token(parser) {
                return false;
            }
            let nt = parser.scanner.tokens[0].type_;
            if nt != yaml_token_type_t::YAML_VALUE_TOKEN && nt
                != yaml_token_type_t::YAML_FLOW_ENTRY_TOKEN && nt
                != yaml_token_type_t::YAML_FLOW_MAPPING_END_TOKEN {
                return push_and_parse_node(
                    parser,
                    event,
                    yaml_parser_state_t::YAML_PARSE_FLOW_MAPPING_VALUE_STATE,
                    false,
                    false,
                );
            }
            parser.state = yaml_parser_state_t::YAML_PARSE_FLOW_MAPPING_VALUE_STATE;
            let s = parser.scanner.tokens[0].start_mark;
            yaml_parser_process_empty_scalar(event, s);
            return true;
        } else if tt != yaml_token_type_t::YAML_FLOW_MAPPING_END_TOKEN {
            return push_and_parse_node(
                parser,
                event,
                yaml_parser_state_t::YAML_PARSE_FLOW_MAPPING_EMPTY_VALUE_STATE,
                false,
                false,
            );
        }
    }
    pop_state(parser);
    pop_mark(parser);
    let t = skip_token(parser);
    *event = simple_event_new(yaml_event_type_t::YAML_MAPPING_END_EVENT, t.start_mark, t.end_mark);
    proof {
        assert(consumed(*old(parser), *parser).last() == t);
    }
    true
}

/// Parses a value of a flow mapping: ':' and a node, or an empty scalar
/// (always an empty scalar after a key without ':' when `empty`).
pub fn yaml_parser_parse_flow_mapping_value(
    parser: &mut yaml_parser_t,
    event: &mut yaml_event_t,
    empty: bool,
) -> (r: bool)
    requires
        old(parser).wf(),
        old(parser).error == yaml_error_type_t::YAML_NO_ERROR,
    ensures
        parse_frame(*old(parser), *final(parser)),
        parse_outcome(*old(parser), *final(parser), r),
        final(parser).tag_directives == old(parser).tag_directives,
        final(parser).marks == old(parser).marks,
        r && empty ==> is_empty_scalar_event(*final(event), final(event).start_mark)
            && final(parser).state == yaml_parser_state_t::YAML_PARSE_FLOW_MAPPING_KEY_STATE
            && consumed(*old(parser), *final(parser)).len() == 0,
        r ==> ({
            ||| final(event).type_ == yaml_event_type_t::YAML_SCALAR_EVENT && final(parser).state
                == yaml_parser_state_t::YAML_PARSE_FLOW_MAPPING_KEY_STATE
            ||| is_node_event(final(event).type_)
        }),
        (!r && final(parser).error == yaml_error_type_t::YAML_PARSER_ERROR) ==> node_problem(
            final(parser).problem,
        ),
{
    if !peek_token(parser) {
        return false;
    }
    if empty {
        parser.state = yaml_parser_state_t::YAML_PARSE_FLOW_MAPPING_KEY_STATE;
        let s = parser.scanner.tokens[0].start_mark;
        yaml_parser_process_empty_scalar(event, s);
        proof {
            assert(consumed(*old(parser), *parser) =~= Seq::<yaml_token_t>::empty());
        }
        return true;
    }
    if parser.scanner.tokens[0].type_ == yaml_token_type_t::YAML_VALUE_TOKEN {
        skip_token(parser);
        if !peek_token(parser) {
            return false;
        }
        let tt = parser.scanner.tokens[0].type_;
        if tt != yaml_token_type_t::YAML_FLOW_ENTRY_TOKEN && tt
            != yaml_token_type_t::YAML_FLOW_MAPPING_END_TOKEN {
            return push_and_parse_node(
                parser,
                event,
                yaml_parser_state_t::YAML_PARSE_FLOW_MAPPING_KEY_STATE,
                false,
                false,
            );
        }
    }
    parser.state = yaml_parser_state_t::YAML_PARSE_FLOW_MAPPING_KEY_STATE;
    let s = parser.scanner.tokens[0].start_mark;
    yaml_parser_process_empty_scalar(event, s);
    true
}

// ---------------------------------------------------------------------------
// Directives and documents
// ---------------------------------------------------------------------------

/// The prefix of the "!!" handle: "tag:yaml.org,2002:".
pub open spec fn yaml_tag_prefix() -> Seq<u8> {
    seq![0x74u8, 0x61u8, 0x67u8, 0x3Au8, 0x79u8, 0x61u8, 0x6Du8, 0x6Cu8, 0x2Eu8, 0x6Fu8, 0x72u8, 0x67u8, 0x2Cu8, 0x32u8, 0x30u8, 0x30u8, 0x32u8, 0x3Au8]
}

fn yaml_tag_prefix_exec() -> (v: Vec<u8>)
    ensures
        v@ == yaml_tag_prefix(),
{
    let v: Vec<u8> = vec![0x74u8, 0x61u8, 0x67u8, 0x3Au8, 0x79u8, 0x61u8, 0x6Du8, 0x6Cu8, 0x2Eu8, 0x6Fu8, 0x72u8, 0x67u8, 0x2Cu8, 0x32u8, 0x30u8, 0x30u8, 0x32u8, 0x3Au8];
    proof {
        assert(v@ =~= yaml_tag_prefix());
    }
    v
}

/// The tag directives with the directive (h, p) added unless `h` already
/// has one.
pub open spec fn with_default(ds: Seq<(Seq<u8>, Seq<u8>)>, h: Seq<u8>, p: Seq<u8>) -> Seq<
    (Seq<u8>, Seq<u8>),
> {
    if lookup_handle(ds, h) is Some {
        ds
    } else {
        ds.push((h, p))
    }
}

/// The tag directives with the default ones ("!" and "!!") added where
/// missing.
pub open spec fn with_defaults(ds: Seq<(Seq<u8>, Seq<u8>)>) -> Seq<(Seq<u8>, Seq<u8>)> {
    with_default(with_default(ds, seq![0x21u8], seq![0x21u8]), seq![0x21u8, 0x21u8], yaml_tag_prefix())
}

/// The handle and prefix of a TAG-DIRECTIVE token.
pub open spec fn token_tag_directive(t: yaml_token_t) -> (Seq<u8>, Seq<u8>) {
    match t.data {
        yaml_token_data_t::TagDirective(d) => (d.handle@, d.prefix@),
        _ => (Seq::empty(), Seq::empty()),
    }
}

/// The tag directives among the tokens `cs`, in order.
pub open spec fn tag_tokens(cs: Seq<yaml_token_t>) -> Seq<(Seq<u8>, Seq<u8>)>
    decreases cs.len(),
{
    if cs.len() == 0 {
        Seq::empty()
    } else if cs.last().type_ == yaml_token_type_t::YAML_TAG_DIRECTIVE_TOKEN {
        tag_tokens(cs.drop_last()).push(token_tag_directive(cs.last()))
    } else {
        tag_tokens(cs.drop_last())
    }
}

/// The version of the last VERSION-DIRECTIVE token among `cs`, if any.
pub open spec fn version_of(cs: Seq<yaml_token_t>) -> Option<(i32, i32)>
    decreases cs.len(),
{
    if cs.len() == 0 {
        None
    } else if cs.last().type_ == yaml_token_type_t::YAML_VERSION_DIRECTIVE_TOKEN {
        match cs.last().data {
            yaml_token_data_t::VersionDirective(v) => Some((v.major, v.minor)),
            _ => None,
        }
    } else {
        version_of(cs.drop_last())
    }
}

/// A directive token.
pub open spec fn is_directive(t: yaml_token_t) -> bool {
    t.type_ == yaml_token_type_t::YAML_VERSION_DIRECTIVE_TOKEN || t.type_
        == yaml_token_type_t::YAML_TAG_DIRECTIVE_TOKEN
}

/// Adds a tag directive to the parser's directives; a handle that already
/// has one is an error ("found duplicate %TAG directive") unless
/// duplicates are allowed, and then nothing changes.
fn yaml_parser_append_tag_directive(
    parser: &mut yaml_parser_t,
    handle: &Vec<u8>,
    prefix: &Vec<u8>,
    allow_duplicates: bool,
    mark: yaml_mark_t,
) -> (r: bool)
    requires
        old(parser).error == yaml_error_type_t::YAML_NO_ERROR,
    ensures
        final(parser).reader == old(parser).reader,
        final(parser).scanner == old(parser).scanner,
        final(parser).handed == old(parser).handed,
        final(parser).states == old(parser).states,
        final(parser).state == old(parser).state,
        final(parser).marks == old(parser).marks,
        final(parser).max_nest_level == old(parser).max_nest_level,
        parse_outcome(*old(parser), *final(parser), r),
        lookup_handle(directives_view(*old(parser)), handle@) is Some ==> {
            &&& r == allow_duplicates
            &&& final(parser).tag_directives == old(parser).tag_directives
            &&& !r ==> final(parser).error == yaml_error_type_t::YAML_PARSER_ERROR
                && final(parser).problem == Some("found duplicate %TAG directive")
                && final(parser).problem_mark == mark
        },
        lookup_handle(directives_view(*old(parser)), handle@) is None ==> {
            &&& r
            &&& directives_view(*final(parser)) == directives_view(*old(parser)).push(
                (handle@, prefix@),
            )
        },
{
    let ghost dv = directives_view(*parser);
    let mut i: usize = 0;
    proof {
        assert(dv.skip(0) =~= dv);
    }
    while i < parser.tag_directives.items.len()
        invariant
            0 <= i <= parser.tag_directives.items.len(),
            dv == directives_view(*parser),
            *parser == *old(parser),
            old(parser).error == yaml_error_type_t::YAML_NO_ERROR,
            lookup_handle(dv, handle@) == lookup_handle(dv.skip(i as int), handle@),
        decreases parser.tag_directives.items.len() - i,
    {
        proof {
            assert(dv.skip(i as int)[0] == dv[i as int]);
            assert(dv.skip(i as int).skip(1) =~= dv.skip(i + 1));
        }
        if bytes_equal(&parser.tag_directives.items[i].handle, handle) {
            if allow_duplicates {
                return true;
            }
            return yaml_parser_set_parser_error(parser, "found duplicate %TAG directive", mark);
        }
        i = i + 1;
    }
    proof {
        assert(dv.skip(i as int).len() == 0);
    }
    let copy = crate::types::yaml_tag_directive_t { handle: handle.clone(), prefix: prefix.clone() };
    parser.tag_directives.items.push(copy);
    proof {
        assert(directives_view(*parser) =~= dv.push((handle@, prefix@)));
    }
    true
}

/// The problems the directives of a document can have.
pub open spec fn directive_problem(p: Option<&'static str>) -> bool {
    ||| p == Some("found duplicate %YAML directive")
    ||| p == Some("found incompatible YAML document")
    ||| p == Some("found duplicate %TAG directive")
}

/// The tag directives of a document, in order.
pub open spec fn tag_list_view(v: Seq<crate::types::yaml_tag_directive_t>) -> Seq<(Seq<u8>, Seq<u8>)> {
    crate::types::tag_directives_view(v)
}

/// The version of an optional %YAML directive.
pub open spec fn version_view(v: Option<crate::types::yaml_version_directive_t>) -> Option<(i32, i32)> {
    match v {
        Some(d) => Some((d.major, d.minor)),
        None => None,
    }
}

/// Tokens that are no directives name neither tags nor a version.
proof fn lemma_no_directives(pre: Seq<yaml_token_t>)
    requires
        forall|i: int| 0 <= i < pre.len() ==> !is_directive(#[trigger] pre[i]),
    ensures
        tag_tokens(pre) == Seq::<(Seq<u8>, Seq<u8>)>::empty(),
        version_of(pre) is None,
    decreases pre.len(),
{
    if pre.len() > 0 {
        assert forall|i: int| 0 <= i < pre.drop_last().len() implies !is_directive(#[trigger] pre.drop_last()[i]) by {
            assert(pre.drop_last()[i] == pre[i]);
        }
        lemma_no_directives(pre.drop_last());
        assert(!is_directive(pre[pre.len() - 1]));
    }
}

/// Tokens with no directives among them, before the directives `mid`,
/// change neither the tags nor the version that `mid` names.
proof fn lemma_directives_after(pre: Seq<yaml_token_t>, mid: Seq<yaml_token_t>)
    requires
        forall|i: int| 0 <= i < pre.len() ==> !is_directive(#[trigger] pre[i]),
    ensures
        tag_tokens(pre + mid) == tag_tokens(mid),
        version_of(pre + mid) == version_of(mid),
    decreases mid.len(),
{
    if mid.len() == 0 {
        assert(pre + mid =~= pre);
        lemma_no_directives(pre);
    } else {
        lemma_directives_after(pre, mid.drop_last());
        assert((pre + mid).drop_last() =~= pre + mid.drop_last());
        assert((pre + mid).last() == mid.last());
    }
}

/// Reads the directives of a document: at most one %YAML directive, for
/// version 1.1 or 1.2, and %TAG directives with distinct handles, which
/// join the parser's tag directives; the default directives ("!" and
/// "!!") are added where missing. Returns the version and the document's
/// own tag directives.
#[verifier::rlimit(60)]
fn yaml_parser_process_directives(parser: &mut yaml_parser_t) -> (r: Option<
    (Option<crate::types::yaml_version_directive_t>, Vec<crate::types::yaml_tag_directive_t>),
>)
    requires
        old(parser).wf(),
        old(parser).error == yaml_error_type_t::YAML_NO_ERROR,
    ensures
        parse_frame(*old(parser), *final(parser)),
        parse_outcome(*old(parser), *final(parser), r is Some),
        final(parser).states == old(parser).states,
        final(parser).state == old(parser).state,
        final(parser).marks == old(parser).marks,
        forall|i: int| 0 <= i < consumed(*old(parser), *final(parser)).len() ==> is_directive(
            #[trigger] consumed(*old(parser), *final(parser))[i],
        ),
        has_head(*old(parser)) && !is_directive(head_token(*old(parser))) ==> consumed(
            *old(parser),
            *final(parser),
        ).len() == 0,
        r matches Some(v) ==> {
            let cs = consumed(*old(parser), *final(parser));
            &&& has_head(*final(parser))
            &&& !is_directive(head_token(*final(parser)))
            &&& tag_list_view(v.1@) == tag_tokens(cs)
            &&& directives_view(*final(parser)) == with_defaults(directives_view(*old(parser)) + tag_tokens(cs))
            &&& version_view(v.0) == version_of(cs)
            &&& v.0 matches Some(d) ==> d.major == 1 && (d.minor == 1 || d.minor == 2)
        },
        (r is None && final(parser).error == yaml_error_type_t::YAML_PARSER_ERROR)
            ==> directive_problem(final(parser).problem),
        (r is None && final(parser).error == yaml_error_type_t::YAML_PARSER_ERROR) ==> {
            let cs = consumed(*old(parser), *final(parser));
            let t = head_token(*final(parser));
            &&& has_head(*final(parser))
            &&& final(parser).problem_mark == t.start_mark
            &&& final(parser).problem == Some("found duplicate %YAML directive") ==> t.type_
                == yaml_token_type_t::YAML_VERSION_DIRECTIVE_TOKEN && version_of(cs) is Some
            &&& final(parser).problem == Some("found incompatible YAML document") ==> {
                &&& t.type_ == yaml_token_type_t::YAML_VERSION_DIRECTIVE_TOKEN
                &&& version_of(cs) is None
                &&& !(t.data matches yaml_token_data_t::VersionDirective(v) && v.major == 1 && (v.minor
                    == 1 || v.minor == 2))
            }
            &&& final(parser).problem == Some("found duplicate %TAG directive") ==> {
                &&& t.type_ == yaml_token_type_t::YAML_TAG_DIRECTIVE_TOKEN
                &&& lookup_handle(directives_view(*old(parser)) + tag_tokens(cs), token_tag_directive(t).0) is Some
            }
        },
{
    let mut version: Option<crate::types::yaml_version_directive_t> = None;
    let mut tags: Vec<crate::types::yaml_tag_directive_t> = Vec::new();
    if !peek_token(parser) {
        return None;
    }
    proof {
        assert(consumed(*old(parser), *parser) =~= Seq::<yaml_token_t>::empty());
        assert(directives_view(*old(parser)) + tag_tokens(Seq::<yaml_token_t>::empty()) =~= directives_view(*old(parser)));
        assert(tag_list_view(tags@) =~= Seq::<(Seq<u8>, Seq<u8>)>::empty());
    }
    while is_directive_type(parser.scanner.tokens[0].type_)
        invariant
            parse_frame(*old(parser), *parser),
            parser.error == yaml_error_type_t::YAML_NO_ERROR,
            has_head(*parser),
            parser.states == old(parser).states,
            parser.state == old(parser).state,
            parser.marks == old(parser).marks,
            forall|i: int| 0 <= i < consumed(*old(parser), *parser).len() ==> is_directive(
                #[trigger] consumed(*old(parser), *parser)[i],
            ),
            tag_list_view(tags@) == tag_tokens(consumed(*old(parser), *parser)),
            directives_view(*parser) == directives_view(*old(parser)) + tag_tokens(consumed(*old(parser), *parser)),
            version_view(version) == version_of(consumed(*old(parser), *parser)),
            version matches Some(d) ==> d.major == 1 && (d.minor == 1 || d.minor == 2),
            has_head(*old(parser)) && !is_directive(head_token(*old(parser))) ==> *parser == *old(parser),
        decreases crate::scanner::token_capacity() - parser.scanner.tokens_parsed,
    {
        let ghost before = *parser;
        let tt = parser.scanner.tokens[0].type_;
        let s = parser.scanner.tokens[0].start_mark;
        if tt == yaml_token_type_t::YAML_VERSION_DIRECTIVE_TOKEN {
            if version.is_some() {
                yaml_parser_set_parser_error(parser, "found duplicate %YAML directive", s);
                return None;
            }
            let (major, minor) = match &parser.scanner.tokens[0].data {
                yaml_token_data_t::VersionDirective(v) => (v.major, v.minor),
                _ => (0, 0),
            };
            if major != 1 || (minor != 1 && minor != 2) {
                yaml_parser_set_parser_error(parser, "found incompatible YAML document", s);
                return None;
            }
            version = Some(crate::types::yaml_version_directive_t { major, minor });
        } else {
            let (h, p) = match &parser.scanner.tokens[0].data {
                yaml_token_data_t::TagDirective(d) => (d.handle.clone(), d.prefix.clone()),
                _ => (Vec::new(), Vec::new()),
            };
            proof {
                assert((h@, p@) == token_tag_directive(head_token(*parser)));
            }
            if !yaml_parser_append_tag_directive(parser, &h, &p, false, s) {
                return None;
            }
            tags.push(crate::types::yaml_tag_directive_t { handle: h, prefix: p });
        }
        let t = skip_token(parser);
        proof {
            let c0 = consumed(*old(parser), before);
            assert(consumed(*old(parser), *parser) =~= c0.push(t));
            assert(c0.push(t).drop_last() =~= c0);
            if tt == yaml_token_type_t::YAML_TAG_DIRECTIVE_TOKEN {
                assert(tag_list_view(tags@) =~= tag_list_view(tags@.drop_last()).push(tag_directive_view_of(tags@.last())));
            }
        }
        if !peek_token(parser) {
            return None;
        }
    }
    let s = parser.scanner.tokens[0].start_mark;
    let bang: Vec<u8> = vec![0x21u8];
    let bang2: Vec<u8> = vec![0x21u8, 0x21u8];
    let ghost d0 = directives_view(*parser);
    yaml_parser_append_tag_directive(parser, &bang, &bang, true, s);
    let pre = yaml_tag_prefix_exec();
    yaml_parser_append_tag_directive(parser, &bang2, &pre, true, s);
    proof {
        assert(bang@ =~= seq![0x21u8]);
        assert(bang2@ =~= seq![0x21u8, 0x21u8]);
    }
    Some((version, tags))
}

spec fn tag_directive_view_of(t: crate::types::yaml_tag_directive_t) -> (Seq<u8>, Seq<u8>) {
    (t.handle@, t.prefix@)
}

fn is_directive_type(t: yaml_token_type_t) -> (r: bool)
    ensures
        r == (t == yaml_token_type_t::YAML_VERSION_DIRECTIVE_TOKEN || t
            == yaml_token_type_t::YAML_TAG_DIRECTIVE_TOKEN),
{
    t == yaml_token_type_t::YAML_VERSION_DIRECTIVE_TOKEN || t == yaml_token_type_t::YAML_TAG_DIRECTIVE_TOKEN
}

/// `ev` starts a document with this version, these tag directives, and
/// this implicitness.
pub open spec fn document_start_is(
    ev: yaml_event_t,
    version: Option<(i32, i32)>,
    tags: Seq<(Seq<u8>, Seq<u8>)>,
    implicit: i32,
    s: yaml_mark_t,
    e: yaml_mark_t,
) -> bool {
    &&& ev.type_ == yaml_event_type_t::YAML_DOCUMENT_START_EVENT
    &&& ev.start_mark == s
    &&& ev.end_mark == e
    &&& ev.data matches yaml_event_data_t::DocumentStart(d) && {
        &&& version_view(d.version_directive) == version
        &&& tag_list_view(d.tag_directives.items@) == tags
        &&& d.implicit == implicit
    }
}

/// Parses the start of the stream: the STREAM-START token.
pub fn yaml_parser_parse_stream_start(parser: &mut yaml_parser_t, event: &mut yaml_event_t) -> (r:
    bool)
    requires
        old(parser).wf(),
        old(parser).error == yaml_error_type_t::YAML_NO_ERROR,
    ensures
        parse_frame(*old(parser), *final(parser)),
        parse_outcome(*old(parser), *final(parser), r),
        final(parser).states == old(parser).states,
        final(parser).marks == old(parser).marks,
        final(parser).tag_directives == old(parser).tag_directives,
        r ==> {
            let cs = consumed(*old(parser), *final(parser));
            &&& cs.len() == 1
            &&& cs[0].type_ == yaml_token_type_t::YAML_STREAM_START_TOKEN
            &&& final(event).type_ == yaml_event_type_t::YAML_STREAM_START_EVENT
            &&& final(event).start_mark == cs[0].start_mark
            &&& final(event).end_mark == cs[0].start_mark
            &&& (cs[0].data matches yaml_token_data_t::StreamStart(d) ==> final(event).data
                == yaml_event_data_t::StreamStart(
                crate::types::yaml_event_stream_start_t { encoding: d.encoding },
            ))
            &&& final(parser).state == yaml_parser_state_t::YAML_PARSE_IMPLICIT_DOCUMENT_START_STATE
        },
        (!r && final(parser).error == yaml_error_type_t::YAML_PARSER_ERROR) ==> {
            &&& final(parser).problem == Some("did not find expected <stream-start>")
            &&& has_head(*final(parser))
            &&& head_token(*final(parser)).type_ != yaml_token_type_t::YAML_STREAM_START_TOKEN
            &&& final(parser).problem_mark == head_token(*final(parser)).start_mark
        },
{
    if !peek_token(parser) {
        return false;
    }
    if parser.scanner.tokens[0].type_ != yaml_token_type_t::YAML_STREAM_START_TOKEN {
        let s = parser.scanner.tokens[0].start_mark;
        return yaml_parser_set_parser_error(parser, "did not find expected <stream-start>", s);
    }
    parser.state = yaml_parser_state_t::YAML_PARSE_IMPLICIT_DOCUMENT_START_STATE;
    let t = skip_token(parser);
    let encoding = match &t.data {
        yaml_token_data_t::StreamStart(d) => d.encoding,
        _ => crate::types::yaml_encoding_t::YAML_ANY_ENCODING,
    };
    *event = yaml_event_t {
        type_: yaml_event_type_t::YAML_STREAM_START_EVENT,
        data: yaml_event_data_t::StreamStart(crate::types::yaml_event_stream_start_t { encoding }),
        start_mark: t.start_mark,
        end_mark: t.start_mark,
    };
    proof {
        assert(consumed(*old(parser), *parser) =~= seq![t]);
    }
    true
}

/// Parses the start of a document: extra DOCUMENT-END tokens (unless
/// `implicit`), then an implicit document (content with no directives
/// and no '---', only where `implicit`), an explicit document
/// (directives, then DOCUMENT-START), or the end of the stream.
#[verifier::rlimit(60)]
pub fn yaml_parser_parse_document_start(
    parser: &mut yaml_parser_t,
    event: &mut yaml_event_t,
    implicit: bool,
) -> (r: bool)
    requires
        old(parser).wf(),
        old(parser).error == yaml_error_type_t::YAML_NO_ERROR,
    ensures
        parse_frame(*old(parser), *final(parser)),
        parse_outcome(*old(parser), *final(parser), r),
        final(parser).marks == old(parser).marks,
        r ==> {
            let cs = consumed(*old(parser), *final(parser));
            let pushed = final(parser).states.items@ == old(parser).states.items@.push(
                yaml_parser_state_t::YAML_PARSE_DOCUMENT_END_STATE,
            );
            ||| {
                &&& implicit
                &&& cs.len() == 0
                &&& document_start_is(*final(event), None, Seq::empty(), 1, final(event).start_mark, final(event).start_mark)
                &&& final(parser).state == yaml_parser_state_t::YAML_PARSE_BLOCK_NODE_STATE
                &&& pushed
                &&& directives_view(*final(parser)) == with_defaults(directives_view(*old(parser)))
            }
            ||| {
                &&& cs.len() > 0
                &&& cs.last().type_ == yaml_token_type_t::YAML_DOCUMENT_START_TOKEN
                &&& final(parser).state == yaml_parser_state_t::YAML_PARSE_DOCUMENT_CONTENT_STATE
                &&& pushed
                &&& final(event).type_ == yaml_event_type_t::YAML_DOCUMENT_START_EVENT
                &&& final(event).end_mark == cs.last().end_mark
                &&& final(event).data matches yaml_event_data_t::DocumentStart(d) && d.implicit == 0
                &&& document_start_is(*final(event), version_of(cs), tag_tokens(cs), 0, final(event).start_mark, cs.last().end_mark)
            }
            ||| {
                &&& cs.len() > 0
                &&& cs.last().type_ == yaml_token_type_t::YAML_STREAM_END_TOKEN
                &&& final(parser).state == yaml_parser_state_t::YAML_PARSE_END_STATE
                &&& *final(event) == simple_event(yaml_event_type_t::YAML_STREAM_END_EVENT, cs.last().start_mark, cs.last().end_mark)
            }
        },
        (!r && final(parser).error == yaml_error_type_t::YAML_PARSER_ERROR) ==> {
            ||| final(parser).problem == Some("did not find expected <document start>")
            ||| directive_problem(final(parser).problem)
        },
        (!r && final(parser).error == yaml_error_type_t::YAML_PARSER_ERROR && final(parser).problem == Some(
            "did not find expected <document start>",
        )) ==> {
            &&& has_head(*final(parser))
            &&& head_token(*final(parser)).type_ != yaml_token_type_t::YAML_DOCUMENT_START_TOKEN
            &&& !is_directive(head_token(*final(parser)))
            &&& final(parser).problem_mark == head_token(*final(parser)).start_mark
        },
{
    if !peek_token(parser) {
        return false;
    }
    if !implicit {
        while parser.scanner.tokens[0].type_ == yaml_token_type_t::YAML_DOCUMENT_END_TOKEN
            invariant
                parse_frame(*old(parser), *parser),
                parser.error == yaml_error_type_t::YAML_NO_ERROR,
                has_head(*parser),
                parser.states == old(parser).states,
                parser.state == old(parser).state,
                parser.marks == old(parser).marks,
                parser.tag_directives == old(parser).tag_directives,
                forall|i: int| 0 <= i < consumed(*old(parser), *parser).len() ==> !is_directive(
                    #[trigger] consumed(*old(parser), *parser)[i],
                ),
            decreases crate::scanner::token_capacity() - parser.scanner.tokens_parsed,
        {
            let ghost before = *parser;
            let t = skip_token(parser);
            proof {
                assert(consumed(*old(parser), *parser) =~= consumed(*old(parser), before).push(t));
            }
            if !peek_token(parser) {
                return false;
            }
        }
    }
    let ghost m0 = *parser;
    let tt = parser.scanner.tokens[0].type_;
    if implicit && tt != yaml_token_type_t::YAML_VERSION_DIRECTIVE_TOKEN && tt
        != yaml_token_type_t::YAML_TAG_DIRECTIVE_TOKEN && tt
        != yaml_token_type_t::YAML_DOCUMENT_START_TOKEN && tt
        != yaml_token_type_t::YAML_STREAM_END_TOKEN {
        if yaml_parser_process_directives(parser).is_none() {
            return false;
        }
        proof {
            assert(consumed(m0, *parser).len() == 0) by {
                if consumed(m0, *parser).len() > 0 {
                    assert(is_directive(consumed(m0, *parser)[0]));
                }
            }
            assert(consumed(*old(parser), *parser) =~= Seq::<yaml_token_t>::empty());
            assert(tag_tokens(Seq::<yaml_token_t>::empty()) =~= Seq::<(Seq<u8>, Seq<u8>)>::empty());
            assert(directives_view(*old(parser)) + tag_tokens(consumed(m0, *parser)) =~= directives_view(*old(parser)));
        }
        parser.states.items.push(yaml_parser_state_t::YAML_PARSE_DOCUMENT_END_STATE);
        parser.state = yaml_parser_state_t::YAML_PARSE_BLOCK_NODE_STATE;
        let s = parser.scanner.tokens[0].start_mark;
        *event = yaml_event_t {
            type_: yaml_event_type_t::YAML_DOCUMENT_START_EVENT,
            data: yaml_event_data_t::DocumentStart(
                crate::types::yaml_event_document_start_t {
                    version_directive: None,
                    tag_directives: crate::types::yaml_event_document_start_tag_directives_t {
                        items: Vec::new(),
                    },
                    implicit: 1,
                },
            ),
            start_mark: s,
            end_mark: s,
        };
        proof {
            assert(tag_list_view(Seq::<crate::types::yaml_tag_directive_t>::empty()) =~= Seq::<(Seq<u8>, Seq<u8>)>::empty());
        }
        return true;
    }
    if tt != yaml_token_type_t::YAML_STREAM_END_TOKEN {
        let start_mark = parser.scanner.tokens[0].start_mark;
        let (version, tags) = match yaml_parser_process_directives(parser) {
            None => return false,
            Some(v) => v,
        };
        let ghost m1 = *parser;
        if parser.scanner.tokens[0].type_ != yaml_token_type_t::YAML_DOCUMENT_START_TOKEN {
            let s = parser.scanner.tokens[0].start_mark;
            return yaml_parser_set_parser_error(parser, "did not find expected <document start>", s);
        }
        parser.states.items.push(yaml_parser_state_t::YAML_PARSE_DOCUMENT_END_STATE);
        parser.state = yaml_parser_state_t::YAML_PARSE_DOCUMENT_CONTENT_STATE;
        let t = skip_token(parser);
        *event = yaml_event_t {
            type_: yaml_event_type_t::YAML_DOCUMENT_START_EVENT,
            data: yaml_event_data_t::DocumentStart(
                crate::types::yaml_event_document_start_t {
                    version_directive: version,
                    tag_directives: crate::types::yaml_event_document_start_tag_directives_t {
                        items: tags,
                    },
                    implicit: 0,
                },
            ),
            start_mark,
            end_mark: t.end_mark,
        };
        proof {
            assert(consumed(*old(parser), *parser).last() == t);
            let pre = consumed(*old(parser), m0);
            let mid = consumed(m0, m1);
            assert(consumed(*old(parser), *parser) =~= (pre + mid).push(t));
            assert(((pre + mid).push(t)).drop_last() =~= pre + mid);
            lemma_directives_after(pre, mid);
            assert(tag_list_view(tags@) == tag_tokens(mid));
        }
        return true;
    }
    parser.state = yaml_parser_state_t::YAML_PARSE_END_STATE;
    let t = skip_token(parser);
    *event = simple_event_new(yaml_event_type_t::YAML_STREAM_END_EVENT, t.start_mark, t.end_mark);
    proof {
        assert(consumed(*old(parser), *parser).last() == t);
    }
    true
}

/// Parses the content of an explicit document: a node, or an empty scalar
/// when the document has none (a directive, '---', '...' or the end of the
/// stream follows).
pub fn yaml_parser_parse_document_content(parser: &mut yaml_parser_t, event: &mut yaml_event_t) -> (r:
    bool)
    requires
        old(parser).wf(),
        old(parser).error == yaml_error_type_t::YAML_NO_ERROR,
    ensures
        parse_frame(*old(parser), *final(parser)),
        parse_outcome(*old(parser), *final(parser), r),
        final(parser).marks == old(parser).marks,
        final(parser).tag_directives == old(parser).tag_directives,
        r ==> ({
            ||| is_empty_scalar_event(*final(event), final(event).start_mark) && final(parser).state
                == top_state(*old(parser)) && consumed(*old(parser), *final(parser)).len() == 0
            ||| node_step(*old(parser), *final(parser), *final(event), true, false)
        }),
        (!r && final(parser).error == yaml_error_type_t::YAML_PARSER_ERROR) ==> node_problem(
            final(parser).problem,
        ),
{
    if !peek_token(parser) {
        return false;
    }
    let tt = parser.scanner.tokens[0].type_;
    if tt == yaml_token_type_t::YAML_VERSION_DIRECTIVE_TOKEN || tt
        == yaml_token_type_t::YAML_TAG_DIRECTIVE_TOKEN || tt
        == yaml_token_type_t::YAML_DOCUMENT_START_TOKEN || tt
        == yaml_token_type_t::YAML_DOCUMENT_END_TOKEN || tt
        == yaml_token_type_t::YAML_STREAM_END_TOKEN {
        pop_state(parser);
        let s = parser.scanner.tokens[0].start_mark;
        yaml_parser_process_empty_scalar(event, s);
        proof {
            assert(consumed(*old(parser), *parser) =~= Seq::<yaml_token_t>::empty());
        }
        return true;
    }
    yaml_parser_parse_node(parser, event, true, false)
}

/// Parses the end of a document: '...' makes it explicit; either way the
/// document's tag directives are dropped.
pub fn yaml_parser_parse_document_end(parser: &mut yaml_parser_t, event: &mut yaml_event_t) -> (r:
    bool)
    requires
        old(parser).wf(),
        old(parser).error == yaml_error_type_t::YAML_NO_ERROR,
    ensures
        parse_frame(*old(parser), *final(parser)),
        parse_outcome(*old(parser), *final(parser), r),
        final(parser).marks == old(parser).marks,
        final(parser).states == old(parser).states,
        !r ==> final(parser).error != yaml_error_type_t::YAML_PARSER_ERROR,
        r ==> {
            let cs = consumed(*old(parser), *final(parser));
            &&& cs.len() <= 1
            &&& cs.len() == 1 ==> cs[0].type_ == yaml_token_type_t::YAML_DOCUMENT_END_TOKEN
            &&& cs.len() == 0 ==> head_token(*final(parser)).type_
                != yaml_token_type_t::YAML_DOCUMENT_END_TOKEN
            &&& final(event).type_ == yaml_event_type_t::YAML_DOCUMENT_END_EVENT
            &&& final(event).data == yaml_event_data_t::DocumentEnd(
                crate::types::yaml_event_document_end_t { implicit: if cs.len() == 0 { 1i32 } else { 0i32 } },
            )
            &&& final(parser).tag_directives.items@.len() == 0
            &&& final(parser).state == yaml_parser_state_t::YAML_PARSE_DOCUMENT_START_STATE
        },
{
    if !peek_token(parser) {
        return false;
    }
    let start_mark = parser.scanner.tokens[0].start_mark;
    let mut end_mark = start_mark;
    let mut implicit: i32 = 1;
    if parser.scanner.tokens[0].type_ == yaml_token_type_t::YAML_DOCUMENT_END_TOKEN {
        end_mark = parser.scanner.tokens[0].end_mark;
        let t = skip_token(parser);
        implicit = 0;
        proof {
            assert(consumed(*old(parser), *parser) =~= seq![t]);
        }
    } else {
        proof {
            assert(consumed(*old(parser), *parser) =~= Seq::<yaml_token_t>::empty());
        }
    }
    parser.tag_directives.items.clear();
    parser.state = yaml_parser_state_t::YAML_PARSE_DOCUMENT_START_STATE;
    *event = yaml_event_t {
        type_: yaml_event_type_t::YAML_DOCUMENT_END_EVENT,
        data: yaml_event_data_t::DocumentEnd(crate::types::yaml_event_document_end_t { implicit }),
        start_mark,
        end_mark,
    };
    true
}

/// A successful step from `a` to `b` that gives the event `ev`, as the
/// state of `a` calls for: what each state's step states of its event, of
/// the tokens it took and of the next state.
pub open spec fn state_step(a: yaml_parser_t, b: yaml_parser_t, ev: yaml_event_t) -> bool {
    let cs = consumed(a, b);
    match a.state {
        yaml_parser_state_t::YAML_PARSE_STREAM_START_STATE => {
            &&& cs.len() == 1
            &&& cs[0].type_ == yaml_token_type_t::YAML_STREAM_START_TOKEN
            &&& ev.type_ == yaml_event_type_t::YAML_STREAM_START_EVENT
            &&& ev.start_mark == cs[0].start_mark
            &&& ev.end_mark == cs[0].start_mark
            &&& b.state == yaml_parser_state_t::YAML_PARSE_IMPLICIT_DOCUMENT_START_STATE
        },
        yaml_parser_state_t::YAML_PARSE_IMPLICIT_DOCUMENT_START_STATE => document_start_step(a, b, ev, true),
        yaml_parser_state_t::YAML_PARSE_DOCUMENT_START_STATE => document_start_step(a, b, ev, false),
        yaml_parser_state_t::YAML_PARSE_DOCUMENT_CONTENT_STATE => {
            ||| is_empty_scalar_event(ev, ev.start_mark) && b.state == top_state(a) && cs.len() == 0
            ||| node_step(a, b, ev, true, false)
        },
        yaml_parser_state_t::YAML_PARSE_DOCUMENT_END_STATE => {
            &&& cs.len() <= 1
            &&& cs.len() == 1 ==> cs[0].type_ == yaml_token_type_t::YAML_DOCUMENT_END_TOKEN
            &&& ev.type_ == yaml_event_type_t::YAML_DOCUMENT_END_EVENT
            &&& ev.data == yaml_event_data_t::DocumentEnd(
                crate::types::yaml_event_document_end_t { implicit: if cs.len() == 0 { 1i32 } else { 0i32 } },
            )
            &&& b.tag_directives.items@.len() == 0
            &&& b.state == yaml_parser_state_t::YAML_PARSE_DOCUMENT_START_STATE
        },
        yaml_parser_state_t::YAML_PARSE_BLOCK_NODE_STATE => node_step(a, b, ev, true, false),
        yaml_parser_state_t::YAML_PARSE_BLOCK_NODE_OR_INDENTLESS_SEQUENCE_STATE => node_step(a, b, ev, true, true),
        yaml_parser_state_t::YAML_PARSE_FLOW_NODE_STATE => node_step(a, b, ev, false, false),
        yaml_parser_state_t::YAML_PARSE_BLOCK_SEQUENCE_FIRST_ENTRY_STATE
        | yaml_parser_state_t::YAML_PARSE_BLOCK_SEQUENCE_ENTRY_STATE => {
            ||| ev.type_ == yaml_event_type_t::YAML_SEQUENCE_END_EVENT && b.state == top_state(a)
                && cs.last().type_ == yaml_token_type_t::YAML_BLOCK_END_TOKEN
            ||| ev.type_ == yaml_event_type_t::YAML_SCALAR_EVENT && b.state
                == yaml_parser_state_t::YAML_PARSE_BLOCK_SEQUENCE_ENTRY_STATE
                && cs.last().type_ == yaml_token_type_t::YAML_BLOCK_ENTRY_TOKEN
            ||| is_node_event(ev.type_)
        },
        yaml_parser_state_t::YAML_PARSE_INDENTLESS_SEQUENCE_ENTRY_STATE => {
            ||| ev.type_ == yaml_event_type_t::YAML_SEQUENCE_END_EVENT && b.state == top_state(a)
                && cs.len() == 0 && ev.start_mark == ev.end_mark
            ||| ev.type_ == yaml_event_type_t::YAML_SCALAR_EVENT && b.state
                == yaml_parser_state_t::YAML_PARSE_INDENTLESS_SEQUENCE_ENTRY_STATE
                && cs.last().type_ == yaml_token_type_t::YAML_BLOCK_ENTRY_TOKEN
            ||| is_node_event(ev.type_)
        },
        yaml_parser_state_t::YAML_PARSE_BLOCK_MAPPING_FIRST_KEY_STATE
        | yaml_parser_state_t::YAML_PARSE_BLOCK_MAPPING_KEY_STATE => {
            ||| ev.type_ == yaml_event_type_t::YAML_MAPPING_END_EVENT && b.state == top_state(a)
                && cs.last().type_ == yaml_token_type_t::YAML_BLOCK_END_TOKEN
            ||| ev.type_ == yaml_event_type_t::YAML_SCALAR_EVENT && b.state
                == yaml_parser_state_t::YAML_PARSE_BLOCK_MAPPING_VALUE_STATE
                && cs.last().type_ == yaml_token_type_t::YAML_KEY_TOKEN
            ||| is_node_event(ev.type_)
        },
        yaml_parser_state_t::YAML_PARSE_BLOCK_MAPPING_VALUE_STATE => {
            ||| ev.type_ == yaml_event_type_t::YAML_SCALAR_EVENT && b.state
                == yaml_parser_state_t::YAML_PARSE_BLOCK_MAPPING_KEY_STATE
            ||| is_node_event(ev.type_)
        },
        yaml_parser_state_t::YAML_PARSE_FLOW_SEQUENCE_FIRST_ENTRY_STATE
        | yaml_parser_state_t::YAML_PARSE_FLOW_SEQUENCE_ENTRY_STATE => {
            ||| ev.type_ == yaml_event_type_t::YAML_SEQUENCE_END_EVENT && b.state == top_state(a)
                && cs.last().type_ == yaml_token_type_t::YAML_FLOW_SEQUENCE_END_TOKEN
            ||| ev.type_ == yaml_event_type_t::YAML_MAPPING_START_EVENT && b.state
                == yaml_parser_state_t::YAML_PARSE_FLOW_SEQUENCE_ENTRY_MAPPING_KEY_STATE
                && cs.last().type_ == yaml_token_type_t::YAML_KEY_TOKEN
            ||| is_node_event(ev.type_)
        },
        yaml_parser_state_t::YAML_PARSE_FLOW_SEQUENCE_ENTRY_MAPPING_KEY_STATE => {
            ||| ev.type_ == yaml_event_type_t::YAML_SCALAR_EVENT && b.state
                == yaml_parser_state_t::YAML_PARSE_FLOW_SEQUENCE_ENTRY_MAPPING_VALUE_STATE
            ||| is_node_event(ev.type_)
        },
        yaml_parser_state_t::YAML_PARSE_FLOW_SEQUENCE_ENTRY_MAPPING_VALUE_STATE => {
            ||| ev.type_ == yaml_event_type_t::YAML_SCALAR_EVENT && b.state
                == yaml_parser_state_t::YAML_PARSE_FLOW_SEQUENCE_ENTRY_MAPPING_END_STATE
            ||| is_node_event(ev.type_)
        },
        yaml_parser_state_t::YAML_PARSE_FLOW_SEQUENCE_ENTRY_MAPPING_END_STATE => {
            &&& cs.len() == 0
            &&& ev.type_ == yaml_event_type_t::YAML_MAPPING_END_EVENT
            &&& b.state == yaml_parser_state_t::YAML_PARSE_FLOW_SEQUENCE_ENTRY_STATE
            &&& ev.start_mark == ev.end_mark
        },
        yaml_parser_state_t::YAML_PARSE_FLOW_MAPPING_FIRST_KEY_STATE
        | yaml_parser_state_t::YAML_PARSE_FLOW_MAPPING_KEY_STATE => {
            ||| ev.type_ == yaml_event_type_t::YAML_MAPPING_END_EVENT && b.state == top_state(a)
                && cs.last().type_ == yaml_token_type_t::YAML_FLOW_MAPPING_END_TOKEN
            ||| ev.type_ == yaml_event_type_t::YAML_SCALAR_EVENT && b.state
                == yaml_parser_state_t::YAML_PARSE_FLOW_MAPPING_VALUE_STATE
            ||| is_node_event(ev.type_)
        },
        yaml_parser_state_t::YAML_PARSE_FLOW_MAPPING_VALUE_STATE => {
            ||| ev.type_ == yaml_event_type_t::YAML_SCALAR_EVENT && b.state
                == yaml_parser_state_t::YAML_PARSE_FLOW_MAPPING_KEY_STATE
            ||| is_node_event(ev.type_)
        },
        yaml_parser_state_t::YAML_PARSE_FLOW_MAPPING_EMPTY_VALUE_STATE => {
            &&& is_empty_scalar_event(ev, ev.start_mark)
            &&& b.state == yaml_parser_state_t::YAML_PARSE_FLOW_MAPPING_KEY_STATE
            &&& cs.len() == 0
        },
        yaml_parser_state_t::YAML_PARSE_END_STATE => b == a,
    }
}

/// A successful document-start step (`implicit`: no document has started
/// yet, so one may start without a "---").
pub open spec fn document_start_step(a: yaml_parser_t, b: yaml_parser_t, ev: yaml_event_t, implicit: bool) -> bool {
    let cs = consumed(a, b);
    let pushed = b.states.items@ == a.states.items@.push(
        yaml_parser_state_t::YAML_PARSE_DOCUMENT_END_STATE,
    );
    ||| {
        &&& implicit
        &&& cs.len() == 0
        &&& document_start_is(ev, None, Seq::empty(), 1, ev.start_mark, ev.start_mark)
        &&& b.state == yaml_parser_state_t::YAML_PARSE_BLOCK_NODE_STATE
        &&& pushed
        &&& directives_view(b) == with_defaults(directives_view(a))
    }
    ||| {
        &&& cs.len() > 0
        &&& cs.last().type_ == yaml_token_type_t::YAML_DOCUMENT_START_TOKEN
        &&& b.state == yaml_parser_state_t::YAML_PARSE_DOCUMENT_CONTENT_STATE
        &&& pushed
        &&& ev.type_ == yaml_event_type_t::YAML_DOCUMENT_START_EVENT
        &&& ev.end_mark == cs.last().end_mark
        &&& ev.data matches yaml_event_data_t::DocumentStart(d) && d.implicit == 0
        &&& document_start_is(ev, version_of(cs), tag_tokens(cs), 0, ev.start_mark, cs.last().end_mark)
    }
    ||| {
        &&& cs.len() > 0
        &&& cs.last().type_ == yaml_token_type_t::YAML_STREAM_END_TOKEN
        &&& b.state == yaml_parser_state_t::YAML_PARSE_END_STATE
        &&& ev == simple_event(yaml_event_type_t::YAML_STREAM_END_EVENT, cs.last().start_mark, cs.last().end_mark)
    }
}

/// Runs the step of the state the parser is in.
fn yaml_parser_state_machine(parser: &mut yaml_parser_t, event: &mut yaml_event_t) -> (r: bool)
    requires
        old(parser).wf(),
        old(parser).error == yaml_error_type_t::YAML_NO_ERROR,
    ensures
        parse_frame(*old(parser), *final(parser)),
        parse_outcome(*old(parser), *final(parser), r),
        r ==> state_step(*old(parser), *final(parser), *final(event)),
        old(parser).state == yaml_parser_state_t::YAML_PARSE_END_STATE ==> r && *final(event)
            == *old(event),
{
    match parser.state {
        yaml_parser_state_t::YAML_PARSE_STREAM_START_STATE => yaml_parser_parse_stream_start(
            parser,
            event,
        ),
        yaml_parser_state_t::YAML_PARSE_IMPLICIT_DOCUMENT_START_STATE => {
            yaml_parser_parse_document_start(parser, event, true)
        },
        yaml_parser_state_t::YAML_PARSE_DOCUMENT_START_STATE => yaml_parser_parse_document_start(
            parser,
            event,
            false,
        ),
        yaml_parser_state_t::YAML_PARSE_DOCUMENT_CONTENT_STATE => {
            yaml_parser_parse_document_content(parser, event)
        },
        yaml_parser_state_t::YAML_PARSE_DOCUMENT_END_STATE => yaml_parser_parse_document_end(
            parser,
            event,
        ),
        yaml_parser_state_t::YAML_PARSE_BLOCK_NODE_STATE => yaml_parser_parse_node(
            parser,
            event,
            true,
            false,
        ),
        yaml_parser_state_t::YAML_PARSE_BLOCK_NODE_OR_INDENTLESS_SEQUENCE_STATE => {
            yaml_parser_parse_node(parser, event, true, true)
        },
        yaml_parser_state_t::YAML_PARSE_FLOW_NODE_STATE => yaml_parser_parse_node(
            parser,
            event,
            false,
            false,
        ),
        yaml_parser_state_t::YAML_PARSE_BLOCK_SEQUENCE_FIRST_ENTRY_STATE => {
            yaml_parser_parse_block_sequence_entry(parser, event, true)
        },
        yaml_parser_state_t::YAML_PARSE_BLOCK_SEQUENCE_ENTRY_STATE => {
            yaml_parser_parse_block_sequence_entry(parser, event, false)
        },
        yaml_parser_state_t::YAML_PARSE_INDENTLESS_SEQUENCE_ENTRY_STATE => {
            yaml_parser_parse_indentless_sequence_entry(parser, event)
        },
        yaml_parser_state_t::YAML_PARSE_BLOCK_MAPPING_FIRST_KEY_STATE => {
            yaml_parser_parse_block_mapping_key(parser, event, true)
        },
        yaml_parser_state_t::YAML_PARSE_BLOCK_MAPPING_KEY_STATE => {
            yaml_parser_parse_block_mapping_key(parser, event, false)
        },
        yaml_parser_state_t::YAML_PARSE_BLOCK_MAPPING_VALUE_STATE => {
            yaml_parser_parse_block_mapping_value(parser, event)
        },
        yaml_parser_state_t::YAML_PARSE_FLOW_SEQUENCE_FIRST_ENTRY_STATE => {
            yaml_parser_parse_flow_sequence_entry(parser, event, true)
        },
        yaml_parser_state_t::YAML_PARSE_FLOW_SEQUENCE_ENTRY_STATE => {
            yaml_parser_parse_flow_sequence_entry(parser, event, false)
        },
        yaml_parser_state_t::YAML_PARSE_FLOW_SEQUENCE_ENTRY_MAPPING_KEY_STATE => {
            yaml_parser_parse_flow_sequence_entry_mapping_key(parser, event)
        },
        yaml_parser_state_t::YAML_PARSE_FLOW_SEQUENCE_ENTRY_MAPPING_VALUE_STATE => {
            yaml_parser_parse_flow_sequence_entry_mapping_value(parser, event)
        },
        yaml_parser_state_t::YAML_PARSE_FLOW_SEQUENCE_ENTRY_MAPPING_END_STATE => {
            yaml_parser_parse_flow_sequence_entry_mapping_end(parser, event)
        },
        yaml_parser_state_t::YAML_PARSE_FLOW_MAPPING_FIRST_KEY_STATE => {
            yaml_parser_parse_flow_mapping_key(parser, event, true)
        },
        yaml_parser_state_t::YAML_PARSE_FLOW_MAPPING_KEY_STATE => {
            yaml_parser_parse_flow_mapping_key(parser, event, false)
        },
        yaml_parser_state_t::YAML_PARSE_FLOW_MAPPING_VALUE_STATE => {
            yaml_parser_parse_flow_mapping_value(parser, event, false)
        },
        yaml_parser_state_t::YAML_PARSE_FLOW_MAPPING_EMPTY_VALUE_STATE => {
            yaml_parser_parse_flow_mapping_value(parser, event, true)
        },
        yaml_parser_state_t::YAML_PARSE_END_STATE => true,
    }
}

/// Parses the next event into `event`. After the end of the stream, an
/// error, or the last event, every call gives the empty event and
/// succeeds without changing the parser; a failure also leaves the empty
/// event.
pub fn yaml_parser_parse(parser: &mut yaml_parser_t, event: &mut yaml_event_t) -> (r: bool)
    requires
        old(parser).wf(),
    ensures
        final(parser).wf(),
        (old(parser).scanner.stream_end_produced || old(parser).error
            != yaml_error_type_t::YAML_NO_ERROR || old(parser).state
            == yaml_parser_state_t::YAML_PARSE_END_STATE) ==> {
            &&& r
            &&& *final(event) == crate::types::spec_no_event()
            &&& *final(parser) == *old(parser)
        },
        !(old(parser).scanner.stream_end_produced || old(parser).error
            != yaml_error_type_t::YAML_NO_ERROR || old(parser).state
            == yaml_parser_state_t::YAML_PARSE_END_STATE) ==> {
            &&& parse_frame(*old(parser), *final(parser))
            &&& parse_outcome(*old(parser), *final(parser), r)
            &&& !r ==> *final(event) == crate::types::spec_no_event()
            &&& r ==> state_step(*old(parser), *final(parser), *final(event))
        },
{
    *event = crate::types::yaml_event_empty();
    if parser.scanner.stream_end_produced || parser.error != yaml_error_type_t::YAML_NO_ERROR
        || parser.state == yaml_parser_state_t::YAML_PARSE_END_STATE {
        return true;
    }
    let mut ev = crate::types::yaml_event_empty();
    let r = yaml_parser_state_machine(parser, &mut ev);
    if r {
        *event = ev;
    }
    r
}

/// Sets the deepest nesting of collections the parser accepts.
pub fn yaml_set_max_nest_level(parser: &mut yaml_parser_t, max: i32)
    ensures
        *final(parser) == (yaml_parser_t { max_nest_level: max, ..*old(parser) }),
{
    parser.max_nest_level = max;
}

} // verus!
