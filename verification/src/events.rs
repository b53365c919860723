use vstd::prelude::*;
use crate::chars::{valid_utf8, yaml_check_utf8};
use crate::parser::{opt_view, simple_event};
use crate::types::{
    yaml_encoding_t, yaml_event_t, yaml_event_type_t, yaml_event_data_t, yaml_mark_zero,
    zero_mark, yaml_version_directive_t, yaml_tag_directive_t, yaml_scalar_style_t,
    yaml_sequence_style_t, yaml_mapping_style_t, yaml_event_stream_start_t,
    yaml_event_document_start_t, yaml_event_document_start_tag_directives_t,
    yaml_event_document_end_t, yaml_event_alias_t, yaml_event_scalar_t,
    yaml_event_sequence_start_t, yaml_event_mapping_start_t,
};

verus! {

// ---------------------------------------------------------------------------
// Strings ended by a NUL octet
// ---------------------------------------------------------------------------

/// The position of the first NUL octet of `s` at or after `i`, or the
/// length of `s` when there is none.
pub open spec fn c_len_from(s: Seq<u8>, i: int) -> int
    decreases s.len() - i,
{
    if i < 0 || i >= s.len() || s[i] == 0 {
        if i < 0 { 0 } else if i >= s.len() { s.len() as int } else { i }
    } else {
        c_len_from(s, i + 1)
    }
}

/// The string that `s` holds: its octets up to the first NUL.
pub open spec fn c_str(s: Seq<u8>) -> Seq<u8> {
    s.take(c_len_from(s, 0))
}

/// The string an optional argument holds.
pub open spec fn opt_c_str(o: Option<&[u8]>) -> Option<Seq<u8>> {
    match o {
        Some(s) => Some(c_str(s@)),
        None => None,
    }
}

/// An absent string, or one that is valid UTF-8.
pub open spec fn opt_valid(o: Option<Seq<u8>>) -> bool {
    match o {
        Some(s) => valid_utf8(s),
        None => true,
    }
}

proof fn lemma_c_len_bounds(s: Seq<u8>, i: int)
    requires
        0 <= i <= s.len(),
    ensures
        i <= c_len_from(s, i) <= s.len(),
        forall|j: int| i <= j < c_len_from(s, i) ==> s[j] != 0,
        c_len_from(s, i) < s.len() ==> s[c_len_from(s, i)] == 0,
    decreases s.len() - i,
{
    if i < s.len() && s[i] != 0 {
        lemma_c_len_bounds(s, i + 1);
    }
}

/// The length of the string that `s` holds (up to its first NUL).
pub fn c_strlen(s: &[u8]) -> (n: usize)
    ensures
        n == c_len_from(s@, 0),
        n <= s@.len(),
        forall|j: int| 0 <= j < n ==> s@[j] != 0,
{
    proof { lemma_c_len_bounds(s@, 0); }
    let mut i: usize = 0;
    while i < s.len() && s[i] != 0
        invariant
            i <= s@.len(),
            c_len_from(s@, i as int) == c_len_from(s@, 0),
            forall|j: int| 0 <= j < i ==> s@[j] != 0,
        decreases s@.len() - i,
    {
        i = i + 1;
    }
    i
}

/// The first `n` octets of `s`.
pub fn copy_prefix(s: &[u8], n: usize) -> (v: Vec<u8>)
    requires
        n <= s@.len(),
    ensures
        v@ == s@.take(n as int),
{
    let mut v: Vec<u8> = Vec::new();
    let mut i: usize = 0;
    while i < n
        invariant
            i <= n <= s@.len(),
            v@ == s@.take(i as int),
        decreases n - i,
    {
        v.push(s[i]);
        i = i + 1;
        assert(v@ =~= s@.take(i as int));
    }
    v
}

/// A copy of the string that `s` holds.
pub fn yaml_strdup(s: &[u8]) -> (v: Vec<u8>)
    ensures
        v@ == c_str(s@),
{
    let n = c_strlen(s);
    copy_prefix(s, n)
}

/// A copy of an optional string, or `Err` when it is not valid UTF-8.
fn copy_checked(o: Option<&[u8]>) -> (r: Result<Option<Vec<u8>>, ()>)
    ensures
        r is Ok <==> opt_valid(opt_c_str(o)),
        r matches Ok(c) ==> opt_view(c) == opt_c_str(o),
{
    match o {
        Some(s) => {
            let c = yaml_strdup(s);
            if yaml_check_utf8(c.as_slice()) {
                Ok(Some(c))
            } else {
                Err(())
            }
        },
        None => Ok(None),
    }
}

// ---------------------------------------------------------------------------
// Events made by a caller (for an emitter)
// ---------------------------------------------------------------------------

/// Makes a stream-start event.
pub fn yaml_stream_start_event_initialize(event: &mut yaml_event_t, encoding: yaml_encoding_t) -> (r: bool)
    ensures
        r,
        final(event).type_ == yaml_event_type_t::YAML_STREAM_START_EVENT,
        final(event).data == yaml_event_data_t::StreamStart(yaml_event_stream_start_t { encoding }),
        final(event).start_mark == zero_mark(),
        final(event).end_mark == zero_mark(),
{
    *event = yaml_event_t {
        type_: yaml_event_type_t::YAML_STREAM_START_EVENT,
        data: yaml_event_data_t::StreamStart(yaml_event_stream_start_t { encoding }),
        start_mark: yaml_mark_zero(),
        end_mark: yaml_mark_zero(),
    };
    true
}

/// Makes a stream-end event.
pub fn yaml_stream_end_event_initialize(event: &mut yaml_event_t) -> (r: bool)
    ensures
        r,
        *final(event) == simple_event(yaml_event_type_t::YAML_STREAM_END_EVENT, zero_mark(), zero_mark()),
{
    *event = yaml_event_t {
        type_: yaml_event_type_t::YAML_STREAM_END_EVENT,
        data: yaml_event_data_t::NoData,
        start_mark: yaml_mark_zero(),
        end_mark: yaml_mark_zero(),
    };
    true
}

/// The tag directives a caller hands over, as the strings they hold.
pub open spec fn given_directives(ts: Seq<yaml_tag_directive_t>) -> Seq<(Seq<u8>, Seq<u8>)> {
    ts.map_values(|t: yaml_tag_directive_t| (c_str(t.handle@), c_str(t.prefix@)))
}

/// Every handle and prefix is valid UTF-8.
pub open spec fn directives_valid(ds: Seq<(Seq<u8>, Seq<u8>)>) -> bool {
    forall|i: int| 0 <= i < ds.len() ==> valid_utf8(#[trigger] ds[i].0) && valid_utf8(ds[i].1)
}

/// Copies the tag directives; `None` when a handle or a prefix is not
/// valid UTF-8.
pub fn copy_tag_directives(ts: &[yaml_tag_directive_t]) -> (r: Option<Vec<yaml_tag_directive_t>>)
    ensures
        r is Some <==> directives_valid(given_directives(ts@)),
        r matches Some(v) ==> crate::types::tag_directives_view(v@) == given_directives(ts@),
{
    let mut out: Vec<yaml_tag_directive_t> = Vec::new();
    let mut i: usize = 0;
    while i < ts.len()
        invariant
            i <= ts@.len(),
            crate::types::tag_directives_view(out@) == given_directives(ts@).take(i as int),
            directives_valid(given_directives(ts@).take(i as int)),
        decreases ts@.len() - i,
    {
        let handle = yaml_strdup(ts[i].handle.as_slice());
        let prefix = yaml_strdup(ts[i].prefix.as_slice());
        let ghost gd = given_directives(ts@);
        assert(gd[i as int] == (handle@, prefix@));
        if !yaml_check_utf8(handle.as_slice()) || !yaml_check_utf8(prefix.as_slice()) {
            assert(!directives_valid(gd)) by {
                if directives_valid(gd) {
                    assert(valid_utf8(gd[i as int].0) && valid_utf8(gd[i as int].1));
                }
            }
            return None;
        }
        let ghost before = out@;
        out.push(yaml_tag_directive_t { handle, prefix });
        i = i + 1;
        assert(crate::types::tag_directives_view(out@) =~= crate::types::tag_directives_view(
            before,
        ).push(gd[i - 1]));
        assert(crate::types::tag_directives_view(out@) =~= given_directives(ts@).take(i as int));
        assert forall|j: int| 0 <= j < i implies valid_utf8(
            #[trigger] gd.take(i as int)[j].0,
        ) && valid_utf8(gd.take(i as int)[j].1) by {
            if j < i - 1 {
                assert(gd.take(i as int)[j] == gd.take(i - 1)[j]);
                assert(valid_utf8(gd.take(i - 1)[j].0) && valid_utf8(gd.take(i - 1)[j].1));
            } else {
                assert(gd.take(i as int)[j] == gd[i - 1]);
            }
        }
        assert(given_directives(ts@).take(i as int) =~= given_directives(ts@).take(i - 1).push(
            given_directives(ts@)[i - 1],
        ));
    }
    assert(given_directives(ts@).take(i as int) =~= given_directives(ts@));
    Some(out)
}

/// Makes a document-start event; fails, leaving the event as it was, when
/// a tag directive is not valid UTF-8.
pub fn yaml_document_start_event_initialize(
    event: &mut yaml_event_t,
    version_directive: Option<yaml_version_directive_t>,
    tag_directives: &[yaml_tag_directive_t],
    implicit: i32,
) -> (r: bool)
    ensures
        r == directives_valid(given_directives(tag_directives@)),
        !r ==> *final(event) == *old(event),
        r ==> {
            &&& final(event).type_ == yaml_event_type_t::YAML_DOCUMENT_START_EVENT
            &&& final(event).start_mark == zero_mark()
            &&& final(event).end_mark == zero_mark()
            &&& final(event).data matches yaml_event_data_t::DocumentStart(d) && {
                &&& d.version_directive == version_directive
                &&& crate::types::tag_directives_view(d.tag_directives.items@) == given_directives(
                    tag_directives@,
                )
                &&& d.implicit == implicit
            }
        },
{
    match copy_tag_directives(tag_directives) {
        Some(items) => {
            *event = yaml_event_t {
                type_: yaml_event_type_t::YAML_DOCUMENT_START_EVENT,
                data: yaml_event_data_t::DocumentStart(yaml_event_document_start_t {
                    version_directive,
                    tag_directives: yaml_event_document_start_tag_directives_t { items },
                    implicit,
                }),
                start_mark: yaml_mark_zero(),
                end_mark: yaml_mark_zero(),
            };
            true
        },
        None => false,
    }
}

/// Makes a document-end event.
pub fn yaml_document_end_event_initialize(event: &mut yaml_event_t, implicit: i32) -> (r: bool)
    ensures
        r,
        final(event).type_ == yaml_event_type_t::YAML_DOCUMENT_END_EVENT,
        final(event).data == yaml_event_data_t::DocumentEnd(yaml_event_document_end_t { implicit }),
        final(event).start_mark == zero_mark(),
        final(event).end_mark == zero_mark(),
{
    *event = yaml_event_t {
        type_: yaml_event_type_t::YAML_DOCUMENT_END_EVENT,
        data: yaml_event_data_t::DocumentEnd(yaml_event_document_end_t { implicit }),
        start_mark: yaml_mark_zero(),
        end_mark: yaml_mark_zero(),
    };
    true
}

/// Makes an alias event; fails, leaving the event as it was, when the
/// anchor is not valid UTF-8.
pub fn yaml_alias_event_initialize(event: &mut yaml_event_t, anchor: &[u8]) -> (r: bool)
    ensures
        r == valid_utf8(c_str(anchor@)),
        !r ==> *final(event) == *old(event),
        r ==> {
            &&& final(event).type_ == yaml_event_type_t::YAML_ALIAS_EVENT
            &&& final(event).start_mark == zero_mark()
            &&& final(event).end_mark == zero_mark()
            &&& final(event).data matches yaml_event_data_t::Alias(d) && d.anchor@ == c_str(anchor@)
        },
{
    let copy = yaml_strdup(anchor);
    if !yaml_check_utf8(copy.as_slice()) {
        return false;
    }
    *event = yaml_event_t {
        type_: yaml_event_type_t::YAML_ALIAS_EVENT,
        data: yaml_event_data_t::Alias(yaml_event_alias_t { anchor: copy }),
        start_mark: yaml_mark_zero(),
        end_mark: yaml_mark_zero(),
    };
    true
}

/// The octets of a scalar's value: `length` of them, or, when `length` is
/// negative, those up to the first NUL.
pub open spec fn scalar_value(value: Seq<u8>, length: i32) -> Seq<u8> {
    if length < 0 {
        c_str(value)
    } else {
        value.take(length as int)
    }
}

/// Makes a scalar event; fails, leaving the event as it was, when the
/// anchor, the tag or the value is not valid UTF-8.
pub fn yaml_scalar_event_initialize(
    event: &mut yaml_event_t,
    anchor: Option<&[u8]>,
    tag: Option<&[u8]>,
    value: &[u8],
    length: i32,
    plain_implicit: i32,
    quoted_implicit: i32,
    style: yaml_scalar_style_t,
) -> (r: bool)
    requires
        length >= 0 ==> length <= value@.len(),
    ensures
        r == (opt_valid(opt_c_str(anchor)) && opt_valid(opt_c_str(tag)) && valid_utf8(
            scalar_value(value@, length),
        )),
        !r ==> *final(event) == *old(event),
        r ==> crate::parser::scalar_event_is(
            *final(event),
            opt_c_str(anchor),
            opt_c_str(tag),
            scalar_value(value@, length),
            (plain_implicit, quoted_implicit),
            style,
            zero_mark(),
            zero_mark(),
        ),
{
    let anchor_copy = match copy_checked(anchor) {
        Ok(c) => c,
        Err(()) => { return false; },
    };
    let tag_copy = match copy_checked(tag) {
        Ok(c) => c,
        Err(()) => { return false; },
    };
    let len: usize = if length < 0 {
        c_strlen(value)
    } else {
        length as usize
    };
    let value_copy = copy_prefix(value, len);
    if !yaml_check_utf8(value_copy.as_slice()) {
        return false;
    }
    *event = yaml_event_t {
        type_: yaml_event_type_t::YAML_SCALAR_EVENT,
        data: yaml_event_data_t::Scalar(yaml_event_scalar_t {
            anchor: anchor_copy,
            tag: tag_copy,
            value: value_copy,
            plain_implicit,
            quoted_implicit,
            style,
        }),
        start_mark: yaml_mark_zero(),
        end_mark: yaml_mark_zero(),
    };
    true
}

/// Makes a sequence-start event; fails, leaving the event as it was, when
/// the anchor or the tag is not valid UTF-8.
pub fn yaml_sequence_start_event_initialize(
    event: &mut yaml_event_t,
    anchor: Option<&[u8]>,
    tag: Option<&[u8]>,
    implicit: i32,
    style: yaml_sequence_style_t,
) -> (r: bool)
    ensures
        r == (opt_valid(opt_c_str(anchor)) && opt_valid(opt_c_str(tag))),
        !r ==> *final(event) == *old(event),
        r ==> {
            &&& final(event).type_ == yaml_event_type_t::YAML_SEQUENCE_START_EVENT
            &&& final(event).start_mark == zero_mark()
            &&& final(event).end_mark == zero_mark()
            &&& final(event).data matches yaml_event_data_t::SequenceStart(d) && {
                &&& opt_view(d.anchor) == opt_c_str(anchor)
                &&& opt_view(d.tag) == opt_c_str(tag)
                &&& d.implicit == implicit
                &&& d.style == style
            }
        },
{
    let anchor_copy = match copy_checked(anchor) {
        Ok(c) => c,
        Err(()) => { return false; },
    };
    let tag_copy = match copy_checked(tag) {
        Ok(c) => c,
        Err(()) => { return false; },
    };
    *event = yaml_event_t {
        type_: yaml_event_type_t::YAML_SEQUENCE_START_EVENT,
        data: yaml_event_data_t::SequenceStart(yaml_event_sequence_start_t {
            anchor: anchor_copy,
            tag: tag_copy,
            implicit,
            style,
        }),
        start_mark: yaml_mark_zero(),
        end_mark: yaml_mark_zero(),
    };
    true
}

/// Makes a sequence-end event.
pub fn yaml_sequence_end_event_initialize(event: &mut yaml_event_t) -> (r: bool)
    ensures
        r,
        *final(event) == simple_event(yaml_event_type_t::YAML_SEQUENCE_END_EVENT, zero_mark(), zero_mark()),
{
    *event = yaml_event_t {
        type_: yaml_event_type_t::YAML_SEQUENCE_END_EVENT,
        data: yaml_event_data_t::NoData,
        start_mark: yaml_mark_zero(),
        end_mark: yaml_mark_zero(),
    };
    true
}

/// Makes a mapping-start event; fails, leaving the event as it was, when
/// the anchor or the tag is not valid UTF-8.
pub fn yaml_mapping_start_event_initialize(
    event: &mut yaml_event_t,
    anchor: Option<&[u8]>,
    tag: Option<&[u8]>,
    implicit: i32,
    style: yaml_mapping_style_t,
) -> (r: bool)
    ensures
        r == (opt_valid(opt_c_str(anchor)) && opt_valid(opt_c_str(tag))),
        !r ==> *final(event) == *old(event),
        r ==> {
            &&& final(event).type_ == yaml_event_type_t::YAML_MAPPING_START_EVENT
            &&& final(event).start_mark == zero_mark()
            &&& final(event).end_mark == zero_mark()
            &&& final(event).data matches yaml_event_data_t::MappingStart(d) && {
                &&& opt_view(d.anchor) == opt_c_str(anchor)
                &&& opt_view(d.tag) == opt_c_str(tag)
                &&& d.implicit == implicit
                &&& d.style == style
            }
        },
{
    let anchor_copy = match copy_checked(anchor) {
        Ok(c) => c,
        Err(()) => { return false; },
    };
    let tag_copy = match copy_checked(tag) {
        Ok(c) => c,
        Err(()) => { return false; },
    };
    *event = yaml_event_t {
        type_: yaml_event_type_t::YAML_MAPPING_START_EVENT,
        data: yaml_event_data_t::MappingStart(yaml_event_mapping_start_t {
            anchor: anchor_copy,
            tag: tag_copy,
            implicit,
            style,
        }),
        start_mark: yaml_mark_zero(),
        end_mark: yaml_mark_zero(),
    };
    true
}

/// Makes a mapping-end event.
pub fn yaml_mapping_end_event_initialize(event: &mut yaml_event_t) -> (r: bool)
    ensures
        r,
        *final(event) == simple_event(yaml_event_type_t::YAML_MAPPING_END_EVENT, zero_mark(), zero_mark()),
{
    *event = yaml_event_t {
        type_: yaml_event_type_t::YAML_MAPPING_END_EVENT,
        data: yaml_event_data_t::NoData,
        start_mark: yaml_mark_zero(),
        end_mark: yaml_mark_zero(),
    };
    true
}

} // verus!
