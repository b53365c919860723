use vstd::prelude::*;
use vstd::string::StringSliceAdditionalSpecFns;
use crate::chars::{valid_utf8, yaml_check_utf8};
use crate::events::{
    c_str, opt_c_str, scalar_value, given_directives, directives_valid, yaml_strdup, copy_prefix,
    c_strlen, copy_tag_directives,
};
use crate::types::{
    yaml_mark_t, yaml_mark_zero, zero_mark, yaml_node_type_t, yaml_scalar_style_t,
    yaml_sequence_style_t, yaml_mapping_style_t, yaml_version_directive_t, yaml_tag_directive_t,
    yaml_tag_directive_range_t, tag_directives_view,
};

verus! {

/// The tag a scalar node gets when none is given.
pub const YAML_DEFAULT_SCALAR_TAG: &'static str = "tag:yaml.org,2002:str";

/// The tag a sequence node gets when none is given.
pub const YAML_DEFAULT_SEQUENCE_TAG: &'static str = "tag:yaml.org,2002:seq";

/// The tag a mapping node gets when none is given.
pub const YAML_DEFAULT_MAPPING_TAG: &'static str = "tag:yaml.org,2002:map";

/// A key and a value of a mapping node, by their node ids.
#[derive(Clone, Copy, Debug, PartialEq, Eq, Structural)]
pub struct yaml_node_pair_t {
    pub key: i32,
    pub value: i32,
}

#[derive(Clone, Debug)]
pub struct yaml_node_scalar_t {
    pub value: Vec<u8>,
    pub style: yaml_scalar_style_t,
}

/// The items of a sequence node, by their node ids.
#[derive(Clone, Debug)]
pub struct yaml_node_item_stack_t {
    pub items: Vec<i32>,
}

#[derive(Clone, Debug)]
pub struct yaml_node_sequence_t {
    pub items: yaml_node_item_stack_t,
    pub style: yaml_sequence_style_t,
}

/// The pairs of a mapping node.
#[derive(Clone, Debug)]
pub struct yaml_node_pair_stack_t {
    pub items: Vec<yaml_node_pair_t>,
}

#[derive(Clone, Debug)]
pub struct yaml_node_mapping_t {
    pub pairs: yaml_node_pair_stack_t,
    pub style: yaml_mapping_style_t,
}

/// The content of a node, by kind.
#[derive(Clone, Debug)]
pub enum yaml_node_data_t {
    NoData,
    Scalar(yaml_node_scalar_t),
    Sequence(yaml_node_sequence_t),
    Mapping(yaml_node_mapping_t),
}

#[derive(Clone, Debug)]
pub struct yaml_node_t {
    pub type_: yaml_node_type_t,
    pub tag: Vec<u8>,
    pub data: yaml_node_data_t,
    pub start_mark: yaml_mark_t,
    pub end_mark: yaml_mark_t,
}

/// The nodes of a document; node `i` has the id `i + 1`.
#[derive(Clone, Debug)]
pub struct yaml_node_stack_t {
    pub items: Vec<yaml_node_t>,
}

#[derive(Clone, Debug)]
pub struct yaml_document_t {
    pub nodes: yaml_node_stack_t,
    pub version_directive: Option<yaml_version_directive_t>,
    pub tag_directives: yaml_tag_directive_range_t,
    pub start_implicit: i32,
    pub end_implicit: i32,
    pub start_mark: yaml_mark_t,
    pub end_mark: yaml_mark_t,
}

impl yaml_document_t {
    /// The nodes, in the order of their ids.
    pub open spec fn nodes_view(self) -> Seq<yaml_node_t> {
        self.nodes.items@
    }

    /// `id` names a node of the document.
    pub open spec fn has_node(self, id: int) -> bool {
        0 < id <= self.nodes.items@.len()
    }

    /// The node named `id`.
    pub open spec fn node(self, id: int) -> yaml_node_t {
        self.nodes.items@[id - 1]
    }
}

/// The largest number of nodes a document can hold (their ids are `i32`).
pub open spec fn max_nodes() -> int {
    i32::MAX as int
}

/// `n` is a scalar node with this tag, value and style.
pub open spec fn scalar_node_is(n: yaml_node_t, tag: Seq<u8>, value: Seq<u8>, style: yaml_scalar_style_t) -> bool {
    &&& n.type_ == yaml_node_type_t::YAML_SCALAR_NODE
    &&& n.tag@ == tag
    &&& n.data matches yaml_node_data_t::Scalar(d) && d.value@ == value && d.style == style
    &&& n.start_mark == zero_mark()
    &&& n.end_mark == zero_mark()
}

/// `n` is a sequence node with this tag, items and style.
pub open spec fn sequence_node_is(n: yaml_node_t, tag: Seq<u8>, items: Seq<i32>, style: yaml_sequence_style_t) -> bool {
    &&& n.type_ == yaml_node_type_t::YAML_SEQUENCE_NODE
    &&& n.tag@ == tag
    &&& n.data matches yaml_node_data_t::Sequence(d) && d.items.items@ == items && d.style == style
    &&& n.start_mark == zero_mark()
    &&& n.end_mark == zero_mark()
}

/// `n` is a mapping node with this tag, pairs and style.
pub open spec fn mapping_node_is(n: yaml_node_t, tag: Seq<u8>, pairs: Seq<yaml_node_pair_t>, style: yaml_mapping_style_t) -> bool {
    &&& n.type_ == yaml_node_type_t::YAML_MAPPING_NODE
    &&& n.tag@ == tag
    &&& n.data matches yaml_node_data_t::Mapping(d) && d.pairs.items@ == pairs && d.style == style
    &&& n.start_mark == zero_mark()
    &&& n.end_mark == zero_mark()
}

/// A document with no nodes, directives or marks.
pub open spec fn is_empty_document(d: yaml_document_t) -> bool {
    &&& d.nodes.items@.len() == 0
    &&& d.version_directive is None
    &&& d.tag_directives.items@.len() == 0
    &&& d.start_implicit == 0
    &&& d.end_implicit == 0
    &&& d.start_mark == zero_mark()
    &&& d.end_mark == zero_mark()
}

/// A document with no nodes.
pub fn yaml_document_empty() -> (d: yaml_document_t)
    ensures
        is_empty_document(d),
{
    yaml_document_t {
        nodes: yaml_node_stack_t { items: Vec::new() },
        version_directive: None,
        tag_directives: yaml_tag_directive_range_t { items: Vec::new() },
        start_implicit: 0,
        end_implicit: 0,
        start_mark: yaml_mark_zero(),
        end_mark: yaml_mark_zero(),
    }
}

/// Makes a document with no nodes; fails, leaving the document as it was,
/// when a tag directive is not valid UTF-8.
pub fn yaml_document_initialize(
    document: &mut yaml_document_t,
    version_directive: Option<yaml_version_directive_t>,
    tag_directives: &[yaml_tag_directive_t],
    start_implicit: i32,
    end_implicit: i32,
) -> (r: bool)
    ensures
        r == directives_valid(given_directives(tag_directives@)),
        !r ==> *final(document) == *old(document),
        r ==> {
            &&& final(document).nodes.items@.len() == 0
            &&& final(document).version_directive == version_directive
            &&& tag_directives_view(final(document).tag_directives.items@) == given_directives(
                tag_directives@,
            )
            &&& final(document).start_implicit == start_implicit
            &&& final(document).end_implicit == end_implicit
            &&& final(document).start_mark == zero_mark()
            &&& final(document).end_mark == zero_mark()
        },
{
    match copy_tag_directives(tag_directives) {
        Some(items) => {
            *document = yaml_document_t {
                nodes: yaml_node_stack_t { items: Vec::new() },
                version_directive,
                tag_directives: yaml_tag_directive_range_t { items },
                start_implicit,
                end_implicit,
                start_mark: yaml_mark_zero(),
                end_mark: yaml_mark_zero(),
            };
            true
        },
        None => false,
    }
}

/// Releases what the document holds and leaves it empty.
pub fn yaml_document_delete(document: &mut yaml_document_t)
    ensures
        is_empty_document(*final(document)),
{
    *document = yaml_document_empty();
}

/// The node named `index` (ids start at 1), if there is one.
pub fn yaml_document_get_node(document: &yaml_document_t, index: i32) -> (r: Option<&yaml_node_t>)
    ensures
        r is Some <==> document.has_node(index as int),
        r matches Some(n) ==> *n == document.node(index as int),
{
    if index > 0 && (index as usize) <= document.nodes.items.len() {
        Some(&document.nodes.items[(index - 1) as usize])
    } else {
        None
    }
}

/// The first node of the document (its root), if there is one.
pub fn yaml_document_get_root_node(document: &yaml_document_t) -> (r: Option<&yaml_node_t>)
    ensures
        r is Some <==> document.nodes.items@.len() > 0,
        r matches Some(n) ==> *n == document.node(1),
{
    if document.nodes.items.len() > 0 {
        Some(&document.nodes.items[0])
    } else {
        None
    }
}

/// The tag given, or the default one.
pub open spec fn tag_or(tag: Option<&[u8]>, default: &str) -> Seq<u8> {
    match opt_c_str(tag) {
        Some(t) => t,
        None => default.spec_bytes(),
    }
}

/// A copy of the tag given (or of the default one), unless it is not
/// valid UTF-8.
fn checked_tag(tag: Option<&[u8]>, default: &str) -> (r: Option<Vec<u8>>)
    ensures
        r is Some <==> valid_utf8(tag_or(tag, default)),
        r matches Some(t) ==> t@ == tag_or(tag, default),
{
    let t = match tag {
        Some(s) => yaml_strdup(s),
        None => {
            let b = default.as_bytes();
            copy_prefix(b, b.len())
        },
    };
    proof {
        if tag is None {
            assert(default.spec_bytes().take(default.spec_bytes().len() as int) =~= default.spec_bytes());
        }
    }
    if yaml_check_utf8(t.as_slice()) {
        Some(t)
    } else {
        None
    }
}

/// Adds a scalar node; returns its id, or 0, leaving the document as it
/// was, when the tag or the value is not valid UTF-8 or the document is
/// full. A missing tag is the default scalar tag.
pub fn yaml_document_add_scalar(
    document: &mut yaml_document_t,
    tag: Option<&[u8]>,
    value: &[u8],
    length: i32,
    style: yaml_scalar_style_t,
) -> (r: i32)
    requires
        length >= 0 ==> length <= value@.len(),
    ensures
        (r != 0) == (valid_utf8(tag_or(tag, YAML_DEFAULT_SCALAR_TAG)) && valid_utf8(
            scalar_value(value@, length),
        ) && old(document).nodes.items@.len() < max_nodes()),
        r == 0 ==> *final(document) == *old(document),
        r != 0 ==> {
            &&& r == final(document).nodes.items@.len()
            &&& final(document).nodes.items@.drop_last() == old(document).nodes.items@
            &&& scalar_node_is(
                final(document).nodes.items@.last(),
                tag_or(tag, YAML_DEFAULT_SCALAR_TAG),
                scalar_value(value@, length),
                style,
            )
            &&& *final(document) == (yaml_document_t { nodes: final(document).nodes, ..*old(document) })
        },
{
    let tag_copy = match checked_tag(tag, YAML_DEFAULT_SCALAR_TAG) {
        Some(t) => t,
        None => { return 0; },
    };
    let len: usize = if length < 0 {
        c_strlen(value)
    } else {
        length as usize
    };
    let value_copy = copy_prefix(value, len);
    if !yaml_check_utf8(value_copy.as_slice()) {
        return 0;
    }
    if document.nodes.items.len() >= i32::MAX as usize {
        return 0;
    }
    let node = yaml_node_t {
        type_: yaml_node_type_t::YAML_SCALAR_NODE,
        tag: tag_copy,
        data: yaml_node_data_t::Scalar(yaml_node_scalar_t { value: value_copy, style }),
        start_mark: yaml_mark_zero(),
        end_mark: yaml_mark_zero(),
    };
    document.nodes.items.push(node);
    document.nodes.items.len() as i32
}

/// Adds a sequence node with no items; returns its id, or 0, leaving the
/// document as it was, when the tag is not valid UTF-8 or the document is
/// full. A missing tag is the default sequence tag.
pub fn yaml_document_add_sequence(
    document: &mut yaml_document_t,
    tag: Option<&[u8]>,
    style: yaml_sequence_style_t,
) -> (r: i32)
    ensures
        (r != 0) == (valid_utf8(tag_or(tag, YAML_DEFAULT_SEQUENCE_TAG))
            && old(document).nodes.items@.len() < max_nodes()),
        r == 0 ==> *final(document) == *old(document),
        r != 0 ==> {
            &&& r == final(document).nodes.items@.len()
            &&& final(document).nodes.items@.drop_last() == old(document).nodes.items@
            &&& sequence_node_is(
                final(document).nodes.items@.last(),
                tag_or(tag, YAML_DEFAULT_SEQUENCE_TAG),
                Seq::empty(),
                style,
            )
            &&& *final(document) == (yaml_document_t { nodes: final(document).nodes, ..*old(document) })
        },
{
    let tag_copy = match checked_tag(tag, YAML_DEFAULT_SEQUENCE_TAG) {
        Some(t) => t,
        None => { return 0; },
    };
    if document.nodes.items.len() >= i32::MAX as usize {
        return 0;
    }
    let node = yaml_node_t {
        type_: yaml_node_type_t::YAML_SEQUENCE_NODE,
        tag: tag_copy,
        data: yaml_node_data_t::Sequence(yaml_node_sequence_t {
            items: yaml_node_item_stack_t { items: Vec::new() },
            style,
        }),
        start_mark: yaml_mark_zero(),
        end_mark: yaml_mark_zero(),
    };
    document.nodes.items.push(node);
    document.nodes.items.len() as i32
}

/// Adds a mapping node with no pairs; returns its id, or 0, leaving the
/// document as it was, when the tag is not valid UTF-8 or the document is
/// full. A missing tag is the default mapping tag.
pub fn yaml_document_add_mapping(
    document: &mut yaml_document_t,
    tag: Option<&[u8]>,
    style: yaml_mapping_style_t,
) -> (r: i32)
    ensures
        (r != 0) == (valid_utf8(tag_or(tag, YAML_DEFAULT_MAPPING_TAG))
            && old(document).nodes.items@.len() < max_nodes()),
        r == 0 ==> *final(document) == *old(document),
        r != 0 ==> {
            &&& r == final(document).nodes.items@.len()
            &&& final(document).nodes.items@.drop_last() == old(document).nodes.items@
            &&& mapping_node_is(
                final(document).nodes.items@.last(),
                tag_or(tag, YAML_DEFAULT_MAPPING_TAG),
                Seq::empty(),
                style,
            )
            &&& *final(document) == (yaml_document_t { nodes: final(document).nodes, ..*old(document) })
        },
{
    let tag_copy = match checked_tag(tag, YAML_DEFAULT_MAPPING_TAG) {
        Some(t) => t,
        None => { return 0; },
    };
    if document.nodes.items.len() >= i32::MAX as usize {
        return 0;
    }
    let node = yaml_node_t {
        type_: yaml_node_type_t::YAML_MAPPING_NODE,
        tag: tag_copy,
        data: yaml_node_data_t::Mapping(yaml_node_mapping_t {
            pairs: yaml_node_pair_stack_t { items: Vec::new() },
            style,
        }),
        start_mark: yaml_mark_zero(),
        end_mark: yaml_mark_zero(),
    };
    document.nodes.items.push(node);
    document.nodes.items.len() as i32
}

/// The nodes other than `id` are kept.
pub open spec fn others_kept(a: yaml_document_t, b: yaml_document_t, id: int) -> bool {
    &&& b.nodes.items@.len() == a.nodes.items@.len()
    &&& forall|k: int| #![trigger b.node(k)] b.has_node(k) && k != id ==> b.node(k) == a.node(k)
    &&& b == (yaml_document_t { nodes: b.nodes, ..a })
}

/// Appends the node `item` to the items of the sequence node `sequence`.
pub fn yaml_document_append_sequence_item(
    document: &mut yaml_document_t,
    sequence: i32,
    item: i32,
) -> (r: bool)
    requires
        old(document).has_node(sequence as int),
        old(document).node(sequence as int).type_ == yaml_node_type_t::YAML_SEQUENCE_NODE,
        old(document).node(sequence as int).data is Sequence,
        old(document).has_node(item as int),
    ensures
        r,
        others_kept(*old(document), *final(document), sequence as int),
        ({
            let n0 = old(document).node(sequence as int);
            let n1 = final(document).node(sequence as int);
            &&& n1.type_ == n0.type_
            &&& n1.tag == n0.tag
            &&& n1.start_mark == n0.start_mark
            &&& n1.end_mark == n0.end_mark
            &&& n0.data matches yaml_node_data_t::Sequence(d0) && n1.data matches yaml_node_data_t::Sequence(d1)
                && d1.items.items@ == d0.items.items@.push(item) && d1.style == d0.style
        }),
{
    let k = (sequence - 1) as usize;
    let ghost before = document.nodes.items@;
    let mut node = document.nodes.items.remove(k);
    node.data = match node.data {
        yaml_node_data_t::Sequence(mut d) => {
            d.items.items.push(item);
            yaml_node_data_t::Sequence(d)
        },
        other => other,
    };
    document.nodes.items.insert(k, node);
    assert forall|j: int| 0 <= j < before.len() && j != k implies document.nodes.items@[j] == before[j] by {
    }
    true
}

/// Appends the pair (`key`, `value`) to the pairs of the mapping node
/// `mapping`.
pub fn yaml_document_append_mapping_pair(
    document: &mut yaml_document_t,
    mapping: i32,
    key: i32,
    value: i32,
) -> (r: bool)
    requires
        old(document).has_node(mapping as int),
        old(document).node(mapping as int).type_ == yaml_node_type_t::YAML_MAPPING_NODE,
        old(document).node(mapping as int).data is Mapping,
        old(document).has_node(key as int),
        old(document).has_node(value as int),
    ensures
        r,
        others_kept(*old(document), *final(document), mapping as int),
        ({
            let n0 = old(document).node(mapping as int);
            let n1 = final(document).node(mapping as int);
            &&& n1.type_ == n0.type_
            &&& n1.tag == n0.tag
            &&& n1.start_mark == n0.start_mark
            &&& n1.end_mark == n0.end_mark
            &&& n0.data matches yaml_node_data_t::Mapping(d0) && n1.data matches yaml_node_data_t::Mapping(d1)
                && d1.pairs.items@ == d0.pairs.items@.push(yaml_node_pair_t { key, value })
                && d1.style == d0.style
        }),
{
    let k = (mapping - 1) as usize;
    let ghost before = document.nodes.items@;
    let mut node = document.nodes.items.remove(k);
    node.data = match node.data {
        yaml_node_data_t::Mapping(mut d) => {
            d.pairs.items.push(yaml_node_pair_t { key, value });
            yaml_node_data_t::Mapping(d)
        },
        other => other,
    };
    document.nodes.items.insert(k, node);
    assert forall|j: int| 0 <= j < before.len() && j != k implies document.nodes.items@[j] == before[j] by {
    }
    true
}

} // verus!
