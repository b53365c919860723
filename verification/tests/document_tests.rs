use libyaml::document::{
    yaml_document_add_mapping, yaml_document_add_scalar, yaml_document_add_sequence,
    yaml_document_append_mapping_pair, yaml_document_append_sequence_item, yaml_document_delete,
    yaml_document_empty, yaml_document_get_node, yaml_document_get_root_node,
    yaml_document_initialize, yaml_node_data_t, yaml_node_pair_t,
};
use libyaml::events::{
    yaml_alias_event_initialize, yaml_document_end_event_initialize,
    yaml_document_start_event_initialize, yaml_mapping_end_event_initialize,
    yaml_mapping_start_event_initialize, yaml_scalar_event_initialize,
    yaml_sequence_end_event_initialize, yaml_sequence_start_event_initialize,
    yaml_stream_end_event_initialize, yaml_stream_start_event_initialize, c_strlen,
};
use libyaml::types::{
    yaml_encoding_t, yaml_event_data_t, yaml_event_empty, yaml_event_type_t,
    yaml_mapping_style_t, yaml_node_type_t, yaml_scalar_style_t, yaml_sequence_style_t,
    yaml_tag_directive_t, yaml_version_directive_t,
};

#[test]
fn add_nodes_and_find_them() {
    let mut doc = yaml_document_empty();
    assert!(yaml_document_get_root_node(&doc).is_none());
    let m = yaml_document_add_mapping(&mut doc, None, yaml_mapping_style_t::YAML_BLOCK_MAPPING_STYLE);
    let k = yaml_document_add_scalar(&mut doc, None, b"key", -1, yaml_scalar_style_t::YAML_PLAIN_SCALAR_STYLE);
    let s = yaml_document_add_sequence(&mut doc, Some(b"!custom"), yaml_sequence_style_t::YAML_FLOW_SEQUENCE_STYLE);
    assert_eq!((m, k, s), (1, 2, 3));
    let root = yaml_document_get_root_node(&doc).unwrap();
    assert_eq!(root.type_, yaml_node_type_t::YAML_MAPPING_NODE);
    assert_eq!(root.tag, b"tag:yaml.org,2002:map".to_vec());
    let key = yaml_document_get_node(&doc, 2).unwrap();
    assert_eq!(key.tag, b"tag:yaml.org,2002:str".to_vec());
    match &key.data {
        yaml_node_data_t::Scalar(d) => assert_eq!(d.value, b"key".to_vec()),
        _ => panic!("expected a scalar"),
    }
    assert_eq!(yaml_document_get_node(&doc, 3).unwrap().tag, b"!custom".to_vec());
    assert!(yaml_document_get_node(&doc, 0).is_none());
    assert!(yaml_document_get_node(&doc, 4).is_none());
    assert!(yaml_document_get_node(&doc, -1).is_none());
}

#[test]
fn scalar_length_counts_octets() {
    let mut doc = yaml_document_empty();
    let id = yaml_document_add_scalar(&mut doc, None, b"abcdef", 3, yaml_scalar_style_t::YAML_ANY_SCALAR_STYLE);
    assert_eq!(id, 1);
    match &yaml_document_get_node(&doc, 1).unwrap().data {
        yaml_node_data_t::Scalar(d) => assert_eq!(d.value, b"abc".to_vec()),
        _ => panic!("expected a scalar"),
    }
    let id2 = yaml_document_add_scalar(&mut doc, None, b"ab\0cd", -1, yaml_scalar_style_t::YAML_ANY_SCALAR_STYLE);
    assert_eq!(id2, 2);
    match &yaml_document_get_node(&doc, 2).unwrap().data {
        yaml_node_data_t::Scalar(d) => assert_eq!(d.value, b"ab".to_vec()),
        _ => panic!("expected a scalar"),
    }
}

#[test]
fn invalid_utf8_is_refused() {
    let mut doc = yaml_document_empty();
    assert_eq!(yaml_document_add_scalar(&mut doc, None, b"\xc3\x28", -1, yaml_scalar_style_t::YAML_ANY_SCALAR_STYLE), 0);
    assert_eq!(yaml_document_add_sequence(&mut doc, Some(b"\xff"), yaml_sequence_style_t::YAML_ANY_SEQUENCE_STYLE), 0);
    assert_eq!(yaml_document_add_mapping(&mut doc, Some(b"\xe0\x80\x80"), yaml_mapping_style_t::YAML_ANY_MAPPING_STYLE), 0);
    assert_eq!(doc.nodes.items.len(), 0);
}

#[test]
fn append_items_and_pairs() {
    let mut doc = yaml_document_empty();
    let seq = yaml_document_add_sequence(&mut doc, None, yaml_sequence_style_t::YAML_BLOCK_SEQUENCE_STYLE);
    let map = yaml_document_add_mapping(&mut doc, None, yaml_mapping_style_t::YAML_BLOCK_MAPPING_STYLE);
    let a = yaml_document_add_scalar(&mut doc, None, b"a", -1, yaml_scalar_style_t::YAML_ANY_SCALAR_STYLE);
    assert!(yaml_document_append_sequence_item(&mut doc, seq, a));
    assert!(yaml_document_append_sequence_item(&mut doc, seq, map));
    assert!(yaml_document_append_mapping_pair(&mut doc, map, a, a));
    match &yaml_document_get_node(&doc, seq).unwrap().data {
        yaml_node_data_t::Sequence(d) => assert_eq!(d.items.items, vec![3, 2]),
        _ => panic!("expected a sequence"),
    }
    match &yaml_document_get_node(&doc, map).unwrap().data {
        yaml_node_data_t::Mapping(d) => assert_eq!(d.pairs.items, vec![yaml_node_pair_t { key: 3, value: 3 }]),
        _ => panic!("expected a mapping"),
    }
}

#[test]
fn document_initialize_and_delete() {
    let mut doc = yaml_document_empty();
    let dirs = vec![yaml_tag_directive_t { handle: b"!e!".to_vec(), prefix: b"tag:e,2000:".to_vec() }];
    assert!(yaml_document_initialize(&mut doc, Some(yaml_version_directive_t { major: 1, minor: 1 }), &dirs, 1, 0));
    assert_eq!(doc.tag_directives.items[0].prefix, b"tag:e,2000:".to_vec());
    assert_eq!(doc.start_implicit, 1);
    let bad = vec![yaml_tag_directive_t { handle: b"!\xfe!".to_vec(), prefix: b"p".to_vec() }];
    let mut doc2 = yaml_document_empty();
    assert!(!yaml_document_initialize(&mut doc2, None, &bad, 0, 0));
    assert!(doc2.tag_directives.items.is_empty());
    yaml_document_add_scalar(&mut doc, None, b"x", -1, yaml_scalar_style_t::YAML_ANY_SCALAR_STYLE);
    yaml_document_delete(&mut doc);
    assert!(doc.nodes.items.is_empty());
    assert!(doc.version_directive.is_none());
}

#[test]
fn event_initializers() {
    let mut ev = yaml_event_empty();
    assert!(yaml_stream_start_event_initialize(&mut ev, yaml_encoding_t::YAML_UTF8_ENCODING));
    assert_eq!(ev.type_, yaml_event_type_t::YAML_STREAM_START_EVENT);
    assert!(yaml_stream_end_event_initialize(&mut ev));
    assert_eq!(ev.type_, yaml_event_type_t::YAML_STREAM_END_EVENT);
    assert!(yaml_document_start_event_initialize(&mut ev, None, &[], 1));
    assert_eq!(ev.type_, yaml_event_type_t::YAML_DOCUMENT_START_EVENT);
    assert!(yaml_document_end_event_initialize(&mut ev, 0));
    assert_eq!(ev.type_, yaml_event_type_t::YAML_DOCUMENT_END_EVENT);
    assert!(yaml_alias_event_initialize(&mut ev, b"anchor\0ignored"));
    match &ev.data {
        yaml_event_data_t::Alias(d) => assert_eq!(d.anchor, b"anchor".to_vec()),
        _ => panic!("expected an alias"),
    }
    assert!(yaml_scalar_event_initialize(&mut ev, Some(b"a"), Some(b"!t"), b"value", 5, 1, 0, yaml_scalar_style_t::YAML_SINGLE_QUOTED_SCALAR_STYLE));
    match &ev.data {
        yaml_event_data_t::Scalar(d) => {
            assert_eq!(d.anchor, Some(b"a".to_vec()));
            assert_eq!(d.tag, Some(b"!t".to_vec()));
            assert_eq!(d.value, b"value".to_vec());
            assert_eq!((d.plain_implicit, d.quoted_implicit), (1, 0));
        }
        _ => panic!("expected a scalar"),
    }
    assert!(yaml_sequence_start_event_initialize(&mut ev, None, None, 1, yaml_sequence_style_t::YAML_FLOW_SEQUENCE_STYLE));
    assert_eq!(ev.type_, yaml_event_type_t::YAML_SEQUENCE_START_EVENT);
    assert!(yaml_sequence_end_event_initialize(&mut ev));
    assert!(yaml_mapping_start_event_initialize(&mut ev, Some(b"m"), None, 0, yaml_mapping_style_t::YAML_BLOCK_MAPPING_STYLE));
    assert_eq!(ev.type_, yaml_event_type_t::YAML_MAPPING_START_EVENT);
    assert!(yaml_mapping_end_event_initialize(&mut ev));
    assert_eq!(ev.type_, yaml_event_type_t::YAML_MAPPING_END_EVENT);
}

#[test]
fn event_initializers_refuse_invalid_utf8_and_keep_the_event() {
    let mut ev = yaml_event_empty();
    assert!(yaml_mapping_end_event_initialize(&mut ev));
    assert!(!yaml_alias_event_initialize(&mut ev, b"\x80"));
    assert!(!yaml_scalar_event_initialize(&mut ev, None, None, b"\xc0\xaf", -1, 1, 1, yaml_scalar_style_t::YAML_ANY_SCALAR_STYLE));
    assert!(!yaml_sequence_start_event_initialize(&mut ev, Some(b"\xf8"), None, 1, yaml_sequence_style_t::YAML_ANY_SEQUENCE_STYLE));
    assert!(!yaml_mapping_start_event_initialize(&mut ev, None, Some(b"\xed\xa0"), 1, yaml_mapping_style_t::YAML_ANY_MAPPING_STYLE));
    let bad = vec![yaml_tag_directive_t { handle: b"!".to_vec(), prefix: b"\xc1\x81".to_vec() }];
    assert!(!yaml_document_start_event_initialize(&mut ev, None, &bad, 0));
    assert_eq!(ev.type_, yaml_event_type_t::YAML_MAPPING_END_EVENT);
}

#[test]
fn c_strlen_stops_at_nul() {
    assert_eq!(c_strlen(b"abc\0def"), 3);
    assert_eq!(c_strlen(b"abc"), 3);
    assert_eq!(c_strlen(b""), 0);
}
