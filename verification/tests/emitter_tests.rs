use libyaml::document::{
    yaml_document_add_mapping, yaml_document_add_scalar, yaml_document_add_sequence,
    yaml_document_append_mapping_pair, yaml_document_append_sequence_item, yaml_document_empty,
};
use libyaml::dumper::{yaml_document_is_walkable, yaml_emitter_close, yaml_emitter_dump, yaml_emitter_open};
use libyaml::emitter::{
    yaml_emitter_delete, yaml_emitter_flush, yaml_emitter_initialize, yaml_emitter_set_break,
    yaml_emitter_set_canonical, yaml_emitter_set_encoding, yaml_emitter_set_indent,
    yaml_emitter_set_output_string, yaml_emitter_set_unicode, yaml_emitter_set_width,
};
use libyaml::types::{
    yaml_break_t, yaml_encoding_t, yaml_error_type_t, yaml_event_data_t, yaml_event_type_t,
    yaml_mapping_style_t, yaml_scalar_style_t, yaml_sequence_style_t,
};

#[test]
fn settings_are_clamped() {
    let mut e = yaml_emitter_initialize();
    yaml_emitter_set_indent(&mut e, 4);
    assert_eq!(e.best_indent, 4);
    yaml_emitter_set_indent(&mut e, 1);
    assert_eq!(e.best_indent, 2);
    yaml_emitter_set_indent(&mut e, 10);
    assert_eq!(e.best_indent, 2);
    yaml_emitter_set_width(&mut e, 80);
    assert_eq!(e.best_width, 80);
    yaml_emitter_set_width(&mut e, -5);
    assert_eq!(e.best_width, -1);
    yaml_emitter_set_canonical(&mut e, 7);
    assert!(e.canonical);
    yaml_emitter_set_unicode(&mut e, 0);
    assert!(!e.unicode);
    yaml_emitter_set_break(&mut e, yaml_break_t::YAML_CRLN_BREAK);
    assert_eq!(e.line_break, yaml_break_t::YAML_CRLN_BREAK);
    yaml_emitter_delete(&mut e);
    assert_eq!(e.best_indent, 0);
}

#[test]
fn flush_utf8_writes_the_buffer() {
    let mut e = yaml_emitter_initialize();
    yaml_emitter_set_output_string(&mut e, 64);
    yaml_emitter_set_encoding(&mut e, yaml_encoding_t::YAML_UTF8_ENCODING);
    e.buffer = "a: é\n".as_bytes().to_vec();
    assert!(yaml_emitter_flush(&mut e));
    assert_eq!(e.output.written, "a: é\n".as_bytes().to_vec());
    assert!(e.buffer.is_empty());
    assert!(yaml_emitter_flush(&mut e));
    assert_eq!(e.output.written.len(), 6);
}

#[test]
fn flush_utf16_reencodes() {
    let mut e = yaml_emitter_initialize();
    yaml_emitter_set_output_string(&mut e, 64);
    yaml_emitter_set_encoding(&mut e, yaml_encoding_t::YAML_UTF16LE_ENCODING);
    e.buffer = "aé€".as_bytes().to_vec();
    assert!(yaml_emitter_flush(&mut e));
    assert_eq!(e.output.written, vec![0x61, 0x00, 0xE9, 0x00, 0xAC, 0x20]);
    let mut b = yaml_emitter_initialize();
    yaml_emitter_set_output_string(&mut b, 64);
    yaml_emitter_set_encoding(&mut b, yaml_encoding_t::YAML_UTF16BE_ENCODING);
    b.buffer = "aé".as_bytes().to_vec();
    assert!(yaml_emitter_flush(&mut b));
    assert_eq!(b.output.written, vec![0x00, 0x61, 0x00, 0xE9]);
}

#[test]
fn flush_surrogate_pair_octets() {
    let mut e = yaml_emitter_initialize();
    yaml_emitter_set_output_string(&mut e, 64);
    yaml_emitter_set_encoding(&mut e, yaml_encoding_t::YAML_UTF16BE_ENCODING);
    e.buffer = "\u{10000}".as_bytes().to_vec();
    assert!(yaml_emitter_flush(&mut e));
    assert_eq!(e.output.written, vec![0xD8, 0x00, 0xDC, 0x00]);
}

#[test]
fn flush_overflow_is_a_writer_error() {
    let mut e = yaml_emitter_initialize();
    yaml_emitter_set_output_string(&mut e, 3);
    yaml_emitter_set_encoding(&mut e, yaml_encoding_t::YAML_UTF8_ENCODING);
    e.buffer = b"hello".to_vec();
    assert!(!yaml_emitter_flush(&mut e));
    assert_eq!(e.output.written, b"hel".to_vec());
    assert_eq!(e.error, yaml_error_type_t::YAML_WRITER_ERROR);
    assert_eq!(e.problem, Some("write error"));
    assert_eq!(e.buffer, b"hello".to_vec());
}

#[test]
fn open_and_close_send_stream_events_once() {
    let mut e = yaml_emitter_initialize();
    assert!(yaml_emitter_open(&mut e));
    assert!(yaml_emitter_close(&mut e));
    assert!(yaml_emitter_close(&mut e));
    let kinds: Vec<_> = e.events.items.iter().map(|x| x.type_).collect();
    assert_eq!(kinds, vec![yaml_event_type_t::YAML_STREAM_START_EVENT, yaml_event_type_t::YAML_STREAM_END_EVENT]);
}

#[test]
fn dump_empty_document_closes_the_stream() {
    let mut e = yaml_emitter_initialize();
    let mut doc = yaml_document_empty();
    assert!(yaml_emitter_dump(&mut e, &mut doc));
    assert!(e.opened && e.closed);
    assert_eq!(e.events.items.len(), 2);
}

#[test]
fn dump_shared_nodes_get_anchors_and_aliases() {
    let mut e = yaml_emitter_initialize();
    let mut doc = yaml_document_empty();
    let seq = yaml_document_add_sequence(&mut doc, None, yaml_sequence_style_t::YAML_BLOCK_SEQUENCE_STYLE);
    let shared = yaml_document_add_scalar(&mut doc, None, b"s", -1, yaml_scalar_style_t::YAML_PLAIN_SCALAR_STYLE);
    let map = yaml_document_add_mapping(&mut doc, Some(b"!m"), yaml_mapping_style_t::YAML_FLOW_MAPPING_STYLE);
    let other = yaml_document_add_scalar(&mut doc, Some(b"!t"), b"o", -1, yaml_scalar_style_t::YAML_PLAIN_SCALAR_STYLE);
    yaml_document_append_sequence_item(&mut doc, seq, shared);
    yaml_document_append_sequence_item(&mut doc, seq, map);
    yaml_document_append_sequence_item(&mut doc, seq, shared);
    yaml_document_append_mapping_pair(&mut doc, map, other, map);
    assert!(yaml_document_is_walkable(&doc));
    assert!(yaml_emitter_dump(&mut e, &mut doc));
    assert!(doc.nodes.items.is_empty());
    let kinds: Vec<_> = e.events.items.iter().map(|x| x.type_).collect();
    assert_eq!(
        kinds,
        vec![
            yaml_event_type_t::YAML_STREAM_START_EVENT,
            yaml_event_type_t::YAML_DOCUMENT_START_EVENT,
            yaml_event_type_t::YAML_SEQUENCE_START_EVENT,
            yaml_event_type_t::YAML_SCALAR_EVENT,
            yaml_event_type_t::YAML_MAPPING_START_EVENT,
            yaml_event_type_t::YAML_SCALAR_EVENT,
            yaml_event_type_t::YAML_ALIAS_EVENT,
            yaml_event_type_t::YAML_MAPPING_END_EVENT,
            yaml_event_type_t::YAML_ALIAS_EVENT,
            yaml_event_type_t::YAML_SEQUENCE_END_EVENT,
            yaml_event_type_t::YAML_DOCUMENT_END_EVENT
        ]
    );
    match &e.events.items[2].data {
        yaml_event_data_t::SequenceStart(d) => {
            assert_eq!(d.anchor, None);
            assert_eq!(d.implicit, 1);
        }
        _ => panic!("expected a sequence start"),
    }
    match &e.events.items[3].data {
        yaml_event_data_t::Scalar(d) => {
            assert_eq!(d.anchor, Some(b"id002".to_vec()));
            assert_eq!((d.plain_implicit, d.quoted_implicit), (1, 1));
        }
        _ => panic!("expected a scalar"),
    }
    match &e.events.items[4].data {
        yaml_event_data_t::MappingStart(d) => {
            assert_eq!(d.anchor, Some(b"id001".to_vec()));
            assert_eq!(d.implicit, 0);
            assert_eq!(d.tag, Some(b"!m".to_vec()));
        }
        _ => panic!("expected a mapping start"),
    }
    match &e.events.items[5].data {
        yaml_event_data_t::Scalar(d) => assert_eq!((d.plain_implicit, d.anchor.clone()), (0, None)),
        _ => panic!("expected a scalar"),
    }
    match &e.events.items[6].data {
        yaml_event_data_t::Alias(d) => assert_eq!(d.anchor, b"id001".to_vec()),
        _ => panic!("expected an alias"),
    }
    match &e.events.items[8].data {
        yaml_event_data_t::Alias(d) => assert_eq!(d.anchor, b"id002".to_vec()),
        _ => panic!("expected an alias"),
    }
    assert!(e.anchors.is_empty());
    assert_eq!(e.last_anchor_id, 0);
}

#[test]
fn walkable_refuses_dangling_ids() {
    let mut doc = yaml_document_empty();
    let seq = yaml_document_add_sequence(&mut doc, None, yaml_sequence_style_t::YAML_ANY_SEQUENCE_STYLE);
    assert!(yaml_document_is_walkable(&doc));
    if let libyaml::document::yaml_node_data_t::Sequence(d) = &mut doc.nodes.items[(seq - 1) as usize].data {
        d.items.items.push(5);
    }
    assert!(!yaml_document_is_walkable(&doc));
}

#[test]
fn utf16_output_reads_back() {
    let mut e = yaml_emitter_initialize();
    yaml_emitter_set_output_string(&mut e, 64);
    yaml_emitter_set_encoding(&mut e, yaml_encoding_t::YAML_UTF16LE_ENCODING);
    e.buffer = "k: é".as_bytes().to_vec();
    assert!(yaml_emitter_flush(&mut e));
    let mut parser = libyaml::api::yaml_parser_initialize();
    libyaml::api::yaml_parser_set_encoding(&mut parser, yaml_encoding_t::YAML_UTF16LE_ENCODING);
    libyaml::api::yaml_parser_set_input_string(&mut parser, &e.output.written);
    let mut values = Vec::new();
    for _ in 0..10 {
        let mut ev = libyaml::types::yaml_event_empty();
        assert!(libyaml::parser::yaml_parser_parse(&mut parser, &mut ev));
        if let yaml_event_data_t::Scalar(d) = &ev.data {
            values.push(d.value.clone());
        }
        if ev.type_ == yaml_event_type_t::YAML_STREAM_END_EVENT {
            break;
        }
    }
    assert_eq!(values, vec![b"k".to_vec(), "é".as_bytes().to_vec()]);
}

#[test]
fn flush_utf16le_astral_character() {
    let mut e = yaml_emitter_initialize();
    yaml_emitter_set_output_string(&mut e, 64);
    yaml_emitter_set_encoding(&mut e, yaml_encoding_t::YAML_UTF16LE_ENCODING);
    e.buffer = vec![0x61, 0xF0, 0x9F, 0x98, 0x80];
    assert!(yaml_emitter_flush(&mut e));
    assert_eq!(e.output.written, vec![0x61, 0x00, 0x3D, 0xD8, 0x00, 0xDE]);
    assert!(e.buffer.is_empty());
}

#[test]
fn utf16_astral_output_reads_back() {
    let mut e = yaml_emitter_initialize();
    yaml_emitter_set_output_string(&mut e, 64);
    yaml_emitter_set_encoding(&mut e, yaml_encoding_t::YAML_UTF16BE_ENCODING);
    e.buffer = "x\u{1F600}\u{10FFFF}".as_bytes().to_vec();
    assert!(yaml_emitter_flush(&mut e));
    let mut parser = libyaml::api::yaml_parser_initialize();
    libyaml::api::yaml_parser_set_encoding(&mut parser, yaml_encoding_t::YAML_UTF16BE_ENCODING);
    libyaml::api::yaml_parser_set_input_string(&mut parser, &e.output.written);
    let mut values = Vec::new();
    for _ in 0..10 {
        let mut ev = libyaml::types::yaml_event_empty();
        assert!(libyaml::parser::yaml_parser_parse(&mut parser, &mut ev));
        if let yaml_event_data_t::Scalar(d) = &ev.data {
            values.push(d.value.clone());
        }
        if ev.type_ == yaml_event_type_t::YAML_STREAM_END_EVENT {
            break;
        }
    }
    assert_eq!(values, vec!["x\u{1F600}\u{10FFFF}".as_bytes().to_vec()]);
}
