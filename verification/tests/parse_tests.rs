use libyaml::api::{yaml_parser_initialize, yaml_parser_set_input_string, yaml_parser_set_encoding, yaml_parser_delete, yaml_get_version, yaml_get_version_string, yaml_token_delete, yaml_event_delete};
use libyaml::fetch::yaml_parser_scan;
use libyaml::parser::{yaml_parser_parse, yaml_set_max_nest_level};
use libyaml::scanner::yaml_parser_update_buffer;
use libyaml::types::{
    yaml_encoding_t, yaml_error_type_t, yaml_event_data_t, yaml_event_empty, yaml_event_t,
    yaml_event_type_t, yaml_parser_state_t, yaml_scalar_style_t, yaml_token_data_t,
    yaml_token_empty, yaml_token_type_t,
};


fn parse_all(input: &[u8]) -> (Vec<yaml_event_t>, yaml_error_type_t) {
    let mut parser = yaml_parser_initialize();
    yaml_parser_set_input_string(&mut parser, input);
    let mut events = Vec::new();
    for _ in 0..10000 {
        let mut ev = yaml_event_empty();
        if !yaml_parser_parse(&mut parser, &mut ev) {
            return (events, parser.error);
        }
        let t = ev.type_;
        if t == yaml_event_type_t::YAML_NO_EVENT {
            break;
        }
        events.push(ev);
        if t == yaml_event_type_t::YAML_STREAM_END_EVENT {
            break;
        }
    }
    (events, parser.error)
}

fn types(events: &[yaml_event_t]) -> Vec<yaml_event_type_t> {
    events.iter().map(|e| e.type_).collect()
}

fn scalar_value(ev: &yaml_event_t) -> Vec<u8> {
    match &ev.data {
        yaml_event_data_t::Scalar(d) => d.value.clone(),
        _ => panic!("not a scalar event"),
    }
}

#[test]
fn version_numbers_and_string() {
    let (mut a, mut b, mut c) = (9, 9, 9);
    yaml_get_version(&mut a, &mut b, &mut c);
    assert_eq!((a, b, c), (0, 2, 5));
    assert_eq!(yaml_get_version_string(), "0.2.5");
}

#[test]
fn empty_input_gives_stream_start_and_end() {
    let (events, err) = parse_all(b"");
    assert_eq!(err, yaml_error_type_t::YAML_NO_ERROR);
    assert_eq!(types(&events), vec![yaml_event_type_t::YAML_STREAM_START_EVENT, yaml_event_type_t::YAML_STREAM_END_EVENT]);
}

#[test]
fn plain_scalar_document() {
    let (events, err) = parse_all(b"hello");
    assert_eq!(err, yaml_error_type_t::YAML_NO_ERROR);
    assert_eq!(
        types(&events),
        vec![
            yaml_event_type_t::YAML_STREAM_START_EVENT,
            yaml_event_type_t::YAML_DOCUMENT_START_EVENT,
            yaml_event_type_t::YAML_SCALAR_EVENT,
            yaml_event_type_t::YAML_DOCUMENT_END_EVENT,
            yaml_event_type_t::YAML_STREAM_END_EVENT
        ]
    );
    assert_eq!(scalar_value(&events[2]), b"hello".to_vec());
    match &events[2].data {
        yaml_event_data_t::Scalar(d) => {
            assert_eq!(d.style, yaml_scalar_style_t::YAML_PLAIN_SCALAR_STYLE);
            assert_eq!(d.plain_implicit, 1);
        }
        _ => panic!(),
    }
}

#[test]
fn block_mapping_events() {
    let (events, err) = parse_all(b"a: 1\nb: two\n");
    assert_eq!(err, yaml_error_type_t::YAML_NO_ERROR);
    assert_eq!(
        types(&events),
        vec![
            yaml_event_type_t::YAML_STREAM_START_EVENT,
            yaml_event_type_t::YAML_DOCUMENT_START_EVENT,
            yaml_event_type_t::YAML_MAPPING_START_EVENT,
            yaml_event_type_t::YAML_SCALAR_EVENT,
            yaml_event_type_t::YAML_SCALAR_EVENT,
            yaml_event_type_t::YAML_SCALAR_EVENT,
            yaml_event_type_t::YAML_SCALAR_EVENT,
            yaml_event_type_t::YAML_MAPPING_END_EVENT,
            yaml_event_type_t::YAML_DOCUMENT_END_EVENT,
            yaml_event_type_t::YAML_STREAM_END_EVENT
        ]
    );
    assert_eq!(scalar_value(&events[3]), b"a".to_vec());
    assert_eq!(scalar_value(&events[4]), b"1".to_vec());
    assert_eq!(scalar_value(&events[5]), b"b".to_vec());
    assert_eq!(scalar_value(&events[6]), b"two".to_vec());
}

#[test]
fn block_sequence_and_flow_collections() {
    let (events, err) = parse_all(b"- [x, y]\n- {k: v}\n");
    assert_eq!(err, yaml_error_type_t::YAML_NO_ERROR);
    assert_eq!(
        types(&events),
        vec![
            yaml_event_type_t::YAML_STREAM_START_EVENT,
            yaml_event_type_t::YAML_DOCUMENT_START_EVENT,
            yaml_event_type_t::YAML_SEQUENCE_START_EVENT,
            yaml_event_type_t::YAML_SEQUENCE_START_EVENT,
            yaml_event_type_t::YAML_SCALAR_EVENT,
            yaml_event_type_t::YAML_SCALAR_EVENT,
            yaml_event_type_t::YAML_SEQUENCE_END_EVENT,
            yaml_event_type_t::YAML_MAPPING_START_EVENT,
            yaml_event_type_t::YAML_SCALAR_EVENT,
            yaml_event_type_t::YAML_SCALAR_EVENT,
            yaml_event_type_t::YAML_MAPPING_END_EVENT,
            yaml_event_type_t::YAML_SEQUENCE_END_EVENT,
            yaml_event_type_t::YAML_DOCUMENT_END_EVENT,
            yaml_event_type_t::YAML_STREAM_END_EVENT
        ]
    );
}

#[test]
fn quoted_scalars_and_escapes() {
    let (events, err) = parse_all(b"- 'it''s'\n- \"a\\tb\\u00e9\"\n");
    assert_eq!(err, yaml_error_type_t::YAML_NO_ERROR);
    assert_eq!(scalar_value(&events[3]), b"it's".to_vec());
    assert_eq!(scalar_value(&events[4]), "a\tb\u{e9}".as_bytes().to_vec());
}

#[test]
fn literal_block_scalar_keeps_lines() {
    let (events, err) = parse_all(b"|\n  line one\n  line two\n");
    assert_eq!(err, yaml_error_type_t::YAML_NO_ERROR);
    assert_eq!(scalar_value(&events[2]), b"line one\nline two\n".to_vec());
}

#[test]
fn anchors_aliases_and_tags() {
    let (events, err) = parse_all(b"- &a !!str x\n- *a\n");
    assert_eq!(err, yaml_error_type_t::YAML_NO_ERROR);
    match &events[3].data {
        yaml_event_data_t::Scalar(d) => {
            assert_eq!(d.anchor, Some(b"a".to_vec()));
            assert_eq!(d.tag, Some(b"tag:yaml.org,2002:str".to_vec()));
            assert_eq!(d.value, b"x".to_vec());
        }
        _ => panic!("expected a scalar"),
    }
    assert_eq!(events[4].type_, yaml_event_type_t::YAML_ALIAS_EVENT);
    match &events[4].data {
        yaml_event_data_t::Alias(d) => assert_eq!(d.anchor, b"a".to_vec()),
        _ => panic!("expected an alias"),
    }
}

#[test]
fn directives_and_explicit_document() {
    let (events, err) = parse_all(b"%YAML 1.1\n%TAG !e! tag:example.com,2000:\n--- !e!foo bar\n...\n");
    assert_eq!(err, yaml_error_type_t::YAML_NO_ERROR);
    match &events[1].data {
        yaml_event_data_t::DocumentStart(d) => {
            let v = d.version_directive.unwrap();
            assert_eq!((v.major, v.minor), (1, 1));
            assert_eq!(d.tag_directives.items.len(), 1);
            assert_eq!(d.tag_directives.items[0].handle, b"!e!".to_vec());
            assert_eq!(d.implicit, 0);
        }
        _ => panic!("expected a document start"),
    }
    match &events[2].data {
        yaml_event_data_t::Scalar(d) => {
            assert_eq!(d.tag, Some(b"tag:example.com,2000:foo".to_vec()));
        }
        _ => panic!("expected a scalar"),
    }
    match &events[3].data {
        yaml_event_data_t::DocumentEnd(d) => assert_eq!(d.implicit, 0),
        _ => panic!("expected a document end"),
    }
}

#[test]
fn unclosed_flow_sequence_is_an_error() {
    let (_, err) = parse_all(b"[a, b");
    assert!(err == yaml_error_type_t::YAML_PARSER_ERROR || err == yaml_error_type_t::YAML_SCANNER_ERROR);
}

#[test]
fn tab_indentation_is_a_scanner_error() {
    let (_, err) = parse_all(b"a:\n\t- b\n");
    assert_eq!(err, yaml_error_type_t::YAML_SCANNER_ERROR);
}

#[test]
fn undefined_tag_handle_is_a_parser_error() {
    let mut parser = yaml_parser_initialize();
    yaml_parser_set_input_string(&mut parser, b"!x!y z\n");
    let mut ev = yaml_event_empty();
    let mut ok = true;
    for _ in 0..10 {
        if !yaml_parser_parse(&mut parser, &mut ev) {
            ok = false;
            break;
        }
    }
    assert!(!ok);
    assert_eq!(parser.error, yaml_error_type_t::YAML_PARSER_ERROR);
    assert_eq!(parser.problem, Some("found undefined tag handle"));
    assert_eq!(ev.type_, yaml_event_type_t::YAML_NO_EVENT);
}

#[test]
fn invalid_utf8_is_a_reader_error() {
    let (_, err) = parse_all(b"a: \xff\n");
    assert_eq!(err, yaml_error_type_t::YAML_READER_ERROR);
}

#[test]
fn no_events_after_stream_end() {
    let mut parser = yaml_parser_initialize();
    yaml_parser_set_input_string(&mut parser, b"x");
    let mut ev = yaml_event_empty();
    for _ in 0..5 {
        assert!(yaml_parser_parse(&mut parser, &mut ev));
    }
    assert_eq!(ev.type_, yaml_event_type_t::YAML_STREAM_END_EVENT);
    assert_eq!(parser.state, yaml_parser_state_t::YAML_PARSE_END_STATE);
    for _ in 0..3 {
        assert!(yaml_parser_parse(&mut parser, &mut ev));
        assert_eq!(ev.type_, yaml_event_type_t::YAML_NO_EVENT);
    }
}

#[test]
fn nesting_limit_is_enforced() {
    let mut parser = yaml_parser_initialize();
    yaml_set_max_nest_level(&mut parser, 2);
    yaml_parser_set_input_string(&mut parser, b"a:\n  b:\n    c:\n      d: e\n");
    let mut ev = yaml_event_empty();
    let mut failed = false;
    for _ in 0..20 {
        if !yaml_parser_parse(&mut parser, &mut ev) {
            failed = true;
            break;
        }
    }
    assert!(failed);
    assert_eq!(parser.error, yaml_error_type_t::YAML_PARSER_ERROR);
    assert_eq!(parser.problem, Some("Maximum nesting level reached, set with yaml_set_max_nest_level())"));
    let (_, err) = parse_all(b"a:\n  b:\n    c:\n      d: e\n");
    assert_eq!(err, yaml_error_type_t::YAML_NO_ERROR);
}

#[test]
fn utf16le_input_with_bom() {
    let mut bytes = vec![0xFFu8, 0xFE];
    for c in "k: v".encode_utf16() {
        bytes.push((c & 0xFF) as u8);
        bytes.push((c >> 8) as u8);
    }
    let (events, err) = parse_all(&bytes);
    assert_eq!(err, yaml_error_type_t::YAML_NO_ERROR);
    match &events[0].data {
        yaml_event_data_t::StreamStart(d) => assert_eq!(d.encoding, yaml_encoding_t::YAML_UTF16LE_ENCODING),
        _ => panic!("expected a stream start"),
    }
    assert_eq!(scalar_value(&events[3]), b"k".to_vec());
    assert_eq!(scalar_value(&events[4]), b"v".to_vec());
}

#[test]
fn explicit_encoding_is_used() {
    let mut parser = yaml_parser_initialize();
    yaml_parser_set_encoding(&mut parser, yaml_encoding_t::YAML_UTF16BE_ENCODING);
    yaml_parser_set_input_string(&mut parser, &[0x00, b'z']);
    let mut ev = yaml_event_empty();
    assert!(yaml_parser_parse(&mut parser, &mut ev));
    match &ev.data {
        yaml_event_data_t::StreamStart(d) => assert_eq!(d.encoding, yaml_encoding_t::YAML_UTF16BE_ENCODING),
        _ => panic!("expected a stream start"),
    }
}

#[test]
fn scanner_tokens_for_a_mapping() {
    let mut parser = yaml_parser_initialize();
    yaml_parser_set_input_string(&mut parser, b"k: v");
    let mut kinds = Vec::new();
    for _ in 0..20 {
        let mut tok = yaml_token_empty();
        assert!(yaml_parser_scan(&mut parser, &mut tok));
        if tok.type_ == yaml_token_type_t::YAML_NO_TOKEN {
            break;
        }
        kinds.push(tok.type_);
        if let yaml_token_data_t::Scalar(s) = &tok.data {
            assert!(s.value == b"k".to_vec() || s.value == b"v".to_vec());
        }
        yaml_token_delete(&mut tok);
        assert_eq!(tok.type_, yaml_token_type_t::YAML_NO_TOKEN);
    }
    assert_eq!(
        kinds,
        vec![
            yaml_token_type_t::YAML_STREAM_START_TOKEN,
            yaml_token_type_t::YAML_BLOCK_MAPPING_START_TOKEN,
            yaml_token_type_t::YAML_KEY_TOKEN,
            yaml_token_type_t::YAML_SCALAR_TOKEN,
            yaml_token_type_t::YAML_VALUE_TOKEN,
            yaml_token_type_t::YAML_SCALAR_TOKEN,
            yaml_token_type_t::YAML_BLOCK_END_TOKEN,
            yaml_token_type_t::YAML_STREAM_END_TOKEN
        ]
    );
}

#[test]
fn update_buffer_makes_characters_available() {
    let mut parser = yaml_parser_initialize();
    yaml_parser_set_input_string(&mut parser, b"abc");
    assert!(yaml_parser_update_buffer(&mut parser, 3));
    let r = &parser.reader;
    assert_eq!(&r.buffer.chars[r.buffer.pointer..r.buffer.pointer + 3], &[97u32, 98, 99]);
    assert_eq!(parser.reader.encoding, yaml_encoding_t::YAML_UTF8_ENCODING);
}

#[test]
fn update_buffer_reports_bad_octet() {
    let mut parser = yaml_parser_initialize();
    yaml_parser_set_input_string(&mut parser, b"ab\x80");
    assert!(!yaml_parser_update_buffer(&mut parser, 3));
    assert_eq!(parser.error, yaml_error_type_t::YAML_READER_ERROR);
    assert_eq!(parser.problem, Some("invalid leading UTF-8 octet"));
    assert_eq!(parser.problem_offset, 2);
    assert_eq!(parser.problem_value, 0x80);
}

#[test]
fn parser_delete_gives_a_fresh_parser() {
    let mut parser = yaml_parser_initialize();
    yaml_parser_set_input_string(&mut parser, b"x");
    let mut ev = yaml_event_empty();
    assert!(yaml_parser_parse(&mut parser, &mut ev));
    yaml_event_delete(&mut ev);
    assert_eq!(ev.type_, yaml_event_type_t::YAML_NO_EVENT);
    yaml_parser_delete(&mut parser);
    assert!(!parser.reader.has_input);
    assert_eq!(parser.state, yaml_parser_state_t::YAML_PARSE_STREAM_START_STATE);
    assert_eq!(parser.max_nest_level, 1000);
}

#[test]
fn folded_block_scalar_joins_lines() {
    let (events, err) = parse_all(b">\n  one\n  two\n\n  three\n");
    assert_eq!(err, yaml_error_type_t::YAML_NO_ERROR);
    assert_eq!(scalar_value(&events[2]), b"one two\nthree\n".to_vec());
}

#[test]
fn folded_block_scalar_keeps_more_indented_lines() {
    let (events, err) = parse_all(b">\n  a\n   b\n  c\n");
    assert_eq!(err, yaml_error_type_t::YAML_NO_ERROR);
    assert_eq!(scalar_value(&events[2]), b"a\n b\nc\n".to_vec());
}

#[test]
fn block_scalar_chomping_indicators() {
    let (events, err) = parse_all(b"- |-\n  x\n\n- |+\n  y\n\n- |\n  z\n\n");
    assert_eq!(err, yaml_error_type_t::YAML_NO_ERROR);
    assert_eq!(scalar_value(&events[3]), b"x".to_vec());
    assert_eq!(scalar_value(&events[4]), b"y\n\n".to_vec());
    assert_eq!(scalar_value(&events[5]), b"z\n".to_vec());
}

#[test]
fn block_scalar_indentation_indicator() {
    let (events, err) = parse_all(b"|2\n   x\n  y\n");
    assert_eq!(err, yaml_error_type_t::YAML_NO_ERROR);
    assert_eq!(scalar_value(&events[2]), b" x\ny\n".to_vec());
}

#[test]
fn block_scalar_leading_empty_lines() {
    let (events, err) = parse_all(b"|\n\n  x\n");
    assert_eq!(err, yaml_error_type_t::YAML_NO_ERROR);
    assert_eq!(scalar_value(&events[2]), b"\nx\n".to_vec());
}

#[test]
fn double_quoted_escapes_of_each_kind() {
    let (events, err) = parse_all(b"\"\\x41\\U0001F600\\N\\\\ \\\"\"\n");
    assert_eq!(err, yaml_error_type_t::YAML_NO_ERROR);
    let mut expected = b"A".to_vec();
    expected.extend_from_slice("\u{1F600}\u{85}\\ \"".as_bytes());
    assert_eq!(scalar_value(&events[2]), expected);
}

#[test]
fn single_quoted_backslash_is_kept() {
    let (events, err) = parse_all(b"'a\\n  b'\n");
    assert_eq!(err, yaml_error_type_t::YAML_NO_ERROR);
    assert_eq!(scalar_value(&events[2]), b"a\\n  b".to_vec());
}

#[test]
fn quoted_scalar_folds_line_breaks() {
    let (events, err) = parse_all(b"\"a  \n  b\n\n  c\"\n");
    assert_eq!(err, yaml_error_type_t::YAML_NO_ERROR);
    assert_eq!(scalar_value(&events[2]), b"a b\nc".to_vec());
}

#[test]
fn unknown_escape_is_a_scanner_error() {
    let (_events, err) = parse_all(b"\"\\q\"\n");
    assert_eq!(err, yaml_error_type_t::YAML_SCANNER_ERROR);
}

#[test]
fn plain_scalar_keeps_inner_blanks_and_drops_trailing_ones() {
    let (events, err) = parse_all(b"a  b   # note\n");
    assert_eq!(err, yaml_error_type_t::YAML_NO_ERROR);
    assert_eq!(scalar_value(&events[2]), b"a  b".to_vec());
}

#[test]
fn plain_scalar_folds_lines() {
    let (events, err) = parse_all(b"a\n  b\n\n  c\n");
    assert_eq!(err, yaml_error_type_t::YAML_NO_ERROR);
    assert_eq!(scalar_value(&events[2]), b"a b\nc".to_vec());
}

#[test]
fn escaped_line_break_joins_without_a_space() {
    let (events, err) = parse_all(b"\"a \\\n   b\\\n\n  c\"\n");
    assert_eq!(err, yaml_error_type_t::YAML_NO_ERROR);
    assert_eq!(scalar_value(&events[2]), b"a b\nc".to_vec());
}

#[test]
fn quoted_scalar_with_crlf_breaks() {
    let (events, err) = parse_all(b"'a\r\n\r\n b\r\n'\r\n");
    assert_eq!(err, yaml_error_type_t::YAML_NO_ERROR);
    assert_eq!(scalar_value(&events[2]), b"a\nb ".to_vec());
}

#[test]
fn plain_scalar_in_flow_sequence_stops_at_comma() {
    let (events, err) = parse_all(b"[a b , c\n  d]\n");
    assert_eq!(err, yaml_error_type_t::YAML_NO_ERROR);
    assert_eq!(scalar_value(&events[3]), b"a b".to_vec());
    assert_eq!(scalar_value(&events[4]), b"c d".to_vec());
}

fn parse_with_parser(input: &[u8]) -> (Vec<yaml_event_t>, libyaml::scanner::yaml_parser_t) {
    let mut parser = yaml_parser_initialize();
    yaml_parser_set_input_string(&mut parser, input);
    let mut events = Vec::new();
    for _ in 0..1000 {
        let mut ev = yaml_event_empty();
        if !yaml_parser_parse(&mut parser, &mut ev) {
            break;
        }
        let t = ev.type_;
        if t == yaml_event_type_t::YAML_NO_EVENT {
            break;
        }
        events.push(ev);
        if t == yaml_event_type_t::YAML_STREAM_END_EVENT {
            break;
        }
    }
    (events, parser)
}

#[test]
fn unknown_escape_is_marked_at_the_backslash() {
    let (_events, p) = parse_with_parser(b"\"\\q\"");
    assert_eq!(p.error, yaml_error_type_t::YAML_SCANNER_ERROR);
    assert_eq!(p.problem, Some("found unknown escape character"));
    assert_eq!(p.context, Some("while parsing a quoted scalar"));
    assert_eq!((p.problem_mark.index, p.problem_mark.line, p.problem_mark.column), (1, 0, 1));
    assert_eq!((p.context_mark.index, p.context_mark.line, p.context_mark.column), (0, 0, 0));
}

#[test]
fn undefined_tag_handle_problem_and_context() {
    let (_events, p) = parse_with_parser(b"!e!foo a");
    assert_eq!(p.error, yaml_error_type_t::YAML_PARSER_ERROR);
    assert_eq!(p.problem, Some("found undefined tag handle"));
    assert_eq!(p.context, Some("while parsing a node"));
    assert_eq!((p.problem_mark.index, p.context_mark.index), (0, 0));
}

#[test]
fn anchor_without_content_gives_an_empty_plain_scalar() {
    let (events, p) = parse_with_parser(b"&a");
    assert_eq!(p.error, yaml_error_type_t::YAML_NO_ERROR);
    match &events[2].data {
        yaml_event_data_t::Scalar(d) => {
            assert_eq!(d.anchor, Some(b"a".to_vec()));
            assert_eq!(d.tag, None);
            assert_eq!(d.value, Vec::<u8>::new());
            assert_eq!((d.plain_implicit, d.quoted_implicit), (1, 0));
            assert_eq!(d.style, yaml_scalar_style_t::YAML_PLAIN_SCALAR_STYLE);
        }
        _ => panic!("expected a scalar"),
    }
    assert_eq!((events[2].start_mark.index, events[2].end_mark.index), (0, 2));
}

#[test]
fn default_tag_handle_resolves() {
    let (events, p) = parse_with_parser(b"!!str a");
    assert_eq!(p.error, yaml_error_type_t::YAML_NO_ERROR);
    match &events[2].data {
        yaml_event_data_t::Scalar(d) => {
            assert_eq!(d.tag, Some(b"tag:yaml.org,2002:str".to_vec()));
            assert_eq!(d.value, b"a".to_vec());
            assert_eq!((d.plain_implicit, d.quoted_implicit), (0, 0));
        }
        _ => panic!("expected a scalar"),
    }
    assert_eq!((events[2].start_mark.index, events[2].end_mark.index), (0, 7));
}

#[test]
fn incompatible_version_and_missing_document_start() {
    let (_e, p) = parse_with_parser(b"%YAML 2.0\n--- a\n");
    assert_eq!(p.problem, Some("found incompatible YAML document"));
    let (_e, p) = parse_with_parser(b"%YAML 1.1\n%YAML 1.1\n--- a\n");
    assert_eq!(p.problem, Some("found duplicate %YAML directive"));
    let (_e, p) = parse_with_parser(b"%YAML 1.1\na\n");
    assert_eq!(p.problem, Some("did not find expected <document start>"));
}

#[test]
fn colon_in_flow_plain_scalar_and_block_indicator_zero() {
    let (_e, p) = parse_with_parser(b"[a:,b]");
    assert_eq!(p.problem, Some("found unexpected ':'"));
    let (_e, p) = parse_with_parser(b"|0\n a\n");
    assert_eq!(p.problem, Some("found an indentation indicator equal to 0"));
    let (_e, p) = parse_with_parser(b"@x");
    assert_eq!(p.problem, Some("found character that cannot start any token"));
}

#[test]
fn short_hex_escape_is_marked_after_the_escape_letter() {
    let (_events, p) = parse_with_parser(b"\"\\x4G\"");
    assert_eq!(p.error, yaml_error_type_t::YAML_SCANNER_ERROR);
    assert_eq!(p.problem, Some("did not find expected hexdecimal number"));
    assert_eq!(p.context, Some("while parsing a quoted scalar"));
    assert_eq!((p.problem_mark.index, p.problem_mark.line, p.problem_mark.column), (3, 0, 3));
}

#[test]
fn surrogate_escape_is_an_invalid_code() {
    let (_events, p) = parse_with_parser(b"\"\\uD800\"");
    assert_eq!(p.error, yaml_error_type_t::YAML_SCANNER_ERROR);
    assert_eq!(p.problem, Some("found invalid Unicode character escape code"));
    assert_eq!((p.problem_mark.index, p.problem_mark.line, p.problem_mark.column), (7, 0, 7));
}

#[test]
fn wrong_token_in_block_sequence_is_marked_at_that_token() {
    let (_events, p) = parse_with_parser(b"- a\nb: c");
    assert_eq!(p.error, yaml_error_type_t::YAML_PARSER_ERROR);
    assert_eq!(p.problem, Some("did not find expected '-' indicator"));
    assert!(p.scanner.token_available);
    assert_eq!(p.problem_mark, p.scanner.tokens[0].start_mark);
}

#[test]
fn flow_level_follows_brackets() {
    let mut parser = yaml_parser_initialize();
    yaml_parser_set_input_string(&mut parser, b"[[a], {b: c}]");
    let mut levels = Vec::new();
    for _ in 0..40 {
        let mut tok = yaml_token_empty();
        assert!(yaml_parser_scan(&mut parser, &mut tok));
        if tok.type_ == yaml_token_type_t::YAML_NO_TOKEN {
            break;
        }
        let t = tok.type_;
        if t == yaml_token_type_t::YAML_FLOW_SEQUENCE_START_TOKEN
            || t == yaml_token_type_t::YAML_FLOW_SEQUENCE_END_TOKEN
            || t == yaml_token_type_t::YAML_FLOW_MAPPING_START_TOKEN
            || t == yaml_token_type_t::YAML_FLOW_MAPPING_END_TOKEN
        {
            levels.push(t);
        }
    }
    assert_eq!(levels.len(), 6);
    assert_eq!(parser.scanner.flow_level, 0);
}

#[test]
fn document_start_event_carries_its_directives() {
    let (events, _p) = parse_with_parser(b"%YAML 1.1\n%TAG !e! tag:e.com,2000:\n--- a\n");
    let ds = &events[1];
    assert_eq!(ds.type_, yaml_event_type_t::YAML_DOCUMENT_START_EVENT);
    match &ds.data {
        yaml_event_data_t::DocumentStart(d) => {
            let v = d.version_directive.unwrap();
            assert_eq!((v.major, v.minor), (1, 1));
            assert_eq!(d.tag_directives.items.len(), 1);
            assert_eq!(d.tag_directives.items[0].handle, b"!e!".to_vec());
            assert_eq!(d.tag_directives.items[0].prefix, b"tag:e.com,2000:".to_vec());
            assert_eq!(d.implicit, 0);
        }
        _ => panic!("not a document start"),
    }
}

#[test]
fn uri_escape_without_hex_digits_is_marked_at_the_percent() {
    let (_events, p) = parse_with_parser(b"!<%ZZ> a");
    assert_eq!(p.error, yaml_error_type_t::YAML_SCANNER_ERROR);
    assert_eq!(p.problem, Some("did not find URI escaped octet"));
    assert_eq!(p.context, Some("while parsing a tag"));
    assert_eq!((p.problem_mark.index, p.problem_mark.line, p.problem_mark.column), (2, 0, 2));
}

#[test]
fn uri_escape_with_a_continuation_octet_first_is_refused() {
    let (_events, p) = parse_with_parser(b"!<%80> a");
    assert_eq!(p.error, yaml_error_type_t::YAML_SCANNER_ERROR);
    assert_eq!(p.problem, Some("found an incorrect leading UTF-8 octet"));
    assert_eq!((p.problem_mark.index, p.problem_mark.line, p.problem_mark.column), (2, 0, 2));
}

#[test]
fn doubled_quote_in_single_quotes_is_one_quote() {
    let (events, err) = parse_all(b"'it''s' ");
    assert_eq!(err, yaml_error_type_t::YAML_NO_ERROR);
    assert_eq!(events[2].type_, yaml_event_type_t::YAML_SCALAR_EVENT);
    assert_eq!(scalar_value(&events[2]), b"it's".to_vec());
}

#[test]
fn plain_scalar_stops_at_colon_space() {
    let (events, err) = parse_all(b"key with spaces: v");
    assert_eq!(err, yaml_error_type_t::YAML_NO_ERROR);
    assert_eq!(scalar_value(&events[3]), b"key with spaces".to_vec());
    assert_eq!(scalar_value(&events[4]), b"v".to_vec());
}
