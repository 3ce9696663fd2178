use stackdriver_log::cache::{format_span_fields, SpanCache};
use stackdriver_log::doc::{FieldEntry, Scalar};
use stackdriver_log::parse::parse_fragment;
use stackdriver_log::severity::{severity_bytes, Level};

fn bv(s: &str) -> Vec<u8> {
    s.as_bytes().to_vec()
}

#[test]
fn severity_mapping_is_total_and_distinct() {
    let levels = [Level::Trace, Level::Debug, Level::Info, Level::Warn, Level::Error];
    let expected = ["TRACE", "DEBUG", "INFO", "WARN", "ERROR"];
    let mut seen: Vec<String> = Vec::new();
    for (level, want) in levels.iter().zip(expected.iter()) {
        let text = String::from_utf8(severity_bytes(level)).unwrap();
        assert_eq!(&text, want);
        assert!(!seen.contains(&text), "severities must not collapse");
        seen.push(text);
    }
}

#[test]
fn span_cache_records_and_looks_up_by_identity() {
    let mut cache = SpanCache::new();
    assert!(cache.lookup(1).is_none());
    cache.record(1, bv("{\"a\":1}"));
    cache.record(2, bv("{}"));
    assert_eq!(cache.lookup(1).unwrap(), bv("{\"a\":1}"));
    assert_eq!(cache.lookup(2).unwrap(), bv("{}"));
    assert!(cache.lookup(3).is_none());
}

#[test]
fn span_cache_fresh_recording_wins() {
    let mut cache = SpanCache::new();
    cache.record(9, bv("{\"a\":1}"));
    cache.record(9, bv("{\"a\":2}"));
    assert_eq!(cache.lookup(9).unwrap(), bv("{\"a\":2}"));
}

#[test]
fn rendered_fragments_parse_back_to_their_fields() {
    let fields = vec![
        FieldEntry { key: bv("n"), value: Scalar::UInt(12) },
        FieldEntry { key: bv("neg"), value: Scalar::Int(-3) },
        FieldEntry { key: bv("ok"), value: Scalar::Bool(true) },
        FieldEntry { key: bv("off"), value: Scalar::Bool(false) },
        FieldEntry { key: bv("gap"), value: Scalar::Null },
        FieldEntry { key: bv("who"), value: Scalar::Text(bv("a \"b\"\n")) },
        FieldEntry { key: bv("ratio"), value: Scalar::Num(bv("2.5e-1")) },
        FieldEntry {
            key: bv("trail"),
            value: Scalar::TextList(vec![bv("one"), bv("two")]),
        },
    ];
    let frag = format_span_fields(&fields);
    let parsed = parse_fragment(&frag).expect("own rendering must parse");
    assert_eq!(parsed.len(), fields.len());
    for (p, f) in parsed.iter().zip(fields.iter()) {
        assert_eq!(p.key, f.key);
    }
    // Parsing hands numbers back as rendered text; re-rendering the parsed
    // fields reproduces the fragment byte for byte.
    let again = format_span_fields(&parsed);
    assert_eq!(again, frag);
}

#[test]
fn empty_fragment_parses_to_no_fields() {
    let fields: Vec<FieldEntry> = Vec::new();
    let frag = format_span_fields(&fields);
    assert_eq!(frag, bv("{}"));
    let parsed = parse_fragment(&frag).unwrap();
    assert!(parsed.is_empty());
}

#[test]
fn parser_rejects_what_the_renderer_never_writes() {
    for bad in [
        "",
        "{",
        "}",
        "{} ",
        " {}",
        "{\"a\" :1}",
        "{\"a\":01}",
        "{\"a\":+1}",
        "{\"a\":\"\\x\"}",
        "{\"a\":\"\u{1}\"}",
        "{\"a\":[1]}",
        "{\"a\":{\"b\":1}}",
        "{\"a\":1,}",
        "{,\"a\":1}",
    ] {
        assert!(parse_fragment(&bv(bad)).is_none(), "accepted {:?}", bad);
    }
}

#[test]
fn parser_undoes_canonical_escapes() {
    let fields = vec![FieldEntry {
        key: bv("k"),
        value: Scalar::Text(vec![0x08, 0x09, 0x0a, 0x0c, 0x0d, 0x01, b'"', b'\\']),
    }];
    let frag = format_span_fields(&fields);
    assert_eq!(
        String::from_utf8(frag.clone()).unwrap(),
        "{\"k\":\"\\b\\t\\n\\f\\r\\u0001\\\"\\\\\"}"
    );
    let parsed = parse_fragment(&frag).unwrap();
    assert_eq!(parsed.len(), 1);
    match &parsed[0].value {
        Scalar::Text(t) => {
            assert_eq!(t, &vec![0x08, 0x09, 0x0a, 0x0c, 0x0d, 0x01, b'"', b'\\'])
        }
        other => panic!("expected text, got {:?}", other),
    }
}
