use stackdriver_log::assemble::{close_document, Assembler, Error, SpanInfo};
use stackdriver_log::cache::format_span_fields;
use stackdriver_log::doc::{FieldEntry, JsonObject, Scalar};
use stackdriver_log::severity::Level;
use stackdriver_log::visitor::FieldVisitor;

fn bv(s: &str) -> Vec<u8> {
    s.as_bytes().to_vec()
}

fn parse_line(out: &[u8]) -> serde_json::Value {
    assert_eq!(*out.last().unwrap(), b'\n');
    serde_json::from_slice(&out[..out.len() - 1]).expect("output must be valid JSON")
}

#[test]
fn warning_event_with_one_field_matches_expected_text() {
    let assembler = Assembler::new();
    let fields = vec![FieldEntry { key: bv("retries"), value: Scalar::UInt(3) }];
    let out = assembler
        .assemble(
            &bv("2024-01-02T03:04:05Z"),
            Level::Warn,
            &bv("db"),
            &Some(bv("pool.rs")),
            Some(42),
            None,
            &fields,
        )
        .unwrap();
    let text = String::from_utf8(out).unwrap();
    assert_eq!(
        text,
        "{\"time\":\"2024-01-02T03:04:05Z\",\"severity\":\"WARN\",\"logger\":\"db\",\"logging.googleapis.com/sourceLocation\":{\"file\":\"pool.rs\",\"line\":42},\"retries\":3}\n"
    );
    assert!(text.contains("severity\":\"WARN\""));
    assert!(text.contains("logger\":\"db\""));
    assert!(text.contains("sourceLocation\":{\"file\":\"pool.rs\",\"line\":42}"));
    assert!(text.contains("\"retries\":3"));
    assert!(!text.contains("\"span\""));
}

#[test]
fn absent_file_and_line_serialize_as_null() {
    let assembler = Assembler::new();
    let out = assembler
        .assemble(&bv(""), Level::Info, &bv("app"), &None, None, None, &Vec::new())
        .unwrap();
    let text = String::from_utf8(out.clone()).unwrap();
    assert_eq!(
        text,
        "{\"time\":\"\",\"severity\":\"INFO\",\"logger\":\"app\",\"logging.googleapis.com/sourceLocation\":{\"file\":null,\"line\":null}}\n"
    );
    let v = parse_line(&out);
    assert!(v["logging.googleapis.com/sourceLocation"]["file"].is_null());
    assert!(v["logging.googleapis.com/sourceLocation"]["line"].is_null());
}

#[test]
fn span_disabled_never_emits_span_key() {
    let assembler = Assembler::new();
    let span = SpanInfo { name: bv("request"), fields: Some(bv("{\"a\":1}")) };
    let out = assembler
        .assemble(&bv(""), Level::Debug, &bv("web"), &None, None, Some(&span), &Vec::new())
        .unwrap();
    let v = parse_line(&out);
    assert!(v.get("span").is_none());
}

#[test]
fn span_enabled_merges_cached_fields_and_name() {
    let assembler = Assembler::with_span_logging(true);
    let span_fields = vec![
        FieldEntry { key: bv("a"), value: Scalar::UInt(1) },
        FieldEntry { key: bv("b"), value: Scalar::Text(bv("x")) },
    ];
    let frag = format_span_fields(&span_fields);
    assert_eq!(String::from_utf8(frag.clone()).unwrap(), "{\"a\":1,\"b\":\"x\"}");
    let span = SpanInfo { name: bv("request"), fields: Some(frag) };
    let out = assembler
        .assemble(&bv(""), Level::Info, &bv("web"), &None, None, Some(&span), &Vec::new())
        .unwrap();
    let text = String::from_utf8(out.clone()).unwrap();
    assert!(text.contains("\"span\":{\"a\":1,\"b\":\"x\",\"name\":\"request\"}"));
    let v = parse_line(&out);
    assert_eq!(v["span"]["name"], serde_json::Value::String("request".to_string()));
    assert_eq!(v["span"]["a"], serde_json::Value::from(1u64));
    assert_eq!(v["span"]["b"], serde_json::Value::String("x".to_string()));
}

#[test]
fn missing_span_cache_is_a_serialization_error() {
    let assembler = Assembler::with_span_logging(true);
    let span = SpanInfo { name: bv("request"), fields: None };
    let r = assembler.assemble(
        &bv(""),
        Level::Error,
        &bv("web"),
        &None,
        None,
        Some(&span),
        &Vec::new(),
    );
    assert_eq!(r.unwrap_err(), Error::Serialization);
}

#[test]
fn malformed_span_cache_is_a_serialization_error() {
    let assembler = Assembler::with_span_logging(true);
    for bad in ["not json", "{", "{\"a\":}", "{}trailing", "", "[1,2]", "{\"a\":1,}"] {
        let span = SpanInfo { name: bv("request"), fields: Some(bv(bad)) };
        let r = assembler.assemble(
            &bv(""),
            Level::Warn,
            &bv("web"),
            &None,
            None,
            Some(&span),
            &Vec::new(),
        );
        assert_eq!(r.unwrap_err(), Error::Serialization, "fragment {:?}", bad);
    }
}

#[test]
fn span_enabled_without_current_span_emits_no_span_key() {
    let assembler = Assembler::with_span_logging(true);
    let out = assembler
        .assemble(&bv(""), Level::Trace, &bv("web"), &None, None, None, &Vec::new())
        .unwrap();
    let v = parse_line(&out);
    assert!(v.get("span").is_none());
}

#[test]
fn open_document_and_visitor_build_one_object() {
    let assembler = Assembler::new();
    let obj = assembler
        .open_document(&bv("t0"), Level::Info, &bv("core"), &None, Some(7), None)
        .unwrap();
    let mut visitor = FieldVisitor::new(obj);
    visitor.record_u64(bv("n"), 5);
    visitor.record_bool(bv("ok"), true);
    let obj = visitor.finish();
    let out = close_document(obj);
    let text = String::from_utf8(out).unwrap();
    assert_eq!(
        text,
        "{\"time\":\"t0\",\"severity\":\"INFO\",\"logger\":\"core\",\"logging.googleapis.com/sourceLocation\":{\"file\":null,\"line\":7},\"n\":5,\"ok\":true}\n"
    );
}

#[test]
fn assemble_now_emits_valid_json_with_a_time_string() {
    let assembler = Assembler::new();
    let out = assembler
        .assemble_now(Level::Info, &bv("clocked"), &None, None, None, &Vec::new())
        .unwrap();
    let v = parse_line(&out);
    assert!(v["time"].is_string());
    let time = v["time"].as_str().unwrap();
    // A wall-clock RFC 3339 stamp mentions a year and the UTC marker.
    assert!(time.contains('T') && time.contains(':'));
}

#[test]
fn caller_fields_follow_the_envelope_in_order() {
    let assembler = Assembler::new();
    let fields = vec![
        FieldEntry { key: bv("z"), value: Scalar::UInt(1) },
        FieldEntry { key: bv("a"), value: Scalar::UInt(2) },
    ];
    let out = assembler
        .assemble(&bv(""), Level::Info, &bv("x"), &None, None, None, &fields)
        .unwrap();
    let text = String::from_utf8(out).unwrap();
    let z = text.find("\"z\":1").unwrap();
    let a = text.find("\"a\":2").unwrap();
    assert!(z < a, "insertion order must be kept: {}", text);
}

#[test]
fn empty_document_closes_cleanly() {
    let obj = JsonObject::new();
    let out = close_document(obj);
    assert_eq!(String::from_utf8(out).unwrap(), "{}\n");
}
