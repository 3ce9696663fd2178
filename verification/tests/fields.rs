use stackdriver_log::assemble::close_document;
use stackdriver_log::doc::JsonObject;
use stackdriver_log::visitor::FieldVisitor;

fn bv(s: &str) -> Vec<u8> {
    s.as_bytes().to_vec()
}

fn finish_text(visitor: FieldVisitor) -> String {
    let out = close_document(visitor.finish());
    String::from_utf8(out).unwrap()
}

fn fresh() -> FieldVisitor {
    FieldVisitor::new(JsonObject::new())
}

#[test]
fn each_value_category_appears_under_its_key_with_its_json_type() {
    let mut visitor = fresh();
    visitor.record_i64(bv("signed"), -7);
    visitor.record_u64(bv("unsigned"), 7);
    visitor.record_bool(bv("flag"), false);
    visitor.record_str(bv("text"), bv("hello"));
    visitor.record_float_text(bv("ratio"), bv("0.5"));
    visitor.record_debug(bv("debugged"), bv("Thing { n: 1 }"));
    let text = finish_text(visitor);
    let v: serde_json::Value = serde_json::from_str(text.trim_end()).unwrap();
    assert_eq!(v["signed"], serde_json::Value::from(-7i64));
    assert_eq!(v["unsigned"], serde_json::Value::from(7u64));
    assert_eq!(v["flag"], serde_json::Value::from(false));
    assert_eq!(v["text"], serde_json::Value::from("hello"));
    assert_eq!(v["ratio"], serde_json::Value::from(0.5f64));
    assert_eq!(v["debugged"], serde_json::Value::from("Thing { n: 1 }"));
}

#[test]
fn integer_extremes_render_exactly() {
    let mut visitor = fresh();
    visitor.record_i64(bv("min"), i64::MIN);
    visitor.record_i64(bv("max"), i64::MAX);
    visitor.record_i64(bv("zero"), 0);
    visitor.record_u64(bv("umax"), u64::MAX);
    let text = finish_text(visitor);
    assert_eq!(
        text,
        "{\"min\":-9223372036854775808,\"max\":9223372036854775807,\"zero\":0,\"umax\":18446744073709551615}\n"
    );
}

#[test]
fn strings_are_escaped_as_json_demands() {
    let mut visitor = fresh();
    visitor.record_str(bv("quotes"), bv("say \"hi\""));
    visitor.record_str(bv("backslash"), bv("a\\b"));
    visitor.record_str(bv("newline"), bv("line1\nline2"));
    visitor.record_str(bv("tab"), bv("a\tb"));
    visitor.record_str(bv("control"), vec![0x01]);
    visitor.record_str(bv("unicode"), bv("héllo"));
    let text = finish_text(visitor);
    assert!(text.contains("\"quotes\":\"say \\\"hi\\\"\""));
    assert!(text.contains("\"backslash\":\"a\\\\b\""));
    assert!(text.contains("\"newline\":\"line1\\nline2\""));
    assert!(text.contains("\"tab\":\"a\\tb\""));
    assert!(text.contains("\"control\":\"\\u0001\""));
    let v: serde_json::Value = serde_json::from_str(text.trim_end()).unwrap();
    assert_eq!(v["quotes"], serde_json::Value::from("say \"hi\""));
    assert_eq!(v["newline"], serde_json::Value::from("line1\nline2"));
    assert_eq!(v["control"], serde_json::Value::from("\u{1}"));
    assert_eq!(v["unicode"], serde_json::Value::from("héllo"));
}

#[test]
fn float_text_falls_back_to_a_string_when_not_a_number() {
    let mut visitor = fresh();
    visitor.record_float_text(bv("good"), bv("-12.5e3"));
    visitor.record_float_text(bv("nonfinite"), bv("null"));
    visitor.record_float_text(bv("leading_zero"), bv("012"));
    visitor.record_float_text(bv("garbage"), bv("fast"));
    let text = finish_text(visitor);
    assert_eq!(
        text,
        "{\"good\":-12.5e3,\"nonfinite\":null,\"leading_zero\":\"012\",\"garbage\":\"fast\"}\n"
    );
}

#[test]
fn error_without_causes_yields_only_the_message_field() {
    let mut visitor = fresh();
    visitor.record_error(bv("fault"), bv("it broke"), Vec::new());
    let text = finish_text(visitor);
    assert_eq!(text, "{\"fault\":\"it broke\"}\n");
    assert!(!text.contains(".sources"));
}

#[test]
fn error_with_causes_yields_an_ordered_sources_array() {
    let mut visitor = fresh();
    visitor.record_error(
        bv("fault"),
        bv("request failed"),
        vec![bv("connection reset"), bv("socket closed")],
    );
    let text = finish_text(visitor);
    assert_eq!(
        text,
        "{\"fault\":\"request failed\",\"fault.sources\":[\"connection reset\",\"socket closed\"]}\n"
    );
    let v: serde_json::Value = serde_json::from_str(text.trim_end()).unwrap();
    let sources = v["fault.sources"].as_array().unwrap();
    assert_eq!(sources.len(), 2);
    assert_eq!(sources[0], serde_json::Value::from("connection reset"));
    assert_eq!(sources[1], serde_json::Value::from("socket closed"));
}

#[test]
fn every_output_is_valid_json_even_for_hostile_inputs() {
    let nasty: &[&str] = &[
        "",
        "\"",
        "\\",
        "{\"a\":1}",
        "\n\r\t",
        "\u{0}\u{1f}",
        "ключ",
        "a,b:c}d{e]f[",
    ];
    for (i, k) in nasty.iter().enumerate() {
        let mut visitor = fresh();
        visitor.record_str(bv(&format!("k{}", i)), bv(k));
        visitor.record_str(bv(k), bv("v"));
        let text = finish_text(visitor);
        let parsed: Result<serde_json::Value, _> = serde_json::from_str(text.trim_end());
        assert!(parsed.is_ok(), "not valid JSON for {:?}: {}", k, text);
    }
}
