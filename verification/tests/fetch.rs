use ratspeak_nomad::{classify, encode_form_payload, FetchedContent};

#[test]
fn classifies_html_by_extension() {
    assert_eq!(
        classify("/page/index.html", b"hi".to_vec()),
        FetchedContent::Html(b"hi".to_vec())
    );
    assert_eq!(
        classify("/page/index.htm", b"hi".to_vec()),
        FetchedContent::Html(b"hi".to_vec())
    );
}

#[test]
fn classifies_micron_by_extension() {
    assert_eq!(
        classify("/page/index.mu", b"hi".to_vec()),
        FetchedContent::Micron(b"hi".to_vec())
    );
}

#[test]
fn classifies_uppercase_extension() {
    assert_eq!(
        classify("/page/INDEX.HTML", b"hi".to_vec()),
        FetchedContent::Html(b"hi".to_vec())
    );
}

#[test]
fn classifies_anything_else_as_file_with_last_segment_as_name() {
    assert_eq!(
        classify("/file/report.pdf", b"data".to_vec()),
        FetchedContent::File {
            name: "report.pdf".to_string(),
            bytes: b"data".to_vec(),
        }
    );
}

#[test]
fn classifies_extensionless_path_as_file() {
    assert_eq!(
        classify("/page/index", b"data".to_vec()),
        FetchedContent::File {
            name: "index".to_string(),
            bytes: b"data".to_vec(),
        }
    );
}

fn decode_payload(bytes: &[u8]) -> rmpv::Value {
    rmpv::decode::read_value(&mut &bytes[..]).expect("valid msgpack")
}

#[test]
fn empty_query_encodes_to_no_payload_at_all() {
    assert_eq!(encode_form_payload(""), Vec::<u8>::new());
}

#[test]
fn encodes_a_single_field_as_a_msgpack_map() {
    let payload = encode_form_payload("field_username=alice");
    let value = decode_payload(&payload);
    assert_eq!(
        value,
        rmpv::Value::Map(vec![(
            rmpv::Value::from("field_username"),
            rmpv::Value::from("alice")
        )])
    );
}

#[test]
fn percent_decodes_keys_and_values() {
    let payload = encode_form_payload("field_full%20name=Jane%20Doe%2C%20Jr.");
    let value = decode_payload(&payload);
    assert_eq!(
        value,
        rmpv::Value::Map(vec![(
            rmpv::Value::from("field_full name"),
            rmpv::Value::from("Jane Doe, Jr.")
        )])
    );
}

#[test]
fn plus_decodes_to_a_literal_space() {
    let payload = encode_form_payload("field_name=Jane+Doe");
    let value = decode_payload(&payload);
    assert_eq!(
        value,
        rmpv::Value::Map(vec![(
            rmpv::Value::from("field_name"),
            rmpv::Value::from("Jane Doe")
        )])
    );
}

#[test]
fn repeated_keys_comma_join_like_a_checkbox_group() {
    let payload = encode_form_payload("field_colors=red&field_colors=blue&field_colors=green");
    let value = decode_payload(&payload);
    assert_eq!(
        value,
        rmpv::Value::Map(vec![(
            rmpv::Value::from("field_colors"),
            rmpv::Value::from("red,blue,green")
        )])
    );
}

#[test]
fn multiple_distinct_fields_all_present() {
    let payload = encode_form_payload("field_username=alice&field_password=hunter2");
    let value = decode_payload(&payload);
    assert_eq!(
        value,
        rmpv::Value::Map(vec![
            (rmpv::Value::from("field_username"), rmpv::Value::from("alice")),
            (rmpv::Value::from("field_password"), rmpv::Value::from("hunter2")),
        ])
    );
}
