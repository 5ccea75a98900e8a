use pub_cli::gh::array_items;
use pub_cli::gh::member;
use pub_cli::gh::reply;
use pub_cli::gh::segment;
use pub_cli::gh::string_items;
use pub_cli::gh::text_value;
use pub_cli::gh::Reply;

#[test]
fn segments_are_encoded_for_paths() {
    assert_eq!(segment("kind/bug"), "kind%2Fbug");
    assert_eq!(segment("good first issue"), "good%20first%20issue");
    assert_eq!(segment("prio-p0.x_y~"), "prio-p0.x_y~");
}

#[test]
fn segments_encode_each_byte_of_a_multibyte_character() {
    assert_eq!(segment("é"), "%C3%A9");
    assert_eq!(segment(""), "");
    assert_eq!(segment("%"), "%25");
}

#[test]
fn a_segment_decodes_back_to_its_name() {
    let raw = "a/b c%d é";
    let encoded = segment(raw);
    let mut bytes = Vec::new();
    let b = encoded.as_bytes();
    let mut i = 0;
    while i < b.len() {
        if b[i] == b'%' {
            bytes.push(u8::from_str_radix(&encoded[i + 1..i + 3], 16).unwrap());
            i += 3;
        } else {
            bytes.push(b[i]);
            i += 1;
        }
    }
    assert_eq!(String::from_utf8(bytes).unwrap(), raw);
}

fn body(r: Result<Reply, String>) -> Option<Option<String>> {
    match r.unwrap() {
        Reply::Body(text) => Some(text),
        Reply::NotFound => None,
    }
}

#[test]
fn an_empty_answer_is_a_null_body() {
    assert_eq!(body(reply("GET", "/x", true, b"", b"")), Some(None));
    assert_eq!(body(reply("GET", "/x", true, b" \n\t ", b"")), Some(None));
}

#[test]
fn a_json_answer_is_its_text() {
    let text = br#"{"a": [1, 2]}"#;
    assert_eq!(
        body(reply("GET", "/x", true, text, b"noise")),
        Some(Some(r#"{"a": [1, 2]}"#.to_string()))
    );
}

#[test]
fn an_answer_that_is_not_json_is_an_error_naming_the_call() {
    let e = reply("PATCH", "/repos/o/r", true, b"{nope", b"").err().unwrap();
    assert!(e.starts_with("gh api PATCH /repos/o/r: bad JSON: "), "{e}");
    assert!(e.len() > "gh api PATCH /repos/o/r: bad JSON: ".len());
}

#[test]
fn a_404_is_not_found_and_other_failures_carry_stderr() {
    assert_eq!(body(reply("GET", "/x", false, b"", b"gh: Not Found (HTTP 404)\n")), None);
    assert_eq!(
        reply("GET", "/repos/o/r", false, b"{}", b"  gh: Forbidden (HTTP 403)\n").err(),
        Some("gh api GET /repos/o/r: gh: Forbidden (HTTP 403)".to_string())
    );
    assert_eq!(reply("DELETE", "/x", false, b"", b"").err(), Some("gh api DELETE /x: ".to_string()));
}

#[test]
fn json_members_items_and_strings_are_read_one_level_at_a_time() {
    let text = r#"{"name": "kind/bug", "list": ["a", {"b": 1}, "c"], "n": 2}"#;
    assert_eq!(member(text, "name").as_deref(), Some(r#""kind/bug""#));
    assert_eq!(text_value(&member(text, "name").unwrap()).as_deref(), Some("kind/bug"));
    assert_eq!(member(text, "missing"), None);
    assert_eq!(member("[1]", "name"), None);
    assert_eq!(text_value(&member(text, "n").unwrap()), None);
    let items = array_items(&member(text, "list").unwrap());
    assert_eq!(items.len(), 3);
    assert_eq!(string_items(&items), vec!["a".to_string(), "c".to_string()]);
    assert!(array_items("{}").is_empty());
    assert!(array_items("not json").is_empty());
}

#[test]
fn a_segment_holds_only_safe_characters() {
    let encoded = segment("a/b c?d#e é~_.-%");
    assert!(encoded
        .chars()
        .all(|c| c.is_ascii_alphanumeric() || "-._~%".contains(c)), "{encoded}");
    assert_eq!(encoded, "a%2Fb%20c%3Fd%23e%20%C3%A9~_.-%25");
}
