use rustysky::jsonio::post_to_json;
use rustysky::jsonparse::post_from_json;
use rustysky::post::{date_utc_as_iso8601, Post, SelfLabel, SelfLabels};

fn bytes(s: &str) -> Vec<u8> {
    s.as_bytes().to_vec()
}

fn build(text: &str) -> Post {
    Post::new(
        text,
        &bytes("did:plc:me"),
        bytes("2024-01-02T03:04:05.006Z"),
        None,
        None,
        None,
    )
    .unwrap()
}

#[test]
fn empty_text_is_rejected() {
    let r = Post::new("", &bytes("did:plc:me"), bytes("t"), None, None, None);
    assert!(r.is_err());
}

#[test]
fn record_without_matches_serializes_without_facets() {
    let post = build("plain words only");
    assert!(post.facets.is_none());
    let json = post_to_json(&post);
    let s = String::from_utf8(json).unwrap();
    assert_eq!(
        s,
        "{\"$type\":\"app.bsky.feed.post\",\"createdAt\":\"2024-01-02T03:04:05.006Z\",\
         \"text\":\"plain words only\"}"
    );
    assert!(!s.contains("facets"));
}

#[test]
fn record_with_mention_serializes_facet_with_byte_range() {
    let post = build("hi @alice.bsky.social");
    let json = post_to_json(&post);
    let s = String::from_utf8(json).unwrap();
    assert_eq!(
        s,
        "{\"$type\":\"app.bsky.feed.post\",\"createdAt\":\"2024-01-02T03:04:05.006Z\",\
         \"text\":\"hi @alice.bsky.social\",\"facets\":[{\"index\":{\"byteStart\":3,\
         \"byteEnd\":21},\"features\":[{\"$type\":\"app.bsky.richtext.facet#mention\",\
         \"did\":\"did:plc:me\"}]}]}"
    );
}

#[test]
fn strings_are_escaped() {
    let post = build("a\"b\\c\nd\te\u{1}");
    let json = post_to_json(&post);
    let s = String::from_utf8(json).unwrap();
    assert!(s.contains("\"text\":\"a\\\"b\\\\c\\nd\\te\\u0001\""));
}

#[test]
fn reparse_and_reserialize_is_byte_identical() {
    let post = build("no matches in this text, just words");
    let json = post_to_json(&post);
    let parsed = post_from_json(&json).expect("canonical output must parse");
    let json2 = post_to_json(&parsed);
    assert_eq!(json, json2);
}

#[test]
fn reparse_and_reserialize_with_all_sections() {
    let post = Post::new(
        "by @a.bc see https://x.yz and #tag with \"quotes\" and é",
        &bytes("did:plc:me"),
        bytes("2024-01-02T03:04:05.006Z"),
        Some(vec![bytes("en"), bytes("de")]),
        Some(vec![bytes("tag1"), bytes("tag2")]),
        Some(SelfLabels {
            selflabels_type: bytes("com.atproto.label.defs#selfLabels"),
            values: vec![SelfLabel { val: bytes("porn") }],
        }),
    )
    .unwrap();
    let json = post_to_json(&post);
    let parsed = post_from_json(&json).expect("canonical output must parse");
    let json2 = post_to_json(&parsed);
    assert_eq!(json, json2);
}

#[test]
fn non_canonical_input_is_rejected() {
    assert!(post_from_json(&bytes("{}")).is_none());
    assert!(post_from_json(&Vec::new()).is_none());
    // trailing garbage after the closing brace
    let post = build("plain");
    let mut json = post_to_json(&post);
    json.push(b' ');
    assert!(post_from_json(&json).is_none());
}

#[test]
fn date_is_rendered_as_iso8601_utc_with_millis() {
    let d = date_utc_as_iso8601(0).unwrap();
    assert_eq!(String::from_utf8(d).unwrap(), "1970-01-01T00:00:00.000Z");
    let d = date_utc_as_iso8601(86_400_000 + 3_723_004).unwrap();
    assert_eq!(String::from_utf8(d).unwrap(), "1970-01-02T01:02:03.004Z");
}
