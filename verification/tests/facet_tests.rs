use rustysky::facet::{extract_facets, Feature};
use rustysky::hashtags::parse_hashtags;
use rustysky::links::parse_urls;
use rustysky::mentions::parse_mentions;

fn bytes(s: &str) -> Vec<u8> {
    s.as_bytes().to_vec()
}

#[test]
fn mention_byte_offsets_account_for_multibyte_text() {
    // The `é` is two bytes, so the mention starts at byte 7, not char 6.
    let text = bytes("héllo @alice.bsky.social");
    let mentions = parse_mentions(&text);
    assert_eq!(mentions.len(), 1);
    assert_eq!(mentions[0].start, 7);
    assert_eq!(mentions[0].end, 25);
    assert_eq!(mentions[0].handle, bytes("alice.bsky.social"));
}

#[test]
fn mention_requires_boundary_before_at() {
    // An address-like string embedded after a word character is no mention.
    let text = bytes("[email protected]");
    assert_eq!(parse_mentions(&text).len(), 0);
    // A mention at the very start of the text has no boundary byte before it.
    let text = bytes("@alice.bsky.social");
    assert_eq!(parse_mentions(&text).len(), 0);
}

#[test]
fn mention_grammar_rejects_malformed_handles() {
    assert_eq!(parse_mentions(&bytes(" @alice")).len(), 0); // no dot
    assert_eq!(parse_mentions(&bytes(" @alice.1x")).len(), 0); // final label starts with digit
    assert_eq!(parse_mentions(&bytes(" @-a.bc")).len(), 0); // label starts with hyphen
    let m = parse_mentions(&bytes(" @a.b."));
    // the trailing dot is not part of the match
    assert_eq!(m.len(), 1);
    assert_eq!(m[0].handle, bytes("a.b"));
}

#[test]
fn two_mentions_give_two_tight_spans() {
    let text = bytes("one @a.bc two @d.ef");
    let mentions = parse_mentions(&text);
    assert_eq!(mentions.len(), 2);
    assert_eq!((mentions[0].start, mentions[0].end), (4, 9));
    assert_eq!((mentions[1].start, mentions[1].end), (14, 19));
}

#[test]
fn link_is_found_with_byte_span() {
    let text = bytes("Hi @alice.bsky.social, here is a link: https://www.google.com");
    let urls = parse_urls(&text);
    assert_eq!(urls.len(), 1);
    assert_eq!(urls[0].start, 39);
    assert_eq!(urls[0].end, 61);
    assert_eq!(urls[0].url, bytes("https://www.google.com"));
}

#[test]
fn link_rules() {
    assert_eq!(parse_urls(&bytes(" http://nodot")).len(), 0); // host needs a dot
    assert_eq!(parse_urls(&bytes("https://a.bc")).len(), 0); // no boundary at text start
    let u = parse_urls(&bytes(" HTTPS://a.bc/x?q=1")); // scheme case-insensitive
    assert_eq!(u.len(), 1);
    assert_eq!(u[0].url, bytes("HTTPS://a.bc/x?q=1"));
    let u = parse_urls(&bytes(" https://a.bc.")); // trailing dot excluded
    assert_eq!(u.len(), 1);
    assert_eq!(u[0].url, bytes("https://a.bc"));
}

#[test]
fn bare_hash_gives_no_hashtag() {
    assert_eq!(parse_hashtags(&bytes("a # b")).len(), 0);
    assert_eq!(parse_hashtags(&bytes("#")).len(), 0);
    assert_eq!(parse_hashtags(&bytes("#1abc")).len(), 0); // must start with a letter
}

#[test]
fn hashtag_spans_exclude_the_hash() {
    let text = bytes("see #tag and #øther");
    let tags = parse_hashtags(&text);
    assert_eq!(tags.len(), 2);
    assert_eq!(tags[0].tag, bytes("tag"));
    assert_eq!((tags[0].start, tags[0].end), (5, 8));
    assert_eq!(tags[1].tag, bytes("øther"));
}

#[test]
fn hashtag_needs_word_boundary() {
    assert_eq!(parse_hashtags(&bytes("a#tag")).len(), 0);
    assert_eq!(parse_hashtags(&bytes("#tag")).len(), 1);
    assert_eq!(parse_hashtags(&bytes("##tag")).len(), 1);
}

#[test]
fn overlong_hashtag_fails_to_match() {
    let ok = format!("#{}", "a".repeat(60));
    assert_eq!(parse_hashtags(&bytes(&ok)).len(), 1);
    let too_long = format!("#{}", "a".repeat(61));
    assert_eq!(parse_hashtags(&bytes(&too_long)).len(), 0);
}

#[test]
fn facets_are_one_per_match_in_fixed_order() {
    let text = bytes("by @a.bc see https://x.yz and #tag");
    let did = bytes("did:plc:me");
    let facets = extract_facets(&text, &did);
    assert_eq!(facets.len(), 3);
    // mentions first, then links, then hashtags; one feature each
    assert_eq!(facets[0].features.len(), 1);
    match &facets[0].features[0] {
        Feature::Mention(m) => assert_eq!(m.did, bytes("did:plc:me")),
        _ => panic!("expected a mention feature"),
    }
    assert_eq!((facets[0].index.byte_start, facets[0].index.byte_end), (3, 8));
    match &facets[1].features[0] {
        Feature::Link(l) => assert_eq!(l.uri, bytes("https://x.yz")),
        _ => panic!("expected a link feature"),
    }
    assert_eq!((facets[1].index.byte_start, facets[1].index.byte_end), (13, 25));
    match &facets[2].features[0] {
        Feature::Hashtag(h) => assert_eq!(h.tag, bytes("tag")),
        _ => panic!("expected a hashtag feature"),
    }
    assert_eq!((facets[2].index.byte_start, facets[2].index.byte_end), (31, 34));
}

#[test]
fn no_matches_no_facets() {
    let text = bytes("just plain words");
    let did = bytes("did:plc:me");
    assert_eq!(extract_facets(&text, &did).len(), 0);
}

#[test]
fn mention_handle_is_greedy() {
    let m = parse_mentions(&bytes(" @a.b.c.d rest"));
    assert_eq!(m.len(), 1);
    assert_eq!(m[0].handle, bytes("a.b.c.d"));
}

#[test]
fn label_length_cap_is_sixtythree_bytes() {
    let long_label = "a".repeat(63);
    let ok = format!(" @{}.bc", long_label);
    assert_eq!(parse_mentions(&bytes(&ok)).len(), 1);
    let too_long = format!(" @{}a.bc", long_label);
    assert_eq!(parse_mentions(&bytes(&too_long)).len(), 0);
}

#[test]
fn hashtag_head_and_body_must_be_letter_like() {
    // the euro sign and emoji are symbols, not letters: no facet at all
    assert_eq!(parse_hashtags(&bytes("a #\u{20ac}")).len(), 0);
    assert_eq!(parse_hashtags(&bytes("x #\u{1f4a5}y")).len(), 0);
    // a combining mark may continue a tag
    let tags = parse_hashtags(&bytes("#cafe\u{301}"));
    assert_eq!(tags.len(), 1);
    assert_eq!(tags[0].tag, "cafe\u{301}".as_bytes().to_vec());
    // a symbol ends the tag run
    let tags = parse_hashtags(&bytes("#a\u{20ac}b"));
    assert_eq!(tags.len(), 1);
    assert_eq!(tags[0].tag, bytes("a"));
}

#[test]
fn link_host_needs_a_dot_before_the_path() {
    // the only dot sits in the path, not the host: no link
    assert_eq!(parse_urls(&bytes("x http://ab/c.d")).len(), 0);
    let u = parse_urls(&bytes(" http://a.b/c.d"));
    assert_eq!(u.len(), 1);
    assert_eq!(u[0].url, bytes("http://a.b/c.d"));
}

#[test]
fn multibyte_punctuation_is_a_boundary_but_letters_are_not() {
    // a guillemet or an emoji before the match is a word boundary
    let u = parse_urls(&bytes("\u{ab}https://a.bc"));
    assert_eq!(u.len(), 1);
    assert_eq!(u[0].url, bytes("https://a.bc"));
    let m = parse_mentions(&bytes("\u{1f642}@a.bc"));
    assert_eq!(m.len(), 1);
    // a non-ASCII letter is a word character: no boundary before the @
    assert_eq!(parse_mentions(&bytes("é@a.bc")).len(), 0);
    assert_eq!(parse_hashtags(&bytes("é#tag")).len(), 0);
    assert_eq!(parse_hashtags(&bytes("\u{2014}#tag")).len(), 1); // em dash
}
