//! Facets: byte-range annotations over post text.
//!
//! A facet pairs a byte range of the text's UTF-8 encoding with the
//! features that apply to exactly that range. Extraction runs the three
//! scanners over the same text and emits one facet per match, in a fixed
//! order: mentions, then links, then hashtags. A facet's range is always
//! the tight span of its own match, never widened over unrelated text.

use crate::hashtags::{hashtag_ok, hashtag_spans, lemma_hashtag_spans_sound,
    lemma_tag_run_end_boundary, parse_hashtags};
use crate::links::{is_link_at, lemma_url_spans_sound, parse_urls, scheme_len_at, url_spans};
use crate::mentions::{is_handle, is_label_seq, lemma_label_seq_last, lemma_mention_spans_sound,
    mention_spans, parse_mentions};
use crate::scanning::{copy_range, lemma_boundary_after_ascii, lemma_boundary_at_noncontinuation};
use vstd::prelude::*;

verus! {

/// A byte range into the UTF-8 encoding of the post text, with
/// `byte_start <= byte_end <= text length`.
pub struct FacetIndex {
    pub byte_start: usize,
    pub byte_end: usize,
}

pub struct LinkFeature {
    pub uri: Vec<u8>,
}

pub struct MentionFeature {
    pub did: Vec<u8>,
}

pub struct HashtagFeature {
    pub tag: Vec<u8>,
}

/// The closed set of feature kinds a facet can carry. Each variant has a
/// fixed protocol type tag used during serialization.
pub enum Feature {
    Link(LinkFeature),
    Mention(MentionFeature),
    Hashtag(HashtagFeature),
}

/// A byte range plus the features that apply to exactly that range; the
/// feature list of an extracted facet always holds exactly one feature.
pub struct Facet {
    pub index: FacetIndex,
    pub features: Vec<Feature>,
}

pub open spec fn facet_is_mention(f: Facet, sp: (int, int), did: Seq<u8>) -> bool {
    &&& f.index.byte_start == sp.0
    &&& f.index.byte_end == sp.1
    &&& f.features@.len() == 1
    &&& f.features@[0] matches Feature::Mention(m) && m.did@ == did
}

pub open spec fn facet_is_link(f: Facet, sp: (int, int), t: Seq<u8>) -> bool {
    &&& f.index.byte_start == sp.0
    &&& f.index.byte_end == sp.1
    &&& f.features@.len() == 1
    &&& f.features@[0] matches Feature::Link(l) && l.uri@ == t.subrange(sp.0, sp.1)
}

pub open spec fn facet_is_hashtag(f: Facet, sp: (int, int), t: Seq<u8>) -> bool {
    &&& f.index.byte_start == sp.0
    &&& f.index.byte_end == sp.1
    &&& f.features@.len() == 1
    &&& f.features@[0] matches Feature::Hashtag(h) && h.tag@ == t.subrange(sp.0, sp.1)
}

/// The facets of `t`: one per mention span, then one per link span, then
/// one per hashtag span, each carrying exactly the feature of its own
/// match.
pub open spec fn facets_correspond(fs: Seq<Facet>, t: Seq<u8>, did: Seq<u8>) -> bool {
    let m = mention_spans(t);
    let u = url_spans(t);
    let h = hashtag_spans(t);
    &&& fs.len() == m.len() + u.len() + h.len()
    &&& (forall|k: int| 0 <= k < m.len() ==> facet_is_mention(#[trigger] fs[k], m[k], did))
    &&& (forall|k: int|
        m.len() <= k < m.len() + u.len() ==> facet_is_link(#[trigger] fs[k], u[k - m.len()], t))
    &&& (forall|k: int|
        m.len() + u.len() <= k < fs.len() ==> facet_is_hashtag(
            #[trigger] fs[k],
            h[k - m.len() - u.len()],
            t,
        ))
}

/// Total number of matches in `t` across all three scanners.
pub open spec fn total_matches(t: Seq<u8>) -> int {
    mention_spans(t).len() + url_spans(t).len() + hashtag_spans(t).len() as int
}

/// Extracts all facets of `text`, in the fixed order mentions, links,
/// hashtags. Every mention feature carries `did`, the caller-resolved
/// identifier for the mentioned account.
pub fn extract_facets(text: &Vec<u8>, did: &Vec<u8>) -> (r: Vec<Facet>)
    ensures
        facets_correspond(r@, text@, did@),
        r@.len() == total_matches(text@),
{
    let mentions = parse_mentions(text);
    let urls = parse_urls(text);
    let hashtags = parse_hashtags(text);
    let mut r: Vec<Facet> = Vec::new();
    let ghost m = mention_spans(text@);
    let ghost u = url_spans(text@);
    let ghost h = hashtag_spans(text@);
    let mut k: usize = 0;
    while k < mentions.len()
        invariant
            m == mention_spans(text@),
            mentions@.len() == m.len(),
            forall|j: int|
                0 <= j < mentions@.len() ==> {
                    let sp = #[trigger] mention_spans(text@)[j];
                    mentions@[j].start == sp.0 && mentions@[j].end == sp.1
                },
            k <= mentions.len(),
            r@.len() == k,
            forall|j: int| 0 <= j < k ==> facet_is_mention(#[trigger] r@[j], m[j], did@),
        decreases mentions.len() - k,
    {
        let sp = &mentions[k];
        proof {
            assert(mentions@[k as int].start == mention_spans(text@)[k as int].0);
            assert(did@.subrange(0, did@.len() as int) =~= did@);
        }
        let mut features: Vec<Feature> = Vec::new();
        features.push(Feature::Mention(MentionFeature { did: copy_range(did, 0, did.len()) }));
        r.push(Facet { index: FacetIndex { byte_start: sp.start, byte_end: sp.end }, features });
        k = k + 1;
    }
    let mut k: usize = 0;
    while k < urls.len()
        invariant
            m == mention_spans(text@),
            u == url_spans(text@),
            urls@.len() == u.len(),
            forall|j: int|
                0 <= j < urls@.len() ==> {
                    let sp = #[trigger] url_spans(text@)[j];
                    urls@[j].start == sp.0 && urls@[j].end == sp.1 && urls@[j].url@
                        == text@.subrange(sp.0, sp.1) && urls@[j].start < urls@[j].end
                        <= text@.len()
                },
            k <= urls.len(),
            r@.len() == m.len() + k,
            forall|j: int| 0 <= j < m.len() ==> facet_is_mention(#[trigger] r@[j], m[j], did@),
            forall|j: int|
                m.len() <= j < m.len() + k ==> facet_is_link(#[trigger] r@[j], u[j - m.len()], text@),
        decreases urls.len() - k,
    {
        let sp = &urls[k];
        proof {
            assert(urls@[k as int].start == url_spans(text@)[k as int].0);
        }
        let mut features: Vec<Feature> = Vec::new();
        features.push(Feature::Link(LinkFeature { uri: copy_range(text, sp.start, sp.end) }));
        proof {
            assert(urls@[k as int].start == u[k as int].0 && urls@[k as int].end == u[k as int].1);
        }
        r.push(Facet { index: FacetIndex { byte_start: sp.start, byte_end: sp.end }, features });
        k = k + 1;
    }
    let mut k: usize = 0;
    while k < hashtags.len()
        invariant
            m == mention_spans(text@),
            u == url_spans(text@),
            h == hashtag_spans(text@),
            hashtags@.len() == h.len(),
            forall|j: int|
                0 <= j < hashtags@.len() ==> {
                    let sp = #[trigger] hashtag_spans(text@)[j];
                    hashtags@[j].start == sp.0 && hashtags@[j].end == sp.1 && hashtags@[j].tag@
                        == text@.subrange(sp.0, sp.1) && hashtags@[j].start < hashtags@[j].end
                        <= text@.len()
                },
            k <= hashtags.len(),
            r@.len() == m.len() + u.len() + k,
            forall|j: int| 0 <= j < m.len() ==> facet_is_mention(#[trigger] r@[j], m[j], did@),
            forall|j: int|
                m.len() <= j < m.len() + u.len() ==> facet_is_link(
                    #[trigger] r@[j],
                    u[j - m.len()],
                    text@,
                ),
            forall|j: int|
                m.len() + u.len() <= j < r@.len() ==> facet_is_hashtag(
                    #[trigger] r@[j],
                    h[j - m.len() - u.len()],
                    text@,
                ),
        decreases hashtags.len() - k,
    {
        let sp = &hashtags[k];
        proof {
            assert(hashtags@[k as int].start == hashtag_spans(text@)[k as int].0);
        }
        let mut features: Vec<Feature> = Vec::new();
        features.push(Feature::Hashtag(HashtagFeature { tag: copy_range(text, sp.start, sp.end) }));
        proof {
            assert(hashtags@[k as int].start == h[k as int].0 && hashtags@[k as int].end
                == h[k as int].1);
        }
        r.push(Facet { index: FacetIndex { byte_start: sp.start, byte_end: sp.end }, features });
        k = k + 1;
    }
    r
}


/// In valid UTF-8 text — in particular the bytes of any `&str` — every
/// extracted facet's byte range lies on character boundaries, so slicing
/// the text by these offsets can never split a character.
pub proof fn lemma_facet_offsets_on_char_boundaries(fs: Seq<Facet>, t: Seq<u8>, did: Seq<u8>)
    requires
        vstd::utf8::valid_utf8(t),
        facets_correspond(fs, t, did),
    ensures
        forall|k: int|
            0 <= k < fs.len() ==> vstd::utf8::is_char_boundary(
                t,
                #[trigger] fs[k].index.byte_start as int,
            ) && vstd::utf8::is_char_boundary(t, fs[k].index.byte_end as int),
{
    lemma_mention_spans_sound(t);
    lemma_url_spans_sound(t);
    lemma_hashtag_spans_sound(t);
    let m = mention_spans(t);
    let u = url_spans(t);
    let h = hashtag_spans(t);
    assert forall|k: int| 0 <= k < fs.len() implies vstd::utf8::is_char_boundary(
        t,
        #[trigger] fs[k].index.byte_start as int,
    ) && vstd::utf8::is_char_boundary(t, fs[k].index.byte_end as int) by {
        if k < m.len() {
            let sp = m[k];
            assert(facet_is_mention(fs[k], sp, did));
            assert(t[sp.0] == 0x40 && is_handle(t.subrange(sp.0, sp.1)));
            lemma_boundary_at_noncontinuation(t, sp.0);
            let sub = t.subrange(sp.0, sp.1);
            assert(is_label_seq(sub.skip(1)));
            lemma_label_seq_last(sub.skip(1));
            assert(sub.skip(1)[sub.skip(1).len() - 1] == t[sp.1 - 1]);
            assert(t[sp.1 - 1] < 0x80);
            lemma_boundary_after_ascii(t, sp.1 - 1);
        } else if k < m.len() + u.len() {
            let sp = u[k - m.len()];
            assert(facet_is_link(fs[k], sp, t));
            assert(is_link_at(t, sp.0, sp.1));
            assert(scheme_len_at(t, sp.0) is Some);
            assert(t[sp.0] == 0x48 || t[sp.0] == 0x68);
            lemma_boundary_at_noncontinuation(t, sp.0);
            assert(t[sp.1 - 1] < 0x80);
            lemma_boundary_after_ascii(t, sp.1 - 1);
        } else {
            let sp = h[k - m.len() - u.len()];
            assert(facet_is_hashtag(fs[k], sp, t));
            assert(t[sp.0 - 1] == 0x23);
            lemma_boundary_after_ascii(t, sp.0 - 1);
            assert(hashtag_ok(t, sp.0 - 1));
            lemma_tag_run_end_boundary(t, sp.0);
        }
    }
}

} // verus!
