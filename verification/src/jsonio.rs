//! Canonical JSON encoding of post records.
//!
//! A record serializes to a single JSON object with a `$type`
//! discriminator, `createdAt`, `text`, and the optional `facets`,
//! `langs`, `tags` and `labels` lists; an absent list is omitted
//! entirely, never written as `null`. Strings are escaped as JSON
//! demands: quote and backslash get a backslash escape, the common
//! control characters their two-character escapes, and the remaining
//! control bytes a `\u00xx` escape; everything else, multi-byte UTF-8
//! included, passes through verbatim.

use crate::facet::{Facet, Feature};
use crate::post::{Post, SelfLabel, SelfLabels};
use crate::scanning::ascii_bytes;
use vstd::string::StringSliceAdditionalSpecFns;
use vstd::prelude::*;

verus! {

/// Lowercase hexadecimal digit for `0 <= n < 16`.
pub open spec fn hex_digit(n: int) -> u8 {
    if n < 10 {
        (0x30 + n) as u8
    } else {
        (0x57 + n) as u8
    }
}

/// The encoding of one string byte. Byte 0x22 is `"`, 0x5c is `\`.
pub open spec fn escape_byte(b: u8) -> Seq<u8> {
    if b == 0x22 {
        seq![0x5cu8, 0x22u8]
    } else if b == 0x5c {
        seq![0x5cu8, 0x5cu8]
    } else if b == 0x08 {
        seq![0x5cu8, 0x62u8]
    } else if b == 0x09 {
        seq![0x5cu8, 0x74u8]
    } else if b == 0x0a {
        seq![0x5cu8, 0x6eu8]
    } else if b == 0x0c {
        seq![0x5cu8, 0x66u8]
    } else if b == 0x0d {
        seq![0x5cu8, 0x72u8]
    } else if b < 0x20 {
        seq![0x5cu8, 0x75u8, 0x30u8, 0x30u8, hex_digit(b as int / 16), hex_digit(b as int % 16)]
    } else {
        seq![b]
    }
}

pub open spec fn escape_bytes(s: Seq<u8>) -> Seq<u8>
    decreases s.len(),
{
    if s.len() == 0 {
        Seq::empty()
    } else {
        escape_byte(s[0]) + escape_bytes(s.skip(1))
    }
}

pub proof fn lemma_escape_snoc(s: Seq<u8>, k: int)
    requires
        0 <= k < s.len(),
    ensures
        escape_bytes(s.take(k + 1)) == escape_bytes(s.take(k)) + escape_byte(s[k]),
    decreases k,
{
    if k == 0 {
        assert(s.take(1).len() == 1);
        assert(s.take(1)[0] == s[0]);
        assert(s.take(1).skip(1) =~= Seq::<u8>::empty());
        assert(s.take(0) =~= Seq::<u8>::empty());
        assert(escape_bytes(Seq::<u8>::empty()) == Seq::<u8>::empty());
        assert(escape_bytes(s.take(1)) == escape_byte(s.take(1)[0]) + escape_bytes(
            s.take(1).skip(1),
        ));
        assert(escape_byte(s[0]) + Seq::<u8>::empty() =~= escape_byte(s[0]));
        assert(escape_bytes(s.take(0)) + escape_byte(s[0]) =~= escape_byte(s[0]));
    } else {
        lemma_escape_snoc(s.skip(1), k - 1);
        assert(s.take(k + 1).skip(1) =~= s.skip(1).take(k));
        assert(s.take(k).skip(1) =~= s.skip(1).take(k - 1));
        assert(s.take(k + 1)[0] == s[0]);
        assert(s.take(k)[0] == s[0]);
        assert(s.skip(1)[k - 1] == s[k]);
        assert(escape_bytes(s.take(k + 1)) == escape_byte(s[0]) + escape_bytes(s.skip(1).take(k)));
        assert(escape_bytes(s.take(k)) == escape_byte(s[0]) + escape_bytes(s.skip(1).take(k - 1)));
        assert(escape_byte(s[0]) + (escape_bytes(s.skip(1).take(k - 1)) + escape_byte(s[k]))
            =~= (escape_byte(s[0]) + escape_bytes(s.skip(1).take(k - 1))) + escape_byte(s[k]));
    }
}

/// A JSON string: the escaped bytes between quotes.
pub open spec fn json_string(s: Seq<u8>) -> Seq<u8> {
    seq![0x22u8] + escape_bytes(s) + seq![0x22u8]
}

/// Decimal digits of a non-negative integer.
pub open spec fn dec_bytes(n: int) -> Seq<u8>
    decreases n,
{
    if n < 10 {
        seq![(0x30 + if n >= 0 {
            n
        } else {
            0
        }) as u8]
    } else {
        dec_bytes(n / 10).push((0x30 + n % 10) as u8)
    }
}

/// Comma-joined concatenation of the given parts.
pub open spec fn join_comma(parts: Seq<Seq<u8>>) -> Seq<u8>
    decreases parts.len(),
{
    if parts.len() == 0 {
        Seq::empty()
    } else if parts.len() == 1 {
        parts[0]
    } else {
        parts[0] + seq![0x2cu8] + join_comma(parts.skip(1))
    }
}

pub proof fn lemma_join_comma_snoc(parts: Seq<Seq<u8>>, k: int)
    requires
        0 <= k < parts.len(),
    ensures
        join_comma(parts.take(k + 1)) == if k == 0 {
            parts[0]
        } else {
            join_comma(parts.take(k)) + seq![0x2cu8] + parts[k]
        },
    decreases k,
{
    if k == 0 {
        assert(parts.take(1) =~= seq![parts[0]]);
        assert(join_comma(parts.take(1)) == parts[0]);
    } else if k == 1 {
        assert(parts.take(2) =~= seq![parts[0], parts[1]]);
        assert(parts.take(2).skip(1) =~= seq![parts[1]]);
        assert(parts.take(1) =~= seq![parts[0]]);
        assert(join_comma(seq![parts[1]]) == parts[1]);
        assert(join_comma(parts.take(2)) == parts.take(2)[0] + seq![0x2cu8] + join_comma(
            parts.take(2).skip(1),
        ));
        assert(join_comma(parts.take(2)) =~= join_comma(parts.take(1)) + seq![0x2cu8] + parts[1]);
    } else {
        lemma_join_comma_snoc(parts.skip(1), k - 1);
        assert(parts.take(k + 1).skip(1) =~= parts.skip(1).take(k));
        assert(parts.take(k).skip(1) =~= parts.skip(1).take(k - 1));
        assert(parts.take(k + 1)[0] == parts[0]);
        assert(parts.take(k)[0] == parts[0]);
        assert(parts.skip(1)[k - 1] == parts[k]);
        assert(join_comma(parts.take(k + 1)) == parts[0] + seq![0x2cu8] + join_comma(
            parts.skip(1).take(k),
        ));
        assert(join_comma(parts.take(k)) == parts[0] + seq![0x2cu8] + join_comma(
            parts.skip(1).take(k - 1),
        ));
        assert(parts[0] + seq![0x2cu8] + (join_comma(parts.skip(1).take(k - 1)) + seq![0x2cu8]
            + parts[k]) =~= (parts[0] + seq![0x2cu8] + join_comma(parts.skip(1).take(k - 1)))
            + seq![0x2cu8] + parts[k]);
    }
}

/// The encoding of one feature, dispatched on its protocol type tag.
pub open spec fn feature_json(f: Feature) -> Seq<u8> {
    match f {
        Feature::Mention(m) => ascii_bytes(
            "{\"$type\":\"app.bsky.richtext.facet#mention\",\"did\":"@,
        ) + json_string(m.did@) + seq![0x7du8],
        Feature::Link(l) => ascii_bytes("{\"$type\":\"app.bsky.richtext.facet#link\",\"uri\":"@)
            + json_string(l.uri@) + seq![0x7du8],
        Feature::Hashtag(h) => ascii_bytes("{\"$type\":\"app.bsky.richtext.facet#tag\",\"tag\":"@)
            + json_string(h.tag@) + seq![0x7du8],
    }
}

/// The encoding of one facet: its byte range and its feature list.
pub open spec fn facet_json(f: Facet) -> Seq<u8> {
    ascii_bytes("{\"index\":{\"byteStart\":"@) + dec_bytes(f.index.byte_start as int) + ascii_bytes(
        ",\"byteEnd\":"@,
    ) + dec_bytes(f.index.byte_end as int) + ascii_bytes("},\"features\":["@) + join_comma(
        f.features@.map_values(|ft: Feature| feature_json(ft)),
    ) + ascii_bytes("]}"@)
}

/// The encoding of one self-applied label.
pub open spec fn label_json(l: SelfLabel) -> Seq<u8> {
    ascii_bytes("{\"val\":"@) + json_string(l.val@) + seq![0x7du8]
}

/// The encoding of the labels object.
pub open spec fn labels_json(ls: SelfLabels) -> Seq<u8> {
    ascii_bytes("{\"$type\":"@) + json_string(ls.selflabels_type@) + ascii_bytes(",\"values\":["@)
        + join_comma(ls.values@.map_values(|l: SelfLabel| label_json(l))) + ascii_bytes("]}"@)
}

/// The canonical encoding of a whole record. Absent optional lists
/// contribute nothing at all to the output.
pub open spec fn post_json(p: Post) -> Seq<u8> {
    ascii_bytes("{\"$type\":"@) + json_string(p.record_type@) + ascii_bytes(",\"createdAt\":"@)
        + json_string(p.created_at@) + ascii_bytes(",\"text\":"@) + json_string(p.text@) + (match p
        .facets {
        Option::None => Seq::<u8>::empty(),
        Option::Some(fs) => ascii_bytes(",\"facets\":["@) + join_comma(
            fs@.map_values(|f: Facet| facet_json(f)),
        ) + seq![0x5du8],
    }) + (match p.langs {
        Option::None => Seq::<u8>::empty(),
        Option::Some(xs) => ascii_bytes(",\"langs\":["@) + join_comma(
            xs@.map_values(|x: Vec<u8>| json_string(x@)),
        ) + seq![0x5du8],
    }) + (match p.tags {
        Option::None => Seq::<u8>::empty(),
        Option::Some(xs) => ascii_bytes(",\"tags\":["@) + join_comma(
            xs@.map_values(|x: Vec<u8>| json_string(x@)),
        ) + seq![0x5du8],
    }) + (match p.labels {
        Option::None => Seq::<u8>::empty(),
        Option::Some(ls) => ascii_bytes(",\"labels\":"@) + labels_json(ls),
    }) + seq![0x7du8]
}


/// Appends the JSON string encoding of `s`.
fn push_json_string(out: &mut Vec<u8>, s: &Vec<u8>)
    ensures
        final(out)@ == old(out)@ + json_string(s@),
{
    let ghost out0 = out@;
    out.push(0x22);
    let mut k: usize = 0;
    while k < s.len()
        invariant
            k <= s.len(),
            out@ == out0 + seq![0x22u8] + escape_bytes(s@.take(k as int)),
        decreases s.len() - k,
    {
        let b = s[k];
        proof {
            lemma_escape_snoc(s@, k as int);
        }
        if b == 0x22 {
            out.push(0x5c);
            out.push(0x22);
        } else if b == 0x5c {
            out.push(0x5c);
            out.push(0x5c);
        } else if b == 0x08 {
            out.push(0x5c);
            out.push(0x62);
        } else if b == 0x09 {
            out.push(0x5c);
            out.push(0x74);
        } else if b == 0x0a {
            out.push(0x5c);
            out.push(0x6e);
        } else if b == 0x0c {
            out.push(0x5c);
            out.push(0x66);
        } else if b == 0x0d {
            out.push(0x5c);
            out.push(0x72);
        } else if b < 0x20 {
            out.push(0x5c);
            out.push(0x75);
            out.push(0x30);
            out.push(0x30);
            let hi = b / 16;
            let lo = b % 16;
            out.push(
                if hi < 10 {
                    0x30 + hi
                } else {
                    0x57 + hi
                },
            );
            out.push(
                if lo < 10 {
                    0x30 + lo
                } else {
                    0x57 + lo
                },
            );
        } else {
            out.push(b);
        }
        proof {
            assert(out@ =~= out0 + seq![0x22u8] + escape_bytes(s@.take(k + 1 as int)));
        }
        k = k + 1;
    }
    proof {
        assert(s@.take(s@.len() as int) =~= s@);
    }
    out.push(0x22);
    proof {
        assert(out@ =~= out0 + json_string(s@));
    }
}

/// Appends the decimal digits of `n`.
fn push_decimal(out: &mut Vec<u8>, n: usize)
    ensures
        final(out)@ == old(out)@ + dec_bytes(n as int),
    decreases n,
{
    if n < 10 {
        out.push(0x30 + (n as u8));
        proof {
            assert(old(out)@.push((0x30 + n as int) as u8) =~= old(out)@ + dec_bytes(n as int));
        }
    } else {
        push_decimal(out, n / 10);
        out.push(0x30 + ((n % 10) as u8));
        proof {
            assert((old(out)@ + dec_bytes(n as int / 10)).push((0x30 + n as int % 10) as u8)
                =~= old(out)@ + dec_bytes(n as int));
        }
    }
}

/// Appends the encoding of one feature.
fn push_feature(out: &mut Vec<u8>, f: &Feature)
    ensures
        final(out)@ == old(out)@ + feature_json(*f),
{
    let ghost out0 = out@;
    proof {
        reveal_strlit("{\"$type\":\"app.bsky.richtext.facet#mention\",\"did\":");
        reveal_strlit("{\"$type\":\"app.bsky.richtext.facet#link\",\"uri\":");
        reveal_strlit("{\"$type\":\"app.bsky.richtext.facet#tag\",\"tag\":");
    }
    match f {
        Feature::Mention(m) => {
            crate::scanning::append_ascii(out, "{\"$type\":\"app.bsky.richtext.facet#mention\",\"did\":");
            push_json_string(out, &m.did);
        },
        Feature::Link(l) => {
            crate::scanning::append_ascii(out, "{\"$type\":\"app.bsky.richtext.facet#link\",\"uri\":");
            push_json_string(out, &l.uri);
        },
        Feature::Hashtag(h) => {
            crate::scanning::append_ascii(out, "{\"$type\":\"app.bsky.richtext.facet#tag\",\"tag\":");
            push_json_string(out, &h.tag);
        },
    }
    out.push(0x7d);
    proof {
        assert(out@ =~= out0 + feature_json(*f));
    }
}

/// Appends the encoding of one facet.
fn push_facet(out: &mut Vec<u8>, f: &Facet)
    ensures
        final(out)@ == old(out)@ + facet_json(*f),
{
    let ghost out0 = out@;
    proof {
        reveal_strlit("{\"index\":{\"byteStart\":");
        reveal_strlit(",\"byteEnd\":");
        reveal_strlit("},\"features\":[");
        reveal_strlit("]}");
    }
    crate::scanning::append_ascii(out, "{\"index\":{\"byteStart\":");
    push_decimal(out, f.index.byte_start);
    crate::scanning::append_ascii(out, ",\"byteEnd\":");
    push_decimal(out, f.index.byte_end);
    crate::scanning::append_ascii(out, "},\"features\":[");
    let ghost base = out@;
    let ghost parts = f.features@.map_values(|ft: Feature| feature_json(ft));
    let mut k: usize = 0;
    while k < f.features.len()
        invariant
            k <= f.features.len(),
            parts == f.features@.map_values(|ft: Feature| feature_json(ft)),
            out@ == base + join_comma(parts.take(k as int)),
        decreases f.features.len() - k,
    {
        if k > 0 {
            out.push(0x2c);
        }
        push_feature(out, &f.features[k]);
        proof {
            lemma_join_comma_snoc(parts, k as int);
            assert(parts[k as int] == feature_json(f.features@[k as int]));
            assert(out@ =~= base + join_comma(parts.take(k + 1 as int)));
        }
        k = k + 1;
    }
    proof {
        assert(parts.take(parts.len() as int) =~= parts);
    }
    crate::scanning::append_ascii(out, "]}");
    proof {
        assert(out@ =~= out0 + facet_json(*f));
    }
}

/// Appends the comma-joined encodings of a facet list.
fn push_facet_list(out: &mut Vec<u8>, fs: &Vec<Facet>)
    ensures
        final(out)@ == old(out)@ + join_comma(fs@.map_values(|f: Facet| facet_json(f))),
{
    let ghost base = out@;
    let ghost parts = fs@.map_values(|f: Facet| facet_json(f));
    let mut k: usize = 0;
    while k < fs.len()
        invariant
            k <= fs.len(),
            parts == fs@.map_values(|f: Facet| facet_json(f)),
            out@ == base + join_comma(parts.take(k as int)),
        decreases fs.len() - k,
    {
        if k > 0 {
            out.push(0x2c);
        }
        push_facet(out, &fs[k]);
        proof {
            lemma_join_comma_snoc(parts, k as int);
            assert(parts[k as int] == facet_json(fs@[k as int]));
            assert(out@ =~= base + join_comma(parts.take(k + 1 as int)));
        }
        k = k + 1;
    }
    proof {
        assert(parts.take(parts.len() as int) =~= parts);
    }
}

/// Appends the comma-joined JSON strings of a string list.
fn push_string_list(out: &mut Vec<u8>, xs: &Vec<Vec<u8>>)
    ensures
        final(out)@ == old(out)@ + join_comma(xs@.map_values(|x: Vec<u8>| json_string(x@))),
{
    let ghost base = out@;
    let ghost parts = xs@.map_values(|x: Vec<u8>| json_string(x@));
    let mut k: usize = 0;
    while k < xs.len()
        invariant
            k <= xs.len(),
            parts == xs@.map_values(|x: Vec<u8>| json_string(x@)),
            out@ == base + join_comma(parts.take(k as int)),
        decreases xs.len() - k,
    {
        if k > 0 {
            out.push(0x2c);
        }
        push_json_string(out, &xs[k]);
        proof {
            lemma_join_comma_snoc(parts, k as int);
            assert(parts[k as int] == json_string(xs@[k as int]@));
            assert(out@ =~= base + join_comma(parts.take(k + 1 as int)));
        }
        k = k + 1;
    }
    proof {
        assert(parts.take(parts.len() as int) =~= parts);
    }
}

/// Appends the encoding of the labels object.
fn push_labels(out: &mut Vec<u8>, ls: &SelfLabels)
    ensures
        final(out)@ == old(out)@ + labels_json(*ls),
{
    let ghost out0 = out@;
    proof {
        reveal_strlit("{\"$type\":");
        reveal_strlit(",\"values\":[");
        reveal_strlit("{\"val\":");
        reveal_strlit("]}");
    }
    crate::scanning::append_ascii(out, "{\"$type\":");
    push_json_string(out, &ls.selflabels_type);
    crate::scanning::append_ascii(out, ",\"values\":[");
    let ghost base = out@;
    let ghost parts = ls.values@.map_values(|l: SelfLabel| label_json(l));
    let mut k: usize = 0;
    while k < ls.values.len()
        invariant
            k <= ls.values.len(),
            parts == ls.values@.map_values(|l: SelfLabel| label_json(l)),
            out@ == base + join_comma(parts.take(k as int)),
        decreases ls.values.len() - k,
    {
        if k > 0 {
            out.push(0x2c);
        }
        let ghost before = out@;
        proof {
            reveal_strlit("{\"val\":");
        }
        crate::scanning::append_ascii(out, "{\"val\":");
        push_json_string(out, &ls.values[k].val);
        out.push(0x7d);
        proof {
            assert(out@ =~= before + label_json(ls.values@[k as int]));
            lemma_join_comma_snoc(parts, k as int);
            assert(parts[k as int] == label_json(ls.values@[k as int]));
            assert(out@ =~= base + join_comma(parts.take(k + 1 as int)));
        }
        k = k + 1;
    }
    proof {
        assert(parts.take(parts.len() as int) =~= parts);
    }
    crate::scanning::append_ascii(out, "]}");
    proof {
        assert(out@ =~= out0 + labels_json(*ls));
    }
}

/// Serializes a record to its canonical JSON encoding.
#[verifier::rlimit(60)]
pub fn post_to_json(p: &Post) -> (r: Vec<u8>)
    ensures
        r@ == post_json(*p),
{
    let mut out: Vec<u8> = Vec::new();
    proof {
        reveal_strlit("{\"$type\":");
        reveal_strlit(",\"createdAt\":");
        reveal_strlit(",\"text\":");
        reveal_strlit(",\"facets\":[");
        reveal_strlit(",\"langs\":[");
        reveal_strlit(",\"tags\":[");
        reveal_strlit(",\"labels\":");
    }
    crate::scanning::append_ascii(&mut out, "{\"$type\":");
    push_json_string(&mut out, &p.record_type);
    crate::scanning::append_ascii(&mut out, ",\"createdAt\":");
    push_json_string(&mut out, &p.created_at);
    crate::scanning::append_ascii(&mut out, ",\"text\":");
    push_json_string(&mut out, &p.text);
    let ghost head = ascii_bytes("{\"$type\":"@) + json_string(p.record_type@) + ascii_bytes(
        ",\"createdAt\":"@,
    ) + json_string(p.created_at@) + ascii_bytes(",\"text\":"@) + json_string(p.text@);
    proof {
        assert(out@ =~= head);
    }
    match &p.facets {
        Option::Some(fs) => {
            crate::scanning::append_ascii(&mut out, ",\"facets\":[");
            push_facet_list(&mut out, fs);
            out.push(0x5d);
        },
        Option::None => {},
    }
    let ghost head_f = head + (match &p.facets {
        Option::None => Seq::<u8>::empty(),
        Option::Some(fs) => ascii_bytes(",\"facets\":["@) + join_comma(
            fs@.map_values(|f: Facet| facet_json(f)),
        ) + seq![0x5du8],
    });
    proof {
        assert(out@ =~= head_f);
    }
    match &p.langs {
        Option::Some(xs) => {
            crate::scanning::append_ascii(&mut out, ",\"langs\":[");
            push_string_list(&mut out, xs);
            out.push(0x5d);
        },
        Option::None => {},
    }
    let ghost head_l = head_f + (match &p.langs {
        Option::None => Seq::<u8>::empty(),
        Option::Some(xs) => ascii_bytes(",\"langs\":["@) + join_comma(
            xs@.map_values(|x: Vec<u8>| json_string(x@)),
        ) + seq![0x5du8],
    });
    proof {
        assert(out@ =~= head_l);
    }
    match &p.tags {
        Option::Some(xs) => {
            crate::scanning::append_ascii(&mut out, ",\"tags\":[");
            push_string_list(&mut out, xs);
            out.push(0x5d);
        },
        Option::None => {},
    }
    let ghost head_t = head_l + (match &p.tags {
        Option::None => Seq::<u8>::empty(),
        Option::Some(xs) => ascii_bytes(",\"tags\":["@) + join_comma(
            xs@.map_values(|x: Vec<u8>| json_string(x@)),
        ) + seq![0x5du8],
    });
    proof {
        assert(out@ =~= head_t);
    }
    match &p.labels {
        Option::Some(ls) => {
            crate::scanning::append_ascii(&mut out, ",\"labels\":");
            push_labels(&mut out, ls);
        },
        Option::None => {},
    }
    out.push(0x7d);
    proof {
        assert(out@ =~= post_json(*p));
    }
    out
}

} // verus!
