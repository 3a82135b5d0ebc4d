//! Sums over the two-word objects of a TLV stream.

use vstd::prelude::*;
use crate::data::law_scan_within;
use crate::data::scan;
use crate::data::RawTlv;
use crate::data::TlvData;
use crate::header::TlvHeader;
use crate::object::lemma_any_tag;
use crate::object::TlvAny;
use crate::object::TlvObject;

verus! {

/// `acc` plus the first two payload words of `t`, wrapping, when `t` has tag
/// `tag` and at least two payload words; otherwise `acc`.
pub open spec fn pair_add(acc: u32, t: RawTlv, tag: u32) -> u32 {
    if t.0.tag == tag && t.1.len() >= 2 {
        ((acc + t.1[0] + t.1[1]) % 0x1_0000_0000) as u32
    } else {
        acc
    }
}

/// `acc` plus, wrapping, the first two payload words of each TLV that a walk
/// over all TLVs of `rem` finds (see [`scan`]), once for tag `tag_a` and once
/// for tag `tag_b`.
pub open spec fn pair_sum(tag_a: u32, tag_b: u32, rem: Seq<u32>, acc: u32) -> u32
    decreases rem.len(),
    via pair_sum_decreases
{
    match scan(0, 0, rem).0 {
        Some(t) => pair_sum(tag_a, tag_b, scan(0, 0, rem).1, pair_add(pair_add(acc, t, tag_a), t, tag_b)),
        None => acc,
    }
}

#[via_fn]
proof fn pair_sum_decreases(tag_a: u32, tag_b: u32, rem: Seq<u32>, acc: u32) {
    law_scan_within(0, 0, rem);
}

/// A stream that starts with a whole TLV of header `h` and payload `p`: its
/// sum is the sum of the rest, started from `acc` plus, wrapping, the first
/// two payload words once if the tag is `tag_a` and once more if it is
/// `tag_b`, whenever the payload has at least two words, however many more
/// it has.
pub proof fn law_pair_sum_step(tag_a: u32, tag_b: u32, h: TlvHeader, p: Seq<u32>, rest: Seq<u32>, acc: u32)
    requires
        p.len() == h.payload_words(),
    ensures
        ({
            let two: int = if p.len() >= 2 { p[0] + p[1] } else { 0 };
            let x: int = if h.tag == tag_a { two } else { 0 };
            let y: int = if h.tag == tag_b { two } else { 0 };
            pair_sum(tag_a, tag_b, h.spec_words() + p + rest, acc) == pair_sum(
                tag_a,
                tag_b,
                rest,
                ((acc + x + y) % 0x1_0000_0000) as u32,
            )
        }),
{
    h.lemma_words_roundtrip();
    let w = h.spec_words() + p + rest;
    let wl = h.payload_words() as int;
    assert(w[0] == h.spec_words()[0]);
    assert(w[1] == h.spec_words()[1]);
    assert(w.subrange(2, 2 + wl) =~= p);
    assert(w.skip(2 + wl) =~= rest);
    assert(scan(0, 0, w) == (Some((h, p)), rest));
    let t = (h, p);
    let m = pair_add(acc, t, tag_a);
    let two: int = if p.len() >= 2 { p[0] + p[1] } else { 0 };
    let x: int = if h.tag == tag_a { two } else { 0 };
    let y: int = if h.tag == tag_b { two } else { 0 };
    assert(m == ((acc + x) % 0x1_0000_0000) as u32);
    assert(pair_add(m, t, tag_b) == ((m + y) % 0x1_0000_0000) as u32);
    assert(((((acc + x) % 0x1_0000_0000) as u32) + y) % 0x1_0000_0000 == (acc + x + y) % 0x1_0000_0000)
        by (nonlinear_arith)
        requires
            0 <= acc + x < 0x1_0000_0000 * 3,
    ;
}

/// A walk ends at words that cannot start a whole TLV: fewer than two words,
/// or a header whose payload runs past the end. The sum is then `acc`.
pub proof fn law_pair_sum_end(tag_a: u32, tag_b: u32, w: Seq<u32>, acc: u32)
    requires
        w.len() < 2 || w.len() < 2 + TlvHeader::from_spec_words(w[0], w[1]).payload_words(),
    ensures
        pair_sum(tag_a, tag_b, w, acc) == acc,
{
}

/// Walks all TLVs of `words` and adds, wrapping, the two fields of each
/// two-word object of tag `tag_a` or `tag_b`: the first two payload words of
/// each TLV with that tag whose payload has at least two words.
pub fn sum_pair_fields(words: &[u32], tag_a: u32, tag_b: u32) -> (s: u32)
    ensures
        s == pair_sum(tag_a, tag_b, words@, 0),
{
    let data = TlvData::overlay(words);
    let mut items = data.iter::<TlvAny>();
    let mut sum: u32 = 0;
    proof {
        lemma_any_tag();
    }
    loop
        invariant
            TlvAny::TAG == 0,
            TlvAny::spec_word_size() == 0,
            pair_sum(tag_a, tag_b, words@, 0) == pair_sum(tag_a, tag_b, items.remaining(), sum),
        decreases items.remaining().len(),
    {
        let ghost rem = items.remaining();
        let ghost acc = sum;
        match items.next() {
            None => {
                return sum;
            },
            Some(item) => {
                let ghost t = scan(0, 0, rem).0->Some_0;
                if item.header.tag == tag_a && item.payload.len() >= 2 {
                    sum = sum.wrapping_add(item.payload[0]);
                    sum = sum.wrapping_add(item.payload[1]);
                }
                let ghost mid = sum;
                if item.header.tag == tag_b && item.payload.len() >= 2 {
                    sum = sum.wrapping_add(item.payload[0]);
                    sum = sum.wrapping_add(item.payload[1]);
                }
                proof {
                    assert(mid == pair_add(acc, t, tag_a));
                    assert(sum == pair_add(mid, t, tag_b));
                }
            },
        }
    }
}

} // verus!
