//! Little-endian conversion between word buffers and byte buffers.

use vstd::prelude::*;
use vstd::bytes::spec_u32_to_le_bytes;
use vstd::bytes::spec_u32_from_le_bytes;
use vstd::bytes::u32_to_le_bytes;
use vstd::bytes::u32_from_le_bytes;
use vstd::bytes::lemma_auto_spec_u32_to_from_le_bytes;

verus! {

/// The little-endian byte image of a sequence of words.
pub open spec fn le_bytes_of(words: Seq<u32>) -> Seq<u8> {
    Seq::new(4 * words.len(), |i: int| spec_u32_to_le_bytes(words[i / 4])[i % 4])
}

/// The words whose little-endian image is `bytes` (whole words only).
pub open spec fn words_of_le(bytes: Seq<u8>) -> Seq<u32> {
    Seq::new(bytes.len() / 4, |i: int| spec_u32_from_le_bytes(bytes.subrange(4 * i, 4 * i + 4)))
}

/// Four consecutive bytes of the image of `words` are the image of one word.
pub proof fn lemma_le_bytes_word(words: Seq<u32>, i: int)
    requires
        0 <= i < words.len(),
    ensures
        le_bytes_of(words).subrange(4 * i, 4 * i + 4) == spec_u32_to_le_bytes(words[i]),
{
    lemma_auto_spec_u32_to_from_le_bytes();
    let b = le_bytes_of(words);
    assert forall|k: int| 0 <= k < 4 implies #[trigger] b.subrange(4 * i, 4 * i + 4)[k]
        == spec_u32_to_le_bytes(words[i])[k] by {
        assert((4 * i + k) / 4 == i);
        assert((4 * i + k) % 4 == k);
    }
    assert(b.subrange(4 * i, 4 * i + 4) =~= spec_u32_to_le_bytes(words[i]));
}

/// Decoding the little-endian image of words gives the words back.
pub proof fn lemma_words_of_le_bytes(words: Seq<u32>)
    ensures
        words_of_le(le_bytes_of(words)) == words,
{
    lemma_auto_spec_u32_to_from_le_bytes();
    let b = le_bytes_of(words);
    assert(b.len() / 4 == words.len());
    assert forall|i: int| 0 <= i < words.len() implies #[trigger] words_of_le(b)[i] == words[i] by {
        lemma_le_bytes_word(words, i);
        assert(spec_u32_to_le_bytes(words[i]).len() == 4);
    }
    assert(words_of_le(b) =~= words);
}

/// Encoding decoded words gives back any byte buffer of whole words.
pub proof fn lemma_le_bytes_of_words(bytes: Seq<u8>)
    requires
        bytes.len() % 4 == 0,
    ensures
        le_bytes_of(words_of_le(bytes)) == bytes,
{
    lemma_auto_spec_u32_to_from_le_bytes();
    let w = words_of_le(bytes);
    assert forall|k: int| 0 <= k < bytes.len() implies #[trigger] le_bytes_of(w)[k] == bytes[k] by {
        let i = k / 4;
        let s = bytes.subrange(4 * i, 4 * i + 4);
        assert(spec_u32_to_le_bytes(spec_u32_from_le_bytes(s)) == s);
        assert(s[k % 4] == bytes[k]);
    }
    assert(le_bytes_of(w) =~= bytes);
}

/// The image of a concatenation is the concatenation of the images.
pub proof fn lemma_le_bytes_append(a: Seq<u32>, b: Seq<u32>)
    ensures
        le_bytes_of(a + b) == le_bytes_of(a) + le_bytes_of(b),
{
    let l = le_bytes_of(a + b);
    let r = le_bytes_of(a) + le_bytes_of(b);
    assert forall|k: int| 0 <= k < l.len() implies #[trigger] l[k] == r[k] by {
        if k >= 4 * a.len() {
            assert((k - 4 * a.len()) / 4 == k / 4 - a.len());
            assert((k - 4 * a.len()) % 4 == k % 4);
        }
    }
    assert(l =~= r);
}

/// The little-endian bytes of a word buffer.
pub fn words_to_le_bytes(words: &[u32]) -> (out: Vec<u8>)
    ensures
        out@ == le_bytes_of(words@),
{
    let mut out: Vec<u8> = Vec::new();
    let n = words.len();
    let mut i: usize = 0;
    while i < n
        invariant
            n == words@.len(),
            i <= n,
            out@ == le_bytes_of(words@.take(i as int)),
        decreases n - i,
    {
        let b = u32_to_le_bytes(words[i]);
        proof { lemma_auto_spec_u32_to_from_le_bytes(); }
        let ghost prev = out@;
        out.push(b[0]);
        out.push(b[1]);
        out.push(b[2]);
        out.push(b[3]);
        proof {
            let t = words@.take(i as int + 1);
            assert(t =~= words@.take(i as int).push(words@[i as int]));
            lemma_le_bytes_append(words@.take(i as int), seq![words@[i as int]]);
            let one = le_bytes_of(seq![words@[i as int]]);
            assert forall|k: int| 0 <= k < 4 implies #[trigger] one[k] == b@[k] by {
                assert(k / 4 == 0);
                assert(k % 4 == k);
            }
            assert(out@ =~= prev + one);
        }
        i = i + 1;
    }
    proof { assert(words@.take(n as int) =~= words@); }
    out
}

/// The words of a byte buffer read four bytes at a time, little-endian.
pub fn le_bytes_to_words(bytes: &[u8]) -> (out: Vec<u32>)
    requires
        bytes@.len() % 4 == 0,
    ensures
        out@ == words_of_le(bytes@),
{
    let mut out: Vec<u32> = Vec::new();
    let len = bytes.len();
    let n = len / 4;
    let mut i: usize = 0;
    while i < n
        invariant
            len == bytes@.len(),
            n == bytes@.len() / 4,
            bytes@.len() % 4 == 0,
            i <= n,
            out@.len() == i,
            forall|j: int| 0 <= j < i ==> #[trigger] out@[j] == words_of_le(bytes@)[j],
        decreases n - i,
    {
        assert(4 * i + 4 <= bytes@.len()) by (nonlinear_arith)
            requires
                i < n,
                n == bytes@.len() / 4,
        ;
        let w = u32_from_le_bytes(&bytes[4 * i..4 * i + 4]);
        out.push(w);
        i = i + 1;
    }
    proof { assert(out@ =~= words_of_le(bytes@)); }
    out
}

/// A copy of a word slice.
pub fn copy_words(words: &[u32]) -> (out: Vec<u32>)
    ensures
        out@ == words@,
{
    let mut out: Vec<u32> = Vec::new();
    let n = words.len();
    let mut i: usize = 0;
    while i < n
        invariant
            n == words@.len(),
            i <= n,
            out@ == words@.take(i as int),
        decreases n - i,
    {
        out.push(words[i]);
        proof { assert(words@.take(i as int + 1) =~= words@.take(i as int).push(words@[i as int])); }
        i = i + 1;
    }
    proof { assert(words@.take(n as int) =~= words@); }
    out
}

} // verus!
