//! Typed TLV objects: the fixed part of a TLV and its extension.

use vstd::prelude::*;
use crate::bytes::le_bytes_of;
use crate::bytes::words_to_le_bytes;
use crate::header::TlvHeader;

verus! {

/// A type that represents the fixed part of a TLV object.
///
/// The fixed part occupies `word_size()` words at the start of the payload
/// and every sequence of that many words is a valid value (`from_words` and
/// `to_words` are inverse). What follows it in the payload is the extension:
/// raw bytes (`Extension = Vec<u8>`, built with [`unpad`]) or a nested
/// container (`Extension = TlvData`, built with `TlvData::overlay`).
pub trait TlvObject: Sized {
    /// The extension type for this object.
    type Extension;

    /// The unique 4-byte tag identifying this TLV type; 0 stands for any tag.
    const TAG: u32;

    /// The number of words of the fixed part: by default the size of the
    /// type in words.
    open spec fn spec_word_size() -> nat {
        vstd::layout::size_of::<Self>() / 4
    }

    /// The words that hold this value. An implementation states its own
    /// encoding; by default it is only known to have the right length.
    open spec fn spec_encode(&self) -> Seq<u32> {
        choose|w: Seq<u32>| w.len() == Self::spec_word_size()
    }

    /// The value held by the words `words`: an implementation states its own
    /// decoding; by default it is some value with that encoding.
    open spec fn spec_from_words(words: Seq<u32>) -> Self {
        choose|r: Self| r.spec_encode() == words
    }

    /// What the extension made from a header and the words after the fixed
    /// part is. An implementation states it; by default nothing is known.
    open spec fn spec_ext(header: TlvHeader, extra: Seq<u32>, ext: Self::Extension) -> bool {
        true
    }

    /// The number of words of the fixed part.
    fn word_size() -> (n: usize)
        ensures
            n == Self::spec_word_size(),
    ;

    /// The words that hold this value.
    fn to_words(&self) -> (w: Vec<u32>)
        ensures
            w@ == self.spec_encode(),
            w@.len() == Self::spec_word_size(),
    ;

    /// The value held by `words`.
    fn from_words(words: &[u32]) -> (r: Self)
        requires
            words@.len() == Self::spec_word_size(),
        ensures
            r == Self::spec_from_words(words@),
            r.spec_encode() == words@,
    ;

    /// Makes the extension object from the header and the words that follow
    /// the fixed part.
    fn make_ext(header: &TlvHeader, extra: &[u32]) -> (e: Self::Extension)
        ensures
            Self::spec_ext(*header, extra@, e),
    ;

    /// Returns the tag of the object.
    fn get_tag(&self) -> (t: u32)
        ensures
            t == Self::TAG,
    {
        Self::TAG
    }
}

/// The bytes of the extension words without the header's padding.
pub open spec fn unpad_spec(header: TlvHeader, extra: Seq<u32>) -> Seq<u8> {
    let bytes = le_bytes_of(extra);
    let keep = bytes.len() - header.spec_padding();
    if keep < 0 {
        Seq::empty()
    } else {
        bytes.take(keep)
    }
}

/// The extension bytes: the little-endian bytes of `extra` less the padding
/// bytes that the header's length implies (none at all if there are fewer
/// bytes than padding).
pub fn unpad(header: &TlvHeader, extra: &[u32]) -> (out: Vec<u8>)
    ensures
        out@ == unpad_spec(*header, extra@),
{
    let padding = header.padding_bytes() as usize;
    let mut bytes = words_to_le_bytes(extra);
    let n = bytes.len();
    if n < padding {
        Vec::new()
    } else {
        bytes.truncate(n - padding);
        bytes
    }
}

/// Zero-sized type that can represent any TLV.
///
/// Used as the type parameter of `TlvData::iter` or `TlvQuery::cast` when the
/// specific type is not known or any TLV type is acceptable.
#[derive(Clone, Copy, Debug, PartialEq, Eq, Structural)]
pub struct TlvAny;

impl TlvObject for TlvAny {
    type Extension = Vec<u8>;

    const TAG: u32 = 0;

    open spec fn spec_word_size() -> nat {
        0
    }

    open spec fn spec_encode(&self) -> Seq<u32> {
        Seq::empty()
    }

    open spec fn spec_from_words(words: Seq<u32>) -> Self {
        TlvAny
    }

    open spec fn spec_ext(header: TlvHeader, extra: Seq<u32>, ext: Vec<u8>) -> bool {
        ext@ == unpad_spec(header, extra)
    }

    fn word_size() -> (n: usize) {
        0
    }

    fn to_words(&self) -> (w: Vec<u32>) {
        Vec::new()
    }

    fn from_words(words: &[u32]) -> (r: Self) {
        TlvAny
    }

    fn make_ext(header: &TlvHeader, extra: &[u32]) -> (e: Vec<u8>) {
        unpad(header, extra)
    }
}

/// `TlvAny` stands for every tag: its tag is 0 and it has no fixed part.
pub proof fn lemma_any_tag()
    ensures
        TlvAny::TAG == 0,
        TlvAny::spec_word_size() == 0,
{
}

/// Returns the size of the type `T` in 32-bit words; the size of `T` must be a
/// multiple of 4 bytes.
pub fn word_size_of<T>() -> (n: usize)
    requires
        vstd::layout::size_of::<T>() % 4 == 0,
    ensures
        n == vstd::layout::size_of::<T>() / 4,
{
    core::mem::size_of::<T>() / 4
}

} // verus!
