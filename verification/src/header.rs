//! The two-word header that starts every TLV object.

use vstd::prelude::*;

verus! {

/// Generic TLV header.
///
/// Every TLV object starts with this header: a tag identifying its type and
/// the length in bytes of the payload that follows. The payload occupies
/// `(length + 3) / 4` words; the bytes past `length` in its last word are
/// padding.
#[derive(Clone, Copy, Debug, PartialEq, Eq, Structural)]
pub struct TlvHeader {
    /// The tag identifying the type of the TLV object, usually a four-character
    /// ASCII code read as a little-endian word.
    pub tag: u32,
    /// The length in bytes of the payload following this header.
    pub length: u16,
    /// Reserved; written as zero.
    pub reserved: u16,
}

/// The number of words needed to hold `len` bytes.
pub open spec fn words_for(len: nat) -> nat {
    (len + 3) / 4
}

/// The number of zero bytes that pad `len` bytes to a whole number of words.
pub open spec fn padding_for(len: nat) -> nat {
    (4 * words_for(len) - len) as nat
}

/// The second header word: `length` in its low half, `reserved` in its high half.
pub open spec fn length_word(length: u16, reserved: u16) -> u32 {
    (length as int + reserved as int * 0x10000) as u32
}

impl TlvHeader {
    /// The number of words a header occupies.
    pub const HEADER_WORD_COUNT: usize = 2;

    /// The two words of the header as they stand in a buffer.
    pub open spec fn spec_words(self) -> Seq<u32> {
        seq![self.tag, length_word(self.length, self.reserved)]
    }

    /// The header read from its two words.
    pub open spec fn from_spec_words(w0: u32, w1: u32) -> TlvHeader {
        TlvHeader { tag: w0, length: (w1 % 0x10000) as u16, reserved: (w1 / 0x10000) as u16 }
    }

    /// The number of payload words that follow the header.
    pub open spec fn payload_words(self) -> nat {
        words_for(self.length as nat)
    }

    /// The number of padding bytes at the end of the payload.
    pub open spec fn spec_padding(self) -> nat {
        padding_for(self.length as nat)
    }

    /// Writing a header into words and reading it back gives the same header.
    pub proof fn lemma_words_roundtrip(self)
        ensures
            Self::from_spec_words(self.spec_words()[0], self.spec_words()[1]) == self,
            self.spec_words().len() == 2,
    {
        let w1 = length_word(self.length, self.reserved);
        assert(w1 as int == self.length as int + self.reserved as int * 0x10000);
        assert(w1 % 0x10000 == self.length);
        assert(w1 / 0x10000 == self.reserved);
    }

    /// Reading two words as a header and writing it back gives the same words.
    pub proof fn lemma_from_words_roundtrip(w0: u32, w1: u32)
        ensures
            Self::from_spec_words(w0, w1).spec_words() == seq![w0, w1],
    {
        let h = Self::from_spec_words(w0, w1);
        assert(length_word(h.length, h.reserved) == w1);
        assert(h.spec_words() =~= seq![w0, w1]);
    }

    /// The two words of the header.
    pub fn to_words(&self) -> (w: (u32, u32))
        ensures
            seq![w.0, w.1] == self.spec_words(),
    {
        let w1: u32 = self.length as u32 + (self.reserved as u32) * 0x10000;
        (self.tag, w1)
    }

    /// The header stored in two words.
    pub fn from_words(w0: u32, w1: u32) -> (h: TlvHeader)
        ensures
            h == Self::from_spec_words(w0, w1),
    {
        TlvHeader { tag: w0, length: (w1 % 0x10000) as u16, reserved: (w1 / 0x10000) as u16 }
    }

    /// The number of payload words that follow the header.
    pub fn word_len(&self) -> (n: usize)
        ensures
            n == self.payload_words(),
    {
        (self.length as usize + 3) / 4
    }

    /// The length of the payload in bytes, without padding.
    pub fn byte_len(&self) -> (n: usize)
        ensures
            n == self.length,
            n + self.spec_padding() == 4 * self.payload_words(),
    {
        self.length as usize
    }

    /// The number of padding bytes at the end of the payload (0 to 3).
    pub fn padding_bytes(&self) -> (p: u16)
        ensures
            p == self.spec_padding(),
            p <= 3,
    {
        let words = (self.length as u32 + 3) / 4;
        (words * 4 - self.length as u32) as u16
    }

    /// Sets the padding of the payload to `val % 4` bytes while keeping the
    /// number of payload words: the length becomes the whole-word size of the
    /// payload minus `val % 4`, kept within `0..=u16::MAX`.
    pub fn set_padding_bytes(&mut self, val: u16)
        ensures
            final(self).tag == old(self).tag,
            final(self).reserved == old(self).reserved,
            final(self).length == clamp_length(4 * old(self).payload_words() - val % 4),
    {
        let padded: u32 = (self.length as u32 + 3) / 4 * 4;
        let pad: u32 = (val % 4) as u32;
        if padded < pad {
            self.length = 0;
        } else if padded - pad > 0xffff {
            self.length = 0xffff;
        } else {
            self.length = (padded - pad) as u16;
        }
    }
}

/// A byte count limited to what a header can hold.
pub open spec fn clamp_length(n: int) -> u16 {
    if n < 0 {
        0
    } else if n > 0xffff {
        0xffff
    } else {
        n as u16
    }
}

/// Setting the padding of a header whose payload spans at least one word and
/// whose padded size stays representable gives exactly that padding, with the
/// same number of payload words.
pub proof fn law_set_padding(before: TlvHeader, after: TlvHeader, val: u16)
    requires
        before.payload_words() > 0,
        4 * before.payload_words() - val % 4 <= 0xffff,
        after.tag == before.tag,
        after.reserved == before.reserved,
        after.length == clamp_length(4 * before.payload_words() - val % 4),
    ensures
        after.spec_padding() == val % 4,
        after.payload_words() == before.payload_words(),
        after.length + after.spec_padding() == 4 * before.payload_words(),
{
}

} // verus!
