//! Field types of image descriptors and the display of TLV tags.

use vstd::prelude::*;
use vstd::bytes::spec_u32_to_le_bytes;
use vstd::bytes::u32_to_le_bytes;
use vstd::utf8::valid_utf8;
use vstd::utf8::decode_utf8;
use vstd::utf8::encode_utf8;

verus! {

/// A 64-bit timestamp stored as two words, low word first.
#[derive(Clone, Copy, Debug, PartialEq, Eq, Structural)]
pub struct Timestamp {
    pub lo: u32,
    pub hi: u32,
}

/// A fixed-size, zero-padded string field of `N` bytes.
#[derive(Clone, Copy, Debug)]
pub struct StringBuf<const N: usize>(pub [u8; N]);

/// The characters that `String::from_utf8_lossy` makes of `bytes`.
pub uninterp spec fn utf8_lossy(bytes: Seq<u8>) -> Seq<char>;

/// Calls `String::from_utf8_lossy`. Its result is named by `utf8_lossy`;
/// the one fact stated of it is the documented one that valid UTF-8 comes
/// back decoded unchanged. What replaces invalid sequences is left unsaid.
#[verifier::external_body]
fn string_from_utf8_lossy(bytes: &[u8]) -> (s: String)
    ensures
        s@ == utf8_lossy(bytes@),
        valid_utf8(bytes@) ==> s@ == decode_utf8(bytes@),
{
    String::from_utf8_lossy(bytes).into_owned()
}

/// Calls `String::push`, which appends the character `c`.
#[verifier::external_body]
fn string_push(s: &mut String, c: char)
    ensures
        final(s)@ == old(s)@.push(c),
{
    s.push(c)
}

/// The first `min(len, N)` bytes of `bytes`, padded with zeros to `N` bytes.
pub open spec fn truncate_pad(bytes: Seq<u8>, n: nat) -> Seq<u8> {
    Seq::new(n, |i: int| if i < bytes.len() { bytes[i] } else { 0u8 })
}

/// The bytes before the first zero byte (all of them when there is none).
pub open spec fn before_nul(bytes: Seq<u8>) -> Seq<u8>
    decreases bytes.len(),
{
    if bytes.len() == 0 {
        bytes
    } else if bytes[0] == 0 {
        Seq::empty()
    } else {
        seq![bytes[0]] + before_nul(bytes.drop_first())
    }
}

proof fn lemma_before_nul(bytes: Seq<u8>, i: int)
    requires
        0 <= i <= bytes.len(),
        forall|k: int| 0 <= k < i ==> bytes[k] != 0,
        i == bytes.len() || bytes[i] == 0,
    ensures
        before_nul(bytes) == bytes.take(i),
    decreases bytes.len(),
{
    if bytes.len() > 0 {
        if i > 0 {
            lemma_before_nul(bytes.drop_first(), i - 1);
            assert(seq![bytes[0]] + bytes.drop_first().take(i - 1) =~= bytes.take(i));
        } else {
            assert(bytes.take(0) =~= Seq::<u8>::empty());
        }
    } else {
        assert(bytes.take(i) =~= bytes);
    }
}

/// A string whose UTF-8 bytes hold no zero byte comes back from a buffer of
/// `n` bytes as the bytes that fitted: all of them, which decode to the
/// string again, when the string takes at most `n` bytes.
pub proof fn law_string_buf_roundtrip(s: Seq<char>, n: nat)
    requires
        forall|i: int| 0 <= i < encode_utf8(s).len() ==> #[trigger] encode_utf8(s)[i] != 0,
    ensures
        ({
            let e = encode_utf8(s);
            let kept = e.take(if e.len() <= n { e.len() as int } else { n as int });
            &&& before_nul(truncate_pad(e, n)) == kept
            &&& e.len() <= n ==> valid_utf8(kept) && decode_utf8(kept) == s
        }),
{
    let e = encode_utf8(s);
    let i: int = if e.len() <= n { e.len() as int } else { n as int };
    let b = truncate_pad(e, n);
    assert forall|k: int| 0 <= k < i implies b[k] != 0 by {
        assert(e[k] != 0);
    }
    lemma_before_nul(b, i);
    assert(b.take(i) =~= e.take(i));
    if e.len() <= n {
        assert(e.take(i) =~= e);
        vstd::utf8::encode_utf8_valid_utf8(s);
        vstd::utf8::encode_utf8_decode_utf8(s);
    }
}

impl<const N: usize> StringBuf<N> {
    /// The buffer holding the UTF-8 bytes of `s`, cut to `N` bytes or padded
    /// with zeros to `N` bytes.
    pub fn from_string(s: &String) -> (b: StringBuf<N>)
        ensures
            b.0@ == truncate_pad(encode_utf8(s@), N as nat),
    {
        let bytes = s.as_str().as_bytes();
        let len = bytes.len();
        let mut data: [u8; N] = [0u8; N];
        let mut i: usize = 0;
        while i < N
            invariant
                len == bytes@.len(),
                i <= N,
                data@.len() == N,
                forall|k: int| 0 <= k < i ==> #[trigger] data@[k] == truncate_pad(bytes@, N as nat)[k],
                forall|k: int| i <= k < N ==> #[trigger] data@[k] == 0u8,
            decreases N - i,
        {
            if i < len {
                data[i] = bytes[i];
            }
            i = i + 1;
        }
        proof {
            assert(data@ =~= truncate_pad(bytes@, N as nat));
        }
        StringBuf(data)
    }

    /// The string the buffer holds: its bytes before the first zero byte,
    /// decoded as UTF-8 with invalid sequences replaced.
    pub fn to_string_lossy(&self) -> (s: String)
        ensures
            s@ == utf8_lossy(before_nul(self.0@)),
            valid_utf8(before_nul(self.0@)) ==> s@ == decode_utf8(before_nul(self.0@)),
    {
        let mut n: usize = 0;
        while n < N && self.0[n] != 0
            invariant
                n <= N,
                self.0@.len() == N,
                forall|k: int| 0 <= k < n ==> self.0@[k] != 0,
            decreases N - n,
        {
            n = n + 1;
        }
        proof {
            lemma_before_nul(self.0@, n as int);
        }
        let all: &[u8] = self.0.as_slice();
        string_from_utf8_lossy(&all[0..n])
    }
}

impl<const N: usize> From<String> for StringBuf<N> {
    fn from(s: String) -> (b: StringBuf<N>)
        ensures
            b.0@ == truncate_pad(encode_utf8(s@), N as nat),
    {
        let b = StringBuf::<N>::from_string(&s);
        proof {
            let target = truncate_pad(encode_utf8(s@), N as nat);
            assert(b.0@ =~= target);
            let c = choose|x: StringBuf<N>| x.0@ == target;
            assert(c.0@ == target);
            assert(c.0 =~= b.0);
        }
        b
    }
}

impl<const N: usize> vstd::std_specs::convert::FromSpecImpl<String> for StringBuf<N> {
    open spec fn obeys_from_spec() -> bool {
        true
    }

    open spec fn from_spec(s: String) -> StringBuf<N> {
        choose|b: StringBuf<N>| b.0@ == truncate_pad(encode_utf8(s@), N as nat)
    }
}

impl<const N: usize> From<StringBuf<N>> for String {
    fn from(data: StringBuf<N>) -> (s: String)
        ensures
            s@ == utf8_lossy(before_nul(data.0@)),
            valid_utf8(before_nul(data.0@)) ==> s@ == decode_utf8(before_nul(data.0@)),
    {
        data.to_string_lossy()
    }
}

impl<const N: usize> vstd::std_specs::convert::FromSpecImpl<StringBuf<N>> for String {
    /// A `String` is not determined by its characters in specifications, so
    /// the conversion is stated by the `ensures` of `from` alone.
    open spec fn obeys_from_spec() -> bool {
        false
    }

    open spec fn from_spec(data: StringBuf<N>) -> String {
        choose|s: String| s@ == utf8_lossy(before_nul(data.0@))
    }
}

/// The lower-case hexadecimal digit of `n` (0 to 15).
pub open spec fn hex_lower(n: int) -> char {
    if n < 10 {
        (48 + n) as char
    } else {
        (87 + n) as char
    }
}

/// How a tag byte is shown: itself when printable ASCII, else `\xNN` in
/// lower-case hex.
pub open spec fn show_tag_byte(b: u8) -> Seq<char> {
    if 0x20 <= b < 0x7f {
        seq![b as char]
    } else {
        seq!['\\', 'x', hex_lower((b / 16) as int), hex_lower((b % 16) as int)]
    }
}

/// A tag shown as its four bytes in little-endian order.
pub open spec fn fourcc_spec(tag: u32) -> Seq<char> {
    let b = spec_u32_to_le_bytes(tag);
    show_tag_byte(b[0]) + show_tag_byte(b[1]) + show_tag_byte(b[2]) + show_tag_byte(b[3])
}

/// The value of a digit of "0123456789abcdef", or -1 for any other character.
pub open spec fn lower_hex_value(c: char) -> int {
    if '0' <= c <= '9' {
        c as int - 48
    } else if 'a' <= c <= 'f' {
        c as int - 87
    } else {
        -1
    }
}

/// The number of characters a tag byte takes in the text: one for a
/// printable ASCII byte, four for an escaped one.
pub open spec fn tag_byte_width(b: u8) -> nat {
    if 0x20 <= b < 0x7f {
        1
    } else {
        4
    }
}

/// Where the text of byte `i` of the four bytes `b` starts.
pub open spec fn tag_byte_start(b: Seq<u8>, i: int) -> nat
    decreases i,
{
    if i <= 0 {
        0
    } else {
        tag_byte_start(b, i - 1) + tag_byte_width(b[i - 1])
    }
}

/// The text `t` holds the byte `b` at `at`: the byte itself when it is
/// printable ASCII, otherwise a backslash, an `x` and two lower-case hex
/// digits that read back as the byte.
pub open spec fn holds_tag_byte(t: Seq<char>, at: int, b: u8) -> bool {
    if 0x20 <= b < 0x7f {
        t[at] == b as char
    } else {
        &&& t[at] == '\\'
        &&& t[at + 1] == 'x'
        &&& 0 <= lower_hex_value(t[at + 2])
        &&& 0 <= lower_hex_value(t[at + 3])
        &&& 16 * lower_hex_value(t[at + 2]) + lower_hex_value(t[at + 3]) == b
    }
}

proof fn lemma_show_tag_byte(pre: Seq<char>, b: u8, post: Seq<char>)
    ensures
        show_tag_byte(b).len() == tag_byte_width(b),
        holds_tag_byte(pre + show_tag_byte(b) + post, pre.len() as int, b),
{
    let t = pre + show_tag_byte(b) + post;
    let at = pre.len() as int;
    if !(0x20 <= b < 0x7f) {
        assert(t[at] == show_tag_byte(b)[0]);
        assert(t[at + 1] == show_tag_byte(b)[1]);
        assert(t[at + 2] == show_tag_byte(b)[2]);
        assert(t[at + 3] == show_tag_byte(b)[3]);
    } else {
        assert(t[at] == show_tag_byte(b)[0]);
    }
}

/// The text of a tag reads back as its four little-endian bytes, in order:
/// each printable ASCII byte as itself, each other byte as `\xNN` in
/// lower-case hex.
pub proof fn law_fourcc(tag: u32)
    ensures
        ({
            let b = spec_u32_to_le_bytes(tag);
            let t = fourcc_spec(tag);
            &&& t.len() == tag_byte_start(b, 4)
            &&& forall|i: int| 0 <= i < 4 ==> holds_tag_byte(t, #[trigger] tag_byte_start(b, i) as int, b[i])
        }),
{
    let b = spec_u32_to_le_bytes(tag);
    vstd::bytes::lemma_auto_spec_u32_to_from_le_bytes();
    let p0 = show_tag_byte(b[0]);
    let p1 = show_tag_byte(b[1]);
    let p2 = show_tag_byte(b[2]);
    let p3 = show_tag_byte(b[3]);
    let e = Seq::<char>::empty();
    lemma_show_tag_byte(e, b[0], p1 + p2 + p3);
    lemma_show_tag_byte(p0, b[1], p2 + p3);
    lemma_show_tag_byte(p0 + p1, b[2], p3);
    lemma_show_tag_byte(p0 + p1 + p2, b[3], e);
    assert(e + p0 + (p1 + p2 + p3) =~= fourcc_spec(tag));
    assert(p0 + p1 + (p2 + p3) =~= fourcc_spec(tag));
    assert(p0 + p1 + p2 + p3 + e =~= fourcc_spec(tag));
    assert(tag_byte_start(b, 0) == 0);
    assert(tag_byte_start(b, 1) == tag_byte_width(b[0]));
    assert(tag_byte_start(b, 2) == tag_byte_start(b, 1) + tag_byte_width(b[1]));
    assert(tag_byte_start(b, 3) == tag_byte_start(b, 2) + tag_byte_width(b[2]));
    assert(tag_byte_start(b, 4) == tag_byte_start(b, 3) + tag_byte_width(b[3]));
}

/// A tag whose four bytes are all printable ASCII reads as those four
/// characters, in little-endian order.
pub proof fn law_fourcc_printable(tag: u32)
    requires
        forall|i: int| 0 <= i < 4 ==> 0x20 <= #[trigger] spec_u32_to_le_bytes(tag)[i] < 0x7f,
    ensures
        ({
            let b = spec_u32_to_le_bytes(tag);
            fourcc_spec(tag) == seq![b[0] as char, b[1] as char, b[2] as char, b[3] as char]
        }),
{
    let b = spec_u32_to_le_bytes(tag);
    vstd::bytes::lemma_auto_spec_u32_to_from_le_bytes();
    law_fourcc(tag);
    assert(tag_byte_start(b, 0) == 0);
    assert(tag_byte_start(b, 1) == 1);
    assert(tag_byte_start(b, 2) == 2);
    assert(tag_byte_start(b, 3) == 3);
    assert(tag_byte_start(b, 4) == 4);
    assert(holds_tag_byte(fourcc_spec(tag), tag_byte_start(b, 0) as int, b[0]));
    assert(holds_tag_byte(fourcc_spec(tag), tag_byte_start(b, 1) as int, b[1]));
    assert(holds_tag_byte(fourcc_spec(tag), tag_byte_start(b, 2) as int, b[2]));
    assert(holds_tag_byte(fourcc_spec(tag), tag_byte_start(b, 3) as int, b[3]));
    assert(fourcc_spec(tag) =~= seq![b[0] as char, b[1] as char, b[2] as char, b[3] as char]);
}

fn hex_lower_digit(n: u8) -> (c: char)
    requires
        n < 16,
    ensures
        c == hex_lower(n as int),
{
    if n < 10 {
        (48 + n) as char
    } else {
        (87 + n) as char
    }
}

/// A tag as text: its four bytes in little-endian order, each printable ASCII
/// byte as itself and any other as `\xNN` (lower-case hex).
pub fn fourcc(tag: u32) -> (s: String)
    ensures
        s@ == fourcc_spec(tag),
{
    let bytes = u32_to_le_bytes(tag);
    let mut s = String::new();
    let mut i: usize = 0;
    while i < 4
        invariant
            i <= 4,
            bytes@ == spec_u32_to_le_bytes(tag),
            bytes@.len() == 4,
            s@ == (if i == 0 { Seq::<char>::empty() } else if i == 1 { show_tag_byte(bytes@[0]) } else if i == 2 {
                show_tag_byte(bytes@[0]) + show_tag_byte(bytes@[1])
            } else if i == 3 {
                show_tag_byte(bytes@[0]) + show_tag_byte(bytes@[1]) + show_tag_byte(bytes@[2])
            } else {
                fourcc_spec(tag)
            }),
        decreases 4 - i,
    {
        let b = bytes[i];
        let ghost before = s@;
        if 0x20 <= b && b < 0x7f {
            string_push(&mut s, b as char);
        } else {
            string_push(&mut s, '\\');
            string_push(&mut s, 'x');
            string_push(&mut s, hex_lower_digit(b / 16));
            string_push(&mut s, hex_lower_digit(b % 16));
        }
        proof {
            assert(s@ =~= before + show_tag_byte(b));
        }
        i = i + 1;
    }
    s
}

} // verus!
