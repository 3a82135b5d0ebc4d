//! Owned TLV trees and their packing into a flat buffer.

use vstd::prelude::*;
use crate::bytes::copy_words;
use crate::bytes::le_bytes_of;
use crate::bytes::le_bytes_to_words;
use crate::bytes::lemma_le_bytes_of_words;
use crate::bytes::words_of_le;
use crate::bytes::words_to_le_bytes;
use crate::data::parse_stream;
use crate::data::RawTlv;
use crate::header::length_word;
use crate::header::padding_for;
use crate::header::words_for;
use crate::header::TlvHeader;
use crate::object::TlvObject;
use crate::object::unpad_spec;

verus! {

/// The extension of a TLV tree: raw bytes or nested TLVs.
pub enum TreeExt {
    Bytes(Seq<u8>),
    Nested(Seq<TlvTree>),
}

/// A TLV object as a mathematical tree: its tag, the words of its fixed part
/// and its extension.
pub struct TlvTree {
    pub tag: u32,
    pub data: Seq<u32>,
    pub ext: TreeExt,
}

/// `n` zero bytes.
pub open spec fn zeros(n: nat) -> Seq<u8> {
    Seq::new(n, |i: int| 0u8)
}

/// The words that hold the extension bytes `b`, padded with zeros.
pub open spec fn padded_words(b: Seq<u8>) -> Seq<u32> {
    words_of_le(b + zeros(padding_for(b.len())))
}

/// The two header words of a TLV with tag `tag` and payload length `len`.
pub open spec fn header_words(tag: u32, len: nat) -> Seq<u32> {
    seq![tag, length_word(len as u16, 0)]
}

/// The words of a TLV tree packed into a flat buffer.
pub open spec fn encode(t: TlvTree) -> Seq<u32>
    decreases t,
{
    match t.ext {
        TreeExt::Bytes(b) => header_words(t.tag, 4 * t.data.len() + b.len()) + t.data
            + padded_words(b),
        TreeExt::Nested(kids) => {
            let body = encode_all(kids);
            header_words(t.tag, 4 * (t.data.len() + body.len())) + t.data + body
        },
    }
}

/// The words of a sequence of TLV trees packed one after the other.
pub open spec fn encode_all(s: Seq<TlvTree>) -> Seq<u32>
    decreases s,
{
    if s.len() == 0 {
        Seq::empty()
    } else {
        encode_all(s.drop_last()) + encode(s.last())
    }
}

/// The payload length in bytes of a TLV tree.
pub open spec fn tree_len(t: TlvTree) -> nat {
    match t.ext {
        TreeExt::Bytes(b) => 4 * t.data.len() + b.len(),
        TreeExt::Nested(kids) => 4 * (t.data.len() + encode_all(kids).len()),
    }
}

/// Every node of the tree has a payload length that a header can hold.
pub open spec fn packable(t: TlvTree) -> bool
    decreases t,
{
    &&& tree_len(t) <= 0xffff
    &&& match t.ext {
        TreeExt::Bytes(b) => true,
        TreeExt::Nested(kids) => all_packable(kids),
    }
}

/// Every tree of the sequence is packable.
pub open spec fn all_packable(s: Seq<TlvTree>) -> bool
    decreases s,
{
    if s.len() == 0 {
        true
    } else {
        all_packable(s.drop_last()) && packable(s.last())
    }
}

/// The header of a packed TLV tree.
pub open spec fn header_of(t: TlvTree) -> TlvHeader {
    TlvHeader { tag: t.tag, length: tree_len(t) as u16, reserved: 0 }
}

/// A packed TLV tree as a header and its payload.
pub open spec fn raw_of(t: TlvTree) -> RawTlv {
    (header_of(t), encode(t).skip(2))
}

/// The headers and payloads of a sequence of packed TLV trees.
pub open spec fn raws(s: Seq<TlvTree>) -> Seq<RawTlv>
    decreases s.len(),
{
    if s.len() == 0 {
        Seq::empty()
    } else {
        raws(s.drop_last()).push(raw_of(s.last()))
    }
}

proof fn lemma_padded_words(b: Seq<u8>)
    ensures
        padded_words(b).len() == words_for(b.len()),
        le_bytes_of(padded_words(b)) == b + zeros(padding_for(b.len())),
{
    let p = b + zeros(padding_for(b.len()));
    assert(p.len() == 4 * words_for(b.len()));
    assert(p.len() % 4 == 0);
    assert(p.len() / 4 == words_for(b.len()));
    lemma_le_bytes_of_words(p);
}

proof fn lemma_header_of(t: TlvTree)
    requires
        0 <= tree_len(t) <= 0xffff,
    ensures
        TlvHeader::from_spec_words(encode(t)[0], encode(t)[1]) == header_of(t),
        encode(t).len() == 2 + header_of(t).payload_words(),
        encode(t).skip(2).take(t.data.len() as int) == t.data,
{
    let h = header_of(t);
    h.lemma_words_roundtrip();
    match t.ext {
        TreeExt::Bytes(b) => {
            lemma_padded_words(b);
            assert(words_for((4 * t.data.len() + b.len()) as nat) == t.data.len() + words_for(
                b.len(),
            ));
            assert(encode(t).skip(2).take(t.data.len() as int) =~= t.data);
        },
        TreeExt::Nested(kids) => {
            assert(encode(t).skip(2).take(t.data.len() as int) =~= t.data);
        },
    }
}

/// Parsing two well-formed streams one after the other gives the TLVs of the
/// first followed by those of the second.
pub proof fn lemma_parse_append(a: Seq<u32>, b: Seq<u32>)
    requires
        parse_stream(a) is Some,
        parse_stream(b) is Some,
    ensures
        parse_stream(a + b) == Some(parse_stream(a)->Some_0 + parse_stream(b)->Some_0),
    decreases a.len(),
{
    if a.len() == 0 {
        assert(a + b =~= b);
        assert(parse_stream(a)->Some_0 + parse_stream(b)->Some_0 =~= parse_stream(b)->Some_0);
    } else {
        let h = TlvHeader::from_spec_words(a[0], a[1]);
        let wl = h.payload_words() as int;
        let ab = a + b;
        assert(ab[0] == a[0] && ab[1] == a[1]);
        assert(ab.skip(2 + wl) =~= a.skip(2 + wl) + b);
        assert(ab.subrange(2, 2 + wl) =~= a.subrange(2, 2 + wl));
        lemma_parse_append(a.skip(2 + wl), b);
        let ra = parse_stream(a.skip(2 + wl))->Some_0;
        let rb = parse_stream(b)->Some_0;
        assert(seq![(h, a.subrange(2, 2 + wl))] + (ra + rb) =~= (seq![(h, a.subrange(2, 2 + wl))]
            + ra) + rb);
    }
}

/// A packed tree reads back as one TLV with the tree's header; its payload
/// starts with the fixed part, and what follows is the tree's extension:
/// the extension bytes once the padding is removed, or a stream of the
/// children's TLVs.
pub proof fn law_pack_parse(t: TlvTree)
    requires
        packable(t),
    ensures
        parse_stream(encode(t)) == Some(seq![raw_of(t)]),
        header_of(t).length == tree_len(t),
        raw_of(t).1.take(t.data.len() as int) == t.data,
        t.ext matches TreeExt::Bytes(b) ==> unpad_spec(header_of(t), raw_of(t).1.skip(t.data.len() as int)) == b,
        t.ext matches TreeExt::Nested(kids) ==> parse_stream(raw_of(t).1.skip(t.data.len() as int)) == Some(raws(kids)),
    decreases t,
{
    lemma_header_of(t);
    let w = encode(t);
    let h = header_of(t);
    let wl = h.payload_words() as int;
    assert(w.skip(2 + wl) =~= Seq::<u32>::empty());
    assert(w.subrange(2, 2 + wl) =~= w.skip(2));
    assert(parse_stream(w.skip(2 + wl)) == Some(Seq::<RawTlv>::empty()));
    assert(seq![raw_of(t)] + Seq::<RawTlv>::empty() =~= seq![raw_of(t)]);
    let d = t.data.len() as int;
    match t.ext {
        TreeExt::Bytes(b) => {
            lemma_padded_words(b);
            assert(w.skip(2).skip(d) =~= padded_words(b));
            let bytes = b + zeros(padding_for(b.len()));
            assert(h.spec_padding() == padding_for(b.len())) by {
                assert(words_for((4 * d + b.len()) as nat) == d + words_for(b.len()));
            }
            assert(bytes.take(b.len() as int) =~= b);
        },
        TreeExt::Nested(kids) => {
            assert(w.skip(2).skip(d) =~= encode_all(kids));
            law_pack_all(kids);
        },
    }
}

/// A sequence of packed trees reads back as their TLVs, in order.
pub proof fn law_pack_all(s: Seq<TlvTree>)
    requires
        all_packable(s),
    ensures
        parse_stream(encode_all(s)) == Some(raws(s)),
    decreases s,
{
    if s.len() == 0 {
        assert(parse_stream(encode_all(s)) == Some(Seq::<RawTlv>::empty()));
    } else {
        law_pack_all(s.drop_last());
        law_pack_parse(s.last());
        lemma_parse_append(encode_all(s.drop_last()), encode(s.last()));
        assert(raws(s.drop_last()) + seq![raw_of(s.last())] =~= raws(s));
    }
}

/// The extension of an owned TLV: raw bytes or nested TLVs.
pub enum HostExt {
    /// The owned extension payload bytes.
    Bytes(Vec<u8>),
    /// The owned, nested sub-TLVs.
    Nested(Vec<HostTlv>),
}

/// The host "owning" version of a TLV object: its tag, the words of its
/// fixed part and its extension, which can be packed into a flat buffer.
pub struct HostTlv {
    pub tag: u32,
    pub data: Vec<u32>,
    pub ext: HostExt,
}

/// The tree that an owned TLV stands for.
pub open spec fn tree_of(h: HostTlv) -> TlvTree
    decreases h,
{
    TlvTree {
        tag: h.tag,
        data: h.data@,
        ext: match h.ext {
            HostExt::Bytes(b) => TreeExt::Bytes(b@),
            HostExt::Nested(kids) => TreeExt::Nested(trees_of(kids@)),
        },
    }
}

/// The trees that a sequence of owned TLVs stands for.
pub open spec fn trees_of(s: Seq<HostTlv>) -> Seq<TlvTree>
    decreases s,
{
    if s.len() == 0 {
        Seq::empty()
    } else {
        trees_of(s.drop_last()).push(tree_of(s.last()))
    }
}

impl View for HostTlv {
    type V = TlvTree;

    open spec fn view(&self) -> TlvTree {
        tree_of(*self)
    }
}

proof fn lemma_trees_of(s: Seq<HostTlv>)
    ensures
        trees_of(s).len() == s.len(),
        forall|i: int| 0 <= i < s.len() ==> #[trigger] trees_of(s)[i] == tree_of(s[i]),
    decreases s.len(),
{
    if s.len() > 0 {
        lemma_trees_of(s.drop_last());
    }
}

proof fn lemma_all_packable(s: Seq<TlvTree>)
    ensures
        all_packable(s) <==> forall|i: int| 0 <= i < s.len() ==> #[trigger] packable(s[i]),
    decreases s.len(),
{
    if s.len() > 0 {
        lemma_all_packable(s.drop_last());
        if forall|i: int| 0 <= i < s.len() ==> #[trigger] packable(s[i]) {
            assert forall|i: int| 0 <= i < s.drop_last().len() implies #[trigger] packable(
                s.drop_last()[i],
            ) by {
                assert(s.drop_last()[i] == s[i]);
            }
            assert(packable(s[s.len() - 1]));
        }
        if all_packable(s) {
            assert forall|i: int| 0 <= i < s.len() implies #[trigger] packable(s[i]) by {
                if i < s.len() - 1 {
                    assert(s.drop_last()[i] == s[i]);
                }
            }
        }
    }
}

pub proof fn lemma_encode_len(t: TlvTree)
    requires
        tree_len(t) <= 0xffff,
    ensures
        encode(t).len() == 2 + words_for(tree_len(t)),
{
    lemma_header_of(t);
}

proof fn lemma_encode_all_take(s: Seq<TlvTree>, i: int)
    requires
        0 <= i < s.len(),
    ensures
        encode_all(s.take(i + 1)) == encode_all(s.take(i)) + encode(s[i]),
{
    assert(s.take(i + 1).drop_last() =~= s.take(i));
}

/// A copy of a byte vector followed by `n` zero bytes.
fn bytes_with_zeros(b: &Vec<u8>, n: usize) -> (out: Vec<u8>)
    ensures
        out@ == b@ + zeros(n as nat),
{
    let mut out: Vec<u8> = Vec::new();
    let len = b.len();
    let mut i: usize = 0;
    while i < len
        invariant
            len == b@.len(),
            i <= len,
            out@ == b@.take(i as int),
        decreases len - i,
    {
        out.push(b[i]);
        proof { assert(b@.take(i as int + 1) =~= b@.take(i as int).push(b@[i as int])); }
        i = i + 1;
    }
    let mut j: usize = 0;
    while j < n
        invariant
            len == b@.len(),
            j <= n,
            out@ == b@ + zeros(j as nat),
        decreases n - j,
    {
        out.push(0u8);
        proof { assert(b@ + zeros(j as nat + 1) =~= (b@ + zeros(j as nat)).push(0u8)); }
        j = j + 1;
    }
    proof { assert(b@.take(len as int) =~= b@); }
    out
}

impl HostTlv {
    /// An owned TLV with tag `T::TAG`, fixed part `data` and raw extension
    /// bytes `ext`.
    pub fn with_bytes<T: TlvObject>(data: &T, ext: Vec<u8>) -> (h: HostTlv)
        ensures
            h@ == (TlvTree { tag: T::TAG, data: data.spec_encode(), ext: TreeExt::Bytes(ext@) }),
    {
        HostTlv { tag: T::TAG, data: data.to_words(), ext: HostExt::Bytes(ext) }
    }

    /// An owned TLV with tag `T::TAG`, fixed part `data` and nested TLVs
    /// `ext`.
    pub fn with_children<T: TlvObject>(data: &T, ext: Vec<HostTlv>) -> (h: HostTlv)
        ensures
            h@ == (TlvTree { tag: T::TAG, data: data.spec_encode(), ext: TreeExt::Nested(trees_of(ext@)) }),
    {
        HostTlv { tag: T::TAG, data: data.to_words(), ext: HostExt::Nested(ext) }
    }

    /// The payload length in bytes of every node, checked: `None` when some
    /// node of the tree is too long for a header.
    #[verifier::loop_isolation(false)]
    pub fn packed_len(&self) -> (r: Option<u16>)
        ensures
            r is Some <==> packable(self@),
            r matches Some(n) ==> n == tree_len(self@),
        decreases self,
    {
        let d = self.data.len();
        if d > 0x3fff {
            return None;
        }
        match &self.ext {
            HostExt::Bytes(b) => {
                if b.len() > 0xffff - 4 * d {
                    None
                } else {
                    Some((4 * d + b.len()) as u16)
                }
            },
            HostExt::Nested(kids) => {
                let ghost ts = trees_of(kids@);
                proof { lemma_trees_of(kids@); lemma_all_packable(ts); }
                let n = kids.len();
                let mut words: usize = d;
                let mut i: usize = 0;
                while i < n
                    invariant
                        n == kids@.len(),
                        ts == trees_of(kids@),
                        ts.len() == n,
                        forall|k: int| 0 <= k < n ==> #[trigger] ts[k] == tree_of(kids@[k]),
                        d <= 0x3fff,
                        i <= n,
                        words == d + encode_all(ts.take(i as int)).len(),
                        words <= 0x3fff,
                        forall|k: int| 0 <= k < i ==> #[trigger] packable(ts[k]),
                    decreases n - i,
                {
                    proof {
                        assert(decreases_to!(self => self.ext));
                        assert(decreases_to!(self.ext => kids));
                        assert(decreases_to!(kids => kids@[i as int]));
                    }
                    let kl = kids[i].packed_len();
                    match kl {
                        None => {
                            proof {
                                assert(!packable(ts[i as int]));
                                assert(!all_packable(ts));
                                assert(self@.ext == TreeExt::Nested(ts));
                            }
                            return None;
                        },
                        Some(len) => {
                            proof {
                                lemma_encode_len(ts[i as int]);
                                lemma_encode_all_take(ts, i as int);
                            }
                            let kw = 2 + (len as usize + 3) / 4;
                            if kw > 0x3fff - words {
                                proof {
                                    assert(encode_all(ts.take(i as int + 1)).len() > 0x3fff - d);
                                    lemma_encode_all_prefix_len(ts, i as int + 1);
                                }
                                return None;
                            }
                            words = words + kw;
                        },
                    }
                    i = i + 1;
                }
                proof { assert(ts.take(n as int) =~= ts); }
                Some((4 * words) as u16)
            },
        }
    }
}

impl HostTlv {
    /// The words of this tree packed into a flat buffer.
    #[verifier::loop_isolation(false)]
    pub fn pack_words(&self) -> (w: Vec<u32>)
        requires
            packable(self@),
        ensures
            w@ == encode(self@),
        decreases self,
    {
        let d = self.data.len();
        let mut out: Vec<u32> = Vec::new();
        match &self.ext {
            HostExt::Bytes(b) => {
                let len = 4 * d + b.len();
                let h = TlvHeader { tag: self.tag, length: len as u16, reserved: 0 };
                let (w0, w1) = h.to_words();
                out.push(w0);
                out.push(w1);
                let mut data = copy_words(self.data.as_slice());
                out.append(&mut data);
                let pad = (4 - b.len() % 4) % 4;
                let padded = bytes_with_zeros(b, pad);
                proof {
                    assert(pad == padding_for(b@.len()));
                    assert(padded@.len() % 4 == 0);
                }
                let mut ext = le_bytes_to_words(padded.as_slice());
                out.append(&mut ext);
                proof {
                    assert(out@ =~= encode(self@));
                }
                out
            },
            HostExt::Nested(kids) => {
                let ghost ts = trees_of(kids@);
                proof {
                    lemma_trees_of(kids@);
                    lemma_all_packable(ts);
                    assert(self@.ext == TreeExt::Nested(ts));
                }
                let n = kids.len();
                let mut body: Vec<u32> = Vec::new();
                let mut i: usize = 0;
                while i < n
                    invariant
                        i <= n,
                        body@ == encode_all(ts.take(i as int)),
                    decreases n - i,
                {
                    proof {
                        assert(decreases_to!(self => self.ext));
                        assert(decreases_to!(self.ext => kids));
                        assert(decreases_to!(kids => kids@[i as int]));
                        assert(packable(ts[i as int]));
                        lemma_encode_all_take(ts, i as int);
                    }
                    let mut kw = kids[i].pack_words();
                    body.append(&mut kw);
                    i = i + 1;
                }
                proof {
                    assert(ts.take(n as int) =~= ts);
                }
                let len = 4 * (d + body.len());
                let h = TlvHeader { tag: self.tag, length: len as u16, reserved: 0 };
                let (w0, w1) = h.to_words();
                out.push(w0);
                out.push(w1);
                let mut data = copy_words(self.data.as_slice());
                out.append(&mut data);
                out.append(&mut body);
                proof {
                    assert(out@ =~= encode(self@));
                }
                out
            },
        }
    }
}

/// A trait for the host "owning" version of TLV objects, which own their
/// data and can be packed into a flat byte buffer.
pub trait HostTlvObject {
    /// Every node of the object has a payload length that a header can hold.
    spec fn spec_packable(&self) -> bool;

    /// The packed bytes of the object.
    spec fn spec_packed(&self) -> Seq<u8>;

    /// Packs the host object into a flat byte vector, each TLV preceded by its
    /// header and padded with zeros to a whole number of words.
    fn pack(&self) -> (r: Vec<u8>)
        requires
            self.spec_packable(),
        ensures
            r@ == self.spec_packed(),
    ;
}

impl HostTlvObject for HostTlv {
    open spec fn spec_packable(&self) -> bool {
        packable(self@)
    }

    open spec fn spec_packed(&self) -> Seq<u8> {
        le_bytes_of(encode(self@))
    }

    fn pack(&self) -> (r: Vec<u8>) {
        let w = self.pack_words();
        words_to_le_bytes(w.as_slice())
    }
}

/// The packed words of a prefix of a sequence are no more than those of the
/// whole sequence.
proof fn lemma_encode_all_prefix_len(s: Seq<TlvTree>, i: int)
    requires
        0 <= i <= s.len(),
    ensures
        encode_all(s.take(i)).len() <= encode_all(s).len(),
    decreases s.len() - i,
{
    if i < s.len() {
        lemma_encode_all_prefix_len(s, i + 1);
        lemma_encode_all_take(s, i);
    } else {
        assert(s.take(i) =~= s);
    }
}

} // verus!
