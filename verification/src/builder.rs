//! Building TLV objects in place in a word buffer.

use vstd::prelude::*;
use crate::bytes::le_bytes_of;
use crate::bytes::words_to_le_bytes;
use crate::header::length_word;
use crate::header::words_for;
use crate::header::TlvHeader;
use crate::host::encode;
use crate::host::encode_all;
use crate::host::header_words;
use crate::host::packable;
use crate::host::all_packable;
use crate::host::tree_len;
use crate::host::TlvTree;
use crate::host::TreeExt;
use crate::host::HostTlv;
use crate::host::HostTlvObject;
use crate::host::law_pack_parse;
use crate::host::raw_of;
use crate::data::parse_stream;
use crate::bytes::words_of_le;
use crate::bytes::lemma_words_of_le_bytes;
use crate::object::TlvObject;

verus! {

/// Error returned when a TLV object does not fit where it is built.
#[derive(Clone, Copy, Debug, PartialEq, Eq, Structural)]
pub struct TlvError;

/// Error returned when a finished builder does not describe a buffer that
/// starts with its root object.
#[derive(Clone, Copy, Debug, PartialEq, Eq, Structural)]
pub struct InvalidBufferError;

/// The header written for an object of tag `tag` whose fixed part has `words`
/// words.
pub open spec fn object_header(tag: u32, words: nat) -> TlvHeader {
    TlvHeader { tag, length: (4 * words) as u16, reserved: 0 }
}

/// A TLV tree with no extension yet, to which children are added.
pub open spec fn node(tag: u32, data: Seq<u32>) -> TlvTree {
    TlvTree { tag, data, ext: TreeExt::Nested(Seq::empty()) }
}

/// A TLV tree with no extension.
pub open spec fn leaf(tag: u32, data: Seq<u32>) -> TlvTree {
    TlvTree { tag, data, ext: TreeExt::Bytes(Seq::empty()) }
}

/// The children of a tree with nested TLVs.
pub open spec fn kids(t: TlvTree) -> Seq<TlvTree> {
    match t.ext {
        TreeExt::Nested(k) => k,
        TreeExt::Bytes(b) => Seq::empty(),
    }
}

/// `t` with one more child `k` at the end.
pub open spec fn with_kid(t: TlvTree, k: TlvTree) -> TlvTree {
    TlvTree { tag: t.tag, data: t.data, ext: TreeExt::Nested(kids(t).push(k)) }
}

/// A builder for creating TLV objects in a word buffer.
///
/// The builder writes the header of its object at `start()` and appends to
/// it from `end()` on. Its region `start()..end()` holds the object built so
/// far; while every update of its length has fitted (`exact()`), the region
/// is the packed form of `tree()`.
pub struct TlvBuilder {
    buf: Vec<u32>,
    has_buf: bool,
    hdr: usize,
    header: TlvHeader,
    pos: usize,
    attached: bool,
    base: Ghost<Seq<u32>>,
    region: Ghost<Seq<u32>>,
    tree: Ghost<TlvTree>,
    exact: Ghost<bool>,
}

impl TlvBuilder {
    /// The builder's fields agree with each other and with its buffer.
    pub closed spec fn wf(self) -> bool {
        &&& self.hdr == self.base@.len()
        &&& self.region@.len() >= 2
        &&& self.region@.take(2) == self.header.spec_words()
        &&& self.has_buf ==> {
            &&& self.pos == self.hdr + self.region@.len()
            &&& self.pos <= self.buf@.len()
            &&& self.buf@.take(self.hdr as int) == self.base@
            &&& self.buf@.subrange(self.hdr as int, self.pos as int) == self.region@
        }
        &&& !self.has_buf ==> !self.attached && self.buf@.len() == 0
        &&& self.exact@ ==> {
            &&& self.region@ == encode(self.tree@)
            &&& packable(self.tree@)
            &&& self.tree@.ext is Nested
        }
    }

    /// The whole buffer the builder holds (empty while a child builder holds it).
    pub closed spec fn buffer(self) -> Seq<u32> {
        self.buf@
    }

    /// The builder holds the buffer.
    pub closed spec fn has_buffer(self) -> bool {
        self.has_buf
    }

    /// The builder can still append: its free space was not given away.
    pub closed spec fn attached(self) -> bool {
        self.attached
    }

    /// Where the header of the builder's object stands.
    pub closed spec fn start(self) -> nat {
        self.hdr as nat
    }

    /// Where the builder appends next.
    pub closed spec fn end(self) -> nat {
        self.pos as nat
    }

    /// The header of the object being built.
    pub closed spec fn spec_header(self) -> TlvHeader {
        self.header
    }

    /// The words of the object being built.
    pub closed spec fn region(self) -> Seq<u32> {
        self.region@
    }

    /// The words of the buffer before the object being built.
    pub closed spec fn base(self) -> Seq<u32> {
        self.base@
    }

    /// The tree of objects added so far.
    pub closed spec fn tree(self) -> TlvTree {
        self.tree@
    }

    /// Every length update so far has fitted, so the region is the packed
    /// tree.
    pub closed spec fn exact(self) -> bool {
        self.exact@
    }
}

/// What a well-formed builder's accessors tell of each other: the header
/// starts the region, which follows the base; while the builder holds the
/// buffer, the region ends at `end()` within it; and a child builder made at
/// the end of a well-formed parent ends at least two words (the parent's
/// header) after the parent's start.
pub proof fn lemma_builder_layout(b: TlvBuilder, p: TlvBuilder)
    requires
        b.wf(),
    ensures
        b.start() == b.base().len(),
        b.region().len() >= 2,
        b.region().take(2) == b.spec_header().spec_words(),
        b.has_buffer() ==> {
            &&& b.end() == b.start() + b.region().len()
            &&& b.end() <= b.buffer().len()
            &&& b.buffer().take(b.start() as int) == b.base()
            &&& b.buffer().subrange(b.start() as int, b.end() as int) == b.region()
        },
        !b.has_buffer() ==> !b.attached() && b.buffer().len() == 0,
        p.wf() && child_of(b, p) ==> p.start() + 2 <= b.start() + 2 <= b.end(),
{
}

/// `b` is a fresh builder for an object of tag `tag` with fixed part `data`,
/// made at `at` in the buffer `buf` whose words before `at` are `base`.
pub open spec fn fresh(b: TlvBuilder, buf: Seq<u32>, at: nat, base: Seq<u32>, tag: u32, data: Seq<u32>) -> bool {
    &&& b.wf()
    &&& b.has_buffer()
    &&& b.attached()
    &&& b.exact()
    &&& b.start() == at
    &&& b.base() == base
    &&& b.spec_header() == object_header(tag, data.len())
    &&& b.region() == object_header(tag, data.len()).spec_words() + data
    &&& b.end() == at + 2 + data.len()
    &&& b.buffer() == base + b.region() + buf.skip((at + 2 + data.len()) as int)
    &&& b.tree() == node(tag, data)
}

/// There is room at `at` in a buffer of `len` words for a `T`: a header and
/// `T`'s fixed part, whose byte size fits in a header.
pub open spec fn room_for<T: TlvObject>(len: nat, at: nat) -> bool {
    &&& at + 2 <= len
    &&& T::spec_word_size() <= 0x3fff
    &&& at + 2 + T::spec_word_size() <= len
}

/// The buffer with the header `h` written at `at`.
pub open spec fn with_header(buf: Seq<u32>, at: int, h: TlvHeader) -> Seq<u32> {
    buf.take(at) + h.spec_words() + buf.skip(at + 2)
}

fn write_header(buf: &mut Vec<u32>, at: usize, h: &TlvHeader)
    requires
        at + 2 <= old(buf)@.len(),
    ensures
        final(buf)@ == with_header(old(buf)@, at as int, *h),
{
    let (w0, w1) = h.to_words();
    let len = buf.len();
    buf.set(at, w0);
    buf.set(at + 1, w1);
    proof {
        assert(final(buf)@ =~= with_header(old(buf)@, at as int, *h));
    }
}

fn write_words(buf: &mut Vec<u32>, at: usize, words: &[u32])
    requires
        at + words@.len() <= old(buf)@.len(),
    ensures
        final(buf)@ == old(buf)@.take(at as int) + words@ + old(buf)@.skip(at + words@.len()),
{
    let n = words.len();
    let len = buf.len();
    let mut i: usize = 0;
    while i < n
        invariant
            n == words@.len(),
            i <= n,
            len == buf@.len(),
            len == old(buf)@.len(),
            at + n <= len,
            buf@ == old(buf)@.take(at as int) + words@.take(i as int) + old(buf)@.skip(at + i),
        decreases n - i,
    {
        let ghost prev = buf@;
        buf.set(at + i, words[i]);
        proof {
            let target = old(buf)@.take(at as int) + words@.take(i + 1) + old(buf)@.skip(at + i + 1);
            assert forall|k: int| 0 <= k < buf@.len() implies #[trigger] buf@[k] == target[k] by {
                if k < at {
                } else if k < at + i {
                } else if k == at + i {
                } else {
                }
            }
            assert(buf@ =~= target);
        }
        i = i + 1;
    }
    proof {
        assert(words@.take(n as int) =~= words@);
    }
}

proof fn lemma_node_exact(tag: u32, data: Seq<u32>)
    requires
        data.len() <= 0x3fff,
    ensures
        encode(node(tag, data)) == object_header(tag, data.len()).spec_words() + data,
        packable(node(tag, data)),
{
    let t = node(tag, data);
    assert(encode_all(Seq::<TlvTree>::empty()) =~= Seq::<u32>::empty());
    assert(encode(t) =~= object_header(tag, data.len()).spec_words() + data);
}

/// Makes a builder for `value` at `at` in `buf`; on failure hands the buffer
/// back.
fn create<T: TlvObject>(buf: Vec<u32>, at: usize, value: &T, base: Ghost<Seq<u32>>) -> (r: Result<TlvBuilder, Vec<u32>>)
    requires
        at <= buf@.len(),
        buf@.take(at as int) == base@,
    ensures
        r is Ok <==> room_for::<T>(buf@.len(), at as nat),
        r matches Ok(b) ==> fresh(b, buf@, at as nat, base@, T::TAG, value.spec_encode()),
        r is Ok ==> value.spec_encode().len() == T::spec_word_size(),
        r matches Err(v) ==> v@ == (if at + 2 <= buf@.len() && T::spec_word_size() <= 0x3fff {
            with_header(buf@, at as int, object_header(T::TAG, T::spec_word_size()))
        } else {
            buf@
        }),
{
    let ghost orig = buf@;
    let mut buf = buf;
    let len = buf.len();
    if len - at < 2 {
        return Err(buf);
    }
    let w = T::word_size();
    if w > 0x3fff {
        return Err(buf);
    }
    let header = TlvHeader { tag: T::TAG, length: (4 * w) as u16, reserved: 0 };
    write_header(&mut buf, at, &header);
    if len - at - 2 < w {
        return Err(buf);
    }
    let data = value.to_words();
    write_words(&mut buf, at + 2, data.as_slice());
    let ghost region = header.spec_words() + data@;
    proof {
        lemma_node_exact(T::TAG, data@);
        assert(region.take(2) =~= header.spec_words());
        let old_buf = buf@;
        assert(buf@.take(at as int) =~= base@);
        assert(buf@.subrange(at as int, at + 2 + w) =~= region);
        assert(buf@ =~= base@ + region + orig.skip(at + 2 + w));
    }
    Ok(TlvBuilder {
        buf,
        has_buf: true,
        hdr: at,
        header,
        pos: at + 2 + w,
        attached: true,
        base,
        region: Ghost(region),
        tree: Ghost(node(T::TAG, data@)),
        exact: Ghost(true),
    })
}

/// `f` stands for the same object as `o`: only its buffer and whether it can
/// still append may differ.
pub open spec fn same_object(o: TlvBuilder, f: TlvBuilder) -> bool {
    &&& f.has_buffer() == o.has_buffer()
    &&& f.start() == o.start()
    &&& f.end() == o.end()
    &&& f.spec_header() == o.spec_header()
    &&& f.region() == o.region()
    &&& f.base() == o.base()
    &&& f.tree() == o.tree()
    &&& f.exact() == o.exact()
}

/// The builder `o` has room for an object of type `T` at its end, and the
/// object fits in the length of `o`'s header.
pub open spec fn add_fits<T: TlvObject>(o: TlvBuilder) -> bool {
    &&& o.attached()
    &&& room_for::<T>(o.buffer().len(), o.end())
    &&& o.spec_header().length + 8 + 4 * T::spec_word_size() <= 0xffff
}

/// What `o`'s buffer becomes when an object of type `T` does not fit at its
/// end: the object's header is written only when there is room for it.
pub open spec fn buffer_after_misfit<T: TlvObject>(o: TlvBuilder) -> Seq<u32> {
    if o.end() + 2 <= o.buffer().len() && T::spec_word_size() <= 0x3fff {
        with_header(o.buffer(), o.end() as int, object_header(T::TAG, T::spec_word_size()))
    } else {
        o.buffer()
    }
}

/// `f` is `o` after a header of tag `tag` and the words `data` were appended;
/// when `ok`, `o`'s length was updated and the tree gained the child,
/// otherwise the length update did not fit.
pub open spec fn appended(o: TlvBuilder, f: TlvBuilder, tag: u32, data: Seq<u32>, ok: bool) -> bool {
    let h = if ok {
        TlvHeader { length: (o.spec_header().length + 8 + 4 * data.len()) as u16, ..o.spec_header() }
    } else {
        o.spec_header()
    };
    &&& f.has_buffer()
    &&& f.attached()
    &&& f.start() == o.start()
    &&& f.base() == o.base()
    &&& f.end() == o.end() + 2 + data.len()
    &&& f.spec_header() == h
    &&& f.region() == h.spec_words() + o.region().skip(2) + object_header(tag, data.len()).spec_words() + data
    &&& f.buffer() == f.base() + f.region() + o.buffer().skip(f.end() as int)
    &&& f.tree() == (if ok { with_kid(o.tree(), leaf(tag, data)) } else { o.tree() })
    &&& f.exact() == (ok && o.exact())
}

/// The header of an exact builder is the header of its packed tree.
proof fn lemma_exact_header(b: TlvBuilder)
    requires
        b.wf(),
        b.exact(),
    ensures
        b.spec_header() == (TlvHeader { tag: b.tree().tag, length: tree_len(b.tree()) as u16, reserved: 0 }),
        b.spec_header().length == tree_len(b.tree()),
{
    let t = b.tree();
    let h = TlvHeader { tag: t.tag, length: tree_len(t) as u16, reserved: 0 };
    assert(encode(t).take(2) =~= h.spec_words());
    h.lemma_words_roundtrip();
    b.spec_header().lemma_words_roundtrip();
}

/// While every length update of a builder has fitted, its header's length
/// covers exactly the words written after the header, a whole number of
/// words, and those words read back as the one TLV of the builder's tree.
pub proof fn law_exact_covers(b: TlvBuilder)
    requires
        b.wf(),
        b.exact(),
    ensures
        b.spec_header().length % 4 == 0,
        b.region().len() == 2 + b.spec_header().length / 4,
        parse_stream(b.region()) == Some(seq![raw_of(b.tree())]),
        b.has_buffer() ==> b.end() == b.start() + 2 + b.spec_header().length / 4,
{
    lemma_exact_header(b);
    law_pack_parse(b.tree());
    crate::host::lemma_encode_len(b.tree());
}

/// Adding a child to an exact tree: the packed words of the new tree.
proof fn lemma_encode_with_kid(t: TlvTree, k: TlvTree)
    requires
        t.ext is Nested,
    ensures
        encode(with_kid(t, k)) == header_words(t.tag, tree_len(t) + encode(k).len() * 4) + encode(t).skip(2) + encode(k),
        tree_len(with_kid(t, k)) == tree_len(t) + encode(k).len() * 4,
        all_packable(kids(with_kid(t, k))) == (all_packable(kids(t)) && packable(k)),
{
    let ks = kids(t);
    assert(ks.push(k).drop_last() =~= ks);
    assert(encode_all(ks.push(k)) == encode_all(ks) + encode(k));
    assert(encode(with_kid(t, k)) =~= header_words(t.tag, tree_len(t) + encode(k).len() * 4) + encode(t).skip(2) + encode(k));
}

proof fn lemma_leaf(tag: u32, data: Seq<u32>)
    requires
        data.len() <= 0x3fff,
    ensures
        encode(leaf(tag, data)) == object_header(tag, data.len()).spec_words() + data,
        packable(leaf(tag, data)),
{
    let z = Seq::<u8>::empty() + crate::host::zeros(0);
    assert(z =~= Seq::<u8>::empty());
    assert(crate::bytes::words_of_le(z) =~= Seq::<u32>::empty());
    assert(encode(leaf(tag, data)) =~= object_header(tag, data.len()).spec_words() + data);
}

/// Writing the header `child` and the words `data` after the region of a
/// builder, and its header `h` at its start: either the length update was
/// written along with `data`, or only the child's header was written and
/// `data` are the words that were already there.
proof fn lemma_append_buffer(
    before: Seq<u32>,
    base: Seq<u32>,
    region: Seq<u32>,
    h: TlvHeader,
    child: TlvHeader,
    data: Seq<u32>,
    after: Seq<u32>,
    at: int,
    end: int,
)
    requires
        at == base.len(),
        end == at + region.len(),
        region.len() >= 2,
        end + 2 + data.len() <= before.len(),
        before.take(at) == base,
        before.subrange(at, end) == region,
        ({
            ||| (region.take(2) == h.spec_words() && after == with_header(before, end, child)
                && data == before.subrange(end + 2, end + 2 + data.len()))
            ||| ({
                let b2 = with_header(with_header(before, end, child), at, h);
                after == b2.take(end + 2) + data + b2.skip(end + 2 + data.len())
            })
        }),
    ensures
        ({
            let r = h.spec_words() + region.skip(2) + child.spec_words() + data;
            &&& r.take(2) == h.spec_words()
            &&& after.take(at) == base
            &&& after.subrange(at, end + 2 + data.len()) == r
            &&& after == base + r + before.skip(end + 2 + data.len())
        }),
{
    let r = h.spec_words() + region.skip(2) + child.spec_words() + data;
    assert(r.take(2) =~= h.spec_words());
    assert(after.take(at) =~= base);
    assert(after.subrange(at, end + 2 + data.len()) =~= r);
    assert(after =~= base + r + before.skip(end + 2 + data.len()));
}

/// Appending an object to an exact builder keeps it exact.
proof fn lemma_append_exact<T: TlvObject>(o: TlvBuilder, h: TlvHeader, data: Seq<u32>)
    requires
        o.wf(),
        o.exact(),
        data.len() == T::spec_word_size(),
        data.len() <= 0x3fff,
        o.spec_header().length + 8 + 4 * data.len() <= 0xffff,
        h == (TlvHeader { length: (o.spec_header().length + 8 + 4 * data.len()) as u16, ..o.spec_header() }),
    ensures
        ({
            let t = with_kid(o.tree(), leaf(T::TAG, data));
            &&& h.spec_words() + o.region().skip(2) + object_header(T::TAG, data.len()).spec_words() + data == encode(t)
            &&& packable(t)
            &&& t.ext is Nested
        }),
{
    let t = o.tree();
    let k = leaf(T::TAG, data);
    lemma_exact_header(o);
    lemma_leaf(T::TAG, data);
    lemma_encode_with_kid(t, k);
    let nt = with_kid(t, k);
    assert(h.spec_words() =~= header_words(t.tag, tree_len(t) + encode(k).len() * 4));
    assert(h.spec_words() + o.region().skip(2) + object_header(T::TAG, data.len()).spec_words() + data
        =~= encode(nt));
}

/// `f` is `o` after its buffer went to a child builder.
pub open spec fn gave_buffer(o: TlvBuilder, f: TlvBuilder) -> bool {
    &&& !f.has_buffer()
    &&& !f.attached()
    &&& f.buffer().len() == 0
    &&& f.start() == o.start()
    &&& f.end() == o.end()
    &&& f.spec_header() == o.spec_header()
    &&& f.region() == o.region()
    &&& f.base() == o.base()
    &&& f.tree() == o.tree()
    &&& f.exact() == o.exact()
}

/// The byte size a finished child adds to its parent: its header and its
/// payload padded to whole words.
pub open spec fn child_total(c: TlvBuilder) -> nat {
    8 + 4 * words_for(c.spec_header().length as nat)
}

/// `c` was made at the end of `p`, from `p`'s buffer.
pub open spec fn child_of(c: TlvBuilder, p: TlvBuilder) -> bool {
    c.has_buffer() && c.base() == p.base() + p.region()
}

/// `f` is the parent `p` after the child `c` was finished into it with
/// result `r`.
pub open spec fn finished(c: TlvBuilder, p: TlvBuilder, f: TlvBuilder, r: Result<(), TlvError>) -> bool {
    if c.has_buffer() && p.start() + 2 > c.end() {
        &&& r is Err
        &&& !f.has_buffer()
        &&& !f.attached()
        &&& f.buffer().len() == 0
        &&& f.start() == p.start()
        &&& f.spec_header() == p.spec_header()
        &&& f.tree() == p.tree()
        &&& !f.exact()
    } else {
        let ok = p.spec_header().length + child_total(c) <= 0xffff;
        let h = if ok {
            TlvHeader { length: (p.spec_header().length + child_total(c)) as u16, ..p.spec_header() }
        } else {
            p.spec_header()
        };
        &&& (r is Ok <==> ok)
        &&& f.spec_header() == h
        &&& f.start() == p.start()
        &&& f.has_buffer() == c.has_buffer()
        &&& f.attached() == c.attached()
        &&& (c.has_buffer() ==> f.end() == c.end() && f.buffer() == with_header(c.buffer(), p.start() as int, h))
        &&& (!c.has_buffer() ==> f.buffer().len() == 0)
        &&& f.tree() == (if ok { with_kid(p.tree(), c.tree()) } else { p.tree() })
        &&& f.exact() == (ok && p.exact() && c.exact() && child_of(c, p))
        &&& (child_of(c, p) ==> f.base() == p.base() && f.region() == h.spec_words() + p.region().skip(2) + c.region())
    }
}

/// Finishing a child builder into the parent it was made from succeeds
/// whenever the parent's length can take the child's header and padded
/// payload: the parent's length grows by exactly that much, and the parent
/// gets the buffer back, continues where the child stopped, and can append
/// as long as the child could.
pub proof fn law_finish_child(c: TlvBuilder, p: TlvBuilder, f: TlvBuilder, r: Result<(), TlvError>)
    requires
        c.wf(),
        p.wf(),
        child_of(c, p),
        finished(c, p, f, r),
        p.spec_header().length + 8 + 4 * ((c.spec_header().length + 3) / 4) <= 0xffff,
    ensures
        r is Ok,
        f.spec_header().length == p.spec_header().length + 8 + 4 * ((c.spec_header().length + 3) / 4),
        f.spec_header().tag == p.spec_header().tag,
        f.start() == p.start(),
        f.has_buffer(),
        f.attached() == c.attached(),
        f.end() == c.end(),
{
    lemma_builder_layout(c, p);
}

/// The buffer of a child made at the end of its parent, with the parent's
/// header `h` written back.
proof fn lemma_join_buffer(
    buf: Seq<u32>,
    base: Seq<u32>,
    pregion: Seq<u32>,
    cregion: Seq<u32>,
    h: TlvHeader,
    at: int,
    end: int,
)
    requires
        at == base.len(),
        pregion.len() >= 2,
        end == at + pregion.len() + cregion.len(),
        end <= buf.len(),
        buf.take(at + pregion.len()) == base + pregion,
        buf.subrange(at + pregion.len(), end) == cregion,
    ensures
        with_header(buf, at, h).take(at) == base,
        with_header(buf, at, h).subrange(at, end) == h.spec_words() + pregion.skip(2) + cregion,
{
    let w = with_header(buf, at, h);
    assert forall|k: int| 0 <= k < at implies #[trigger] w.take(at)[k] == base[k] by {
        assert(buf.take(at + pregion.len())[k] == buf[k]);
    }
    assert(w.take(at) =~= base);
    let r = h.spec_words() + pregion.skip(2) + cregion;
    assert forall|k: int| 0 <= k < end - at implies #[trigger] w.subrange(at, end)[k] == r[k] by {
        if k >= 2 && k < pregion.len() {
            assert(buf.take(at + pregion.len())[at + k] == buf[at + k]);
            assert((base + pregion)[at + k] == pregion[k]);
        } else if k >= pregion.len() {
            assert(buf.subrange(at + pregion.len(), end)[k - pregion.len()] == buf[at + k]);
        }
    }
    assert(w.subrange(at, end) =~= r);
}

/// Finishing an exact child into the exact parent it was made from keeps the
/// parent exact.
proof fn lemma_join_exact(p: TlvBuilder, c: TlvBuilder, h: TlvHeader)
    requires
        p.wf(),
        c.wf(),
        p.exact(),
        c.exact(),
        p.spec_header().length + child_total(c) <= 0xffff,
        h == (TlvHeader { length: (p.spec_header().length + child_total(c)) as u16, ..p.spec_header() }),
    ensures
        ({
            let t = with_kid(p.tree(), c.tree());
            &&& h.spec_words() + p.region().skip(2) + c.region() == encode(t)
            &&& packable(t)
            &&& t.ext is Nested
        }),
{
    lemma_exact_header(p);
    lemma_exact_header(c);
    crate::host::lemma_encode_len(c.tree());
    lemma_encode_with_kid(p.tree(), c.tree());
    let t = with_kid(p.tree(), c.tree());
    assert(h.spec_words() =~= header_words(p.tree().tag, tree_len(p.tree()) + encode(c.tree()).len() * 4));
    assert(h.spec_words() + p.region().skip(2) + c.region() =~= encode(t));
}

impl TlvBuilder {
    /// Creates a builder whose root object is `root`, at the start of `data`.
    /// Fails when `data` has no room for the header and the root's fixed part,
    /// or when that part is too large for a header.
    pub fn new<TRoot: TlvObject>(data: Vec<u32>, root: &TRoot) -> (r: Result<TlvBuilder, TlvError>)
        ensures
            r is Ok <==> room_for::<TRoot>(data@.len(), 0),
            r matches Ok(b) ==> fresh(b, data@, 0, Seq::empty(), TRoot::TAG, root.spec_encode()),
            r is Ok ==> root.spec_encode().len() == TRoot::spec_word_size(),
    {
        proof {
            assert(data@.take(0) =~= Seq::<u32>::empty());
        }
        match create(data, 0, root, Ghost(Seq::empty())) {
            Ok(b) => Ok(b),
            Err(_) => Err(TlvError),
        }
    }

    /// Appends an object of type `T` with fixed part `value`, without an
    /// extension, and adds its size to this builder's length.
    ///
    /// Fails when the builder can no longer append; when there is no room for
    /// the object (the builder can no longer append afterwards); or when the
    /// builder's length would overflow (the object's header is then in place
    /// but neither its fixed part nor the length are written).
    #[verifier::rlimit(30)]
    pub fn add<T: TlvObject>(&mut self, value: &T) -> (r: Result<(), TlvError>)
        requires
            old(self).wf(),
        ensures
            final(self).wf(),
            r is Ok <==> add_fits::<T>(*old(self)),
            r is Ok ==> value.spec_encode().len() == T::spec_word_size(),
            !old(self).attached() ==> *final(self) == *old(self),
            old(self).attached() && !room_for::<T>(old(self).buffer().len(), old(self).end()) ==> {
                &&& same_object(*old(self), *final(self))
                &&& !final(self).attached()
                &&& final(self).buffer() == buffer_after_misfit::<T>(*old(self))
            },
            old(self).attached() && room_for::<T>(old(self).buffer().len(), old(self).end()) ==> appended(
                *old(self),
                *final(self),
                T::TAG,
                if r is Ok {
                    value.spec_encode()
                } else {
                    old(self).buffer().subrange(old(self).end() + 2 as int, old(self).end() + 2 + T::spec_word_size() as int)
                },
                r is Ok,
            ),
    {
        if !self.attached {
            return Err(TlvError);
        }
        self.attached = false;
        let len = self.buf.len();
        if len - self.pos < 2 {
            return Err(TlvError);
        }
        let w = T::word_size();
        if w > 0x3fff {
            return Err(TlvError);
        }
        let child = TlvHeader { tag: T::TAG, length: (4 * w) as u16, reserved: 0 };
        let ghost o = *old(self);
        let ghost before = self.buf@;
        write_header(&mut self.buf, self.pos, &child);
        proof {
            assert(self.buf@.take(self.hdr as int) =~= before.take(self.hdr as int));
            assert(self.buf@.subrange(self.hdr as int, self.pos as int) =~= before.subrange(self.hdr as int, self.pos as int));
        }
        if len - self.pos - 2 < w {
            return Err(TlvError);
        }
        let start = self.pos + 2;
        self.pos = start + w;
        self.attached = true;
        let added = 8 + 4 * w;
        if added > 0xffff || self.header.length as usize + added > 0xffff {
            proof {
                let unwritten = before.subrange(start as int, start + w);
                lemma_append_buffer(before, o.base(), o.region(), o.spec_header(), child, unwritten, self.buf@, o.start() as int, o.end() as int);
                self.region@ = o.spec_header().spec_words() + o.region().skip(2) + child.spec_words() + unwritten;
                self.exact@ = false;
            }
            return Err(TlvError);
        }
        self.header.length = self.header.length + added as u16;
        let h = self.header;
        let ghost mid = self.buf@;
        write_header(&mut self.buf, self.hdr, &h);
        let ghost mid2 = self.buf@;
        let data = value.to_words();
        write_words(&mut self.buf, start, data.as_slice());
        proof {
            assert(mid2 == with_header(mid, self.hdr as int, h));
            lemma_append_buffer(before, o.base(), o.region(), h, child, data@, self.buf@, o.start() as int, o.end() as int);
            self.region@ = h.spec_words() + o.region().skip(2) + child.spec_words() + data@;
            self.tree@ = with_kid(o.tree(), leaf(T::TAG, data@));
            if o.exact() {
                lemma_append_exact::<T>(o, h, data@);
            }
        }
        Ok(())
    }

    /// Starts a child object of type `T` with fixed part `value` at the end of
    /// this builder and returns a builder for it; the child holds the buffer
    /// until [`TlvBuilder::finish_with_parent`] gives it back.
    ///
    /// Fails when the builder can no longer append, or when there is no room
    /// for the child (the builder can no longer append afterwards).
    pub fn add_with_children<T: TlvObject>(&mut self, value: &T) -> (r: Result<TlvBuilder, TlvError>)
        requires
            old(self).wf(),
        ensures
            final(self).wf(),
            r is Ok <==> old(self).attached() && room_for::<T>(old(self).buffer().len(), old(self).end()),
            !old(self).attached() ==> *final(self) == *old(self),
            old(self).attached() && !room_for::<T>(old(self).buffer().len(), old(self).end()) ==> {
                &&& same_object(*old(self), *final(self))
                &&& !final(self).attached()
                &&& final(self).buffer() == buffer_after_misfit::<T>(*old(self))
            },
            r matches Ok(c) ==> {
                &&& gave_buffer(*old(self), *final(self))
                &&& fresh(c, old(self).buffer(), old(self).end(), old(self).base() + old(self).region(), T::TAG, value.spec_encode())
                &&& value.spec_encode().len() == T::spec_word_size()
                &&& child_of(c, *old(self))
            },
    {
        if !self.attached {
            return Err(TlvError);
        }
        self.attached = false;
        let mut buf: Vec<u32> = Vec::new();
        std::mem::swap(&mut buf, &mut self.buf);
        self.has_buf = false;
        let ghost below = self.base@ + self.region@;
        proof {
            assert(buf@.take(self.pos as int) =~= below);
        }
        match create(buf, self.pos, value, Ghost(below)) {
            Ok(c) => Ok(c),
            Err(buf) => {
                self.buf = buf;
                self.has_buf = true;
                proof {
                    assert(self.buf@.take(self.hdr as int) =~= self.base@);
                    assert(self.buf@.subrange(self.hdr as int, self.pos as int) =~= self.region@);
                }
                Err(TlvError)
            },
        }
    }

    /// Finishes this child builder into its parent: the parent gets the buffer
    /// back, continues where the child stopped, and its length grows by the
    /// child's header and padded payload.
    ///
    /// Fails when the parent's length would overflow (the parent then keeps
    /// its length); and when the child's buffer cannot hold the parent's
    /// header, which happens only for a builder that is not the child's
    /// parent (the parent can then no longer append).
    #[verifier::rlimit(30)]
    pub fn finish_with_parent(self, parent: &mut TlvBuilder) -> (r: Result<(), TlvError>)
        requires
            self.wf(),
            old(parent).wf(),
        ensures
            final(parent).wf(),
            finished(self, *old(parent), *final(parent), r),
    {
        let ghost p = *parent;
        let ghost c = self;
        let total: usize = 8 + (self.header.length as usize + 3) / 4 * 4;
        let p_hdr = parent.hdr;
        if self.has_buf && (p_hdr > self.pos || self.pos - p_hdr < 2) {
            parent.buf = Vec::new();
            parent.has_buf = false;
            parent.attached = false;
            proof {
                parent.exact@ = false;
            }
            return Err(TlvError);
        }
        let ok = parent.header.length as usize + total <= 0xffff;
        if ok {
            parent.header.length = parent.header.length + total as u16;
        }
        let h = parent.header;
        parent.has_buf = self.has_buf;
        parent.attached = self.attached;
        if self.has_buf {
            let mut buf = self.buf;
            write_header(&mut buf, p_hdr, &h);
            parent.buf = buf;
            parent.pos = self.pos;
            proof {
                parent.base@ = parent.buf@.take(p_hdr as int);
                parent.region@ = parent.buf@.subrange(p_hdr as int, parent.pos as int);
                assert(parent.region@.take(2) =~= h.spec_words());
                if child_of(c, p) {
                    lemma_join_buffer(c.buffer(), p.base(), p.region(), c.region(), h, p_hdr as int, c.end() as int);
                }
            }
        } else {
            parent.buf = Vec::new();
            proof {
                parent.region@ = h.spec_words() + p.region().skip(2);
                assert(parent.region@.take(2) =~= h.spec_words());
            }
        }
        proof {
            if ok {
                parent.tree@ = with_kid(p.tree(), c.tree());
            }
            parent.exact@ = ok && p.exact() && c.exact() && child_of(c, p);
            if parent.exact@ {
                lemma_join_exact(p, c, h);
            }
        }
        if ok {
            Ok(())
        } else {
            Err(TlvError)
        }
    }

    /// Adds a child object of type `T` with fixed part `value`, lets `f` build
    /// the child's own children with a child builder, then finishes the child
    /// into this builder (see [`TlvBuilder::add_with_children`] and
    /// [`TlvBuilder::finish_with_parent`]). Fails when starting the child
    /// fails, when `f` fails (this builder then no longer holds the buffer),
    /// or when finishing the child fails.
    pub fn add_in<T: TlvObject, F>(&mut self, value: &T, f: F) -> (r: Result<(), TlvError>)
        where
            F: FnOnce(&mut TlvBuilder) -> Result<(), TlvError>,
        requires
            old(self).wf(),
            forall|b: &mut TlvBuilder| (*b).wf() ==> call_requires(f, (b,)),
            forall|b: &mut TlvBuilder, res: Result<(), TlvError>|
                (*b).wf() && call_ensures(f, (b,), res) ==> (*final(b)).wf(),
        ensures
            final(self).wf(),
            !old(self).attached() ==> r is Err && *final(self) == *old(self),
            old(self).attached() && !room_for::<T>(old(self).buffer().len(), old(self).end()) ==> {
                &&& r is Err
                &&& same_object(*old(self), *final(self))
                &&& !final(self).attached()
                &&& final(self).buffer() == buffer_after_misfit::<T>(*old(self))
            },
            old(self).attached() && room_for::<T>(old(self).buffer().len(), old(self).end()) ==> exists|
                c0: TlvBuilder,
                c: TlvBuilder,
                p: TlvBuilder,
            |
                #![trigger child_of(c0, *old(self)), gave_buffer(*old(self), p), c.wf()]
                {
                    &&& fresh(c0, old(self).buffer(), old(self).end(), old(self).base() + old(self).region(), T::TAG, value.spec_encode())
                    &&& child_of(c0, *old(self))
                    &&& gave_buffer(*old(self), p)
                    &&& c.wf()
                    &&& {
                        ||| {
                            &&& r is Err
                            &&& *final(self) == p
                            &&& exists|b: &mut TlvBuilder| #[trigger] call_ensures(f, (b,), Err(TlvError)) && *b == c0 && *final(b) == c
                        }
                        ||| {
                            &&& finished(c, p, *final(self), r)
                            &&& exists|b: &mut TlvBuilder, res: Result<(), TlvError>| #[trigger] call_ensures(f, (b,), res) && res is Ok && *b == c0 && *final(b) == c
                        }
                    }
                },
    {
        let mut child = match self.add_with_children(value) {
            Ok(c) => c,
            Err(e) => return Err(e),
        };
        let ghost c0 = child;
        let ghost p = *self;
        let fr = f(&mut child);
        let ghost c1 = child;
        proof {
            assert(child_of(c0, *old(self)));
            assert(gave_buffer(*old(self), p));
            assert(c1.wf());
        }
        let r = match fr {
            Err(e) => Err(e),
            Ok(()) => child.finish_with_parent(self),
        };
        proof {
            assert(fresh(c0, old(self).buffer(), old(self).end(), old(self).base() + old(self).region(), T::TAG, value.spec_encode()));
            if fr is Err {
                assert(*self == p);
                assert(fr == Err::<(), TlvError>(TlvError));
                assert(exists|b: &mut TlvBuilder| #[trigger] call_ensures(f, (b,), Err(TlvError)) && *b == c0 && *final(b) == c1);
            } else {
                assert(finished(c1, p, *self, r));
                assert(exists|b: &mut TlvBuilder, res: Result<(), TlvError>| #[trigger] call_ensures(f, (b,), res) && res is Ok && *b == c0 && *final(b) == c1);
            }
        }
        r
    }

    /// Finishes building: describes the words built from the start of the
    /// buffer to the end of this builder.
    pub fn finish(self) -> (f: TlvBuilderFinisher)
        requires
            self.wf(),
        ensures
            f.wf(),
            f.completes() == (self.attached() && self.start() == 0),
            f.output() == self.region(),
            f.tree() == self.tree(),
            f.exact() == self.exact(),
    {
        TlvBuilderFinisher {
            buf: self.buf,
            start: self.hdr,
            end: self.pos,
            valid: self.attached,
            region: self.region,
            tree: self.tree,
            exact: self.exact,
        }
    }

    /// Returns the header of the TLV object being built.
    pub fn header(&self) -> (h: &TlvHeader)
        ensures
            *h == self.spec_header(),
    {
        &self.header
    }
}

/// What a finished builder describes: the words from the start of the
/// buffer to the end of the builder, if the builder started the buffer and
/// could still append.
pub struct TlvBuilderFinisher {
    buf: Vec<u32>,
    start: usize,
    end: usize,
    valid: bool,
    region: Ghost<Seq<u32>>,
    tree: Ghost<TlvTree>,
    exact: Ghost<bool>,
}

impl TlvBuilderFinisher {
    /// The finisher's fields agree with its buffer.
    pub closed spec fn wf(self) -> bool {
        &&& self.valid && self.start == 0 ==> {
            &&& self.end <= self.buf@.len()
            &&& self.buf@.take(self.end as int) == self.region@
        }
        &&& self.exact@ ==> self.region@ == encode(self.tree@) && packable(self.tree@)
    }

    /// The finished builder started the buffer and could still append.
    pub closed spec fn completes(self) -> bool {
        self.valid && self.start == 0
    }

    /// The words of the finished builder's object.
    pub closed spec fn output(self) -> Seq<u32> {
        self.region@
    }

    /// The tree of objects the finished builder added.
    pub closed spec fn tree(self) -> TlvTree {
        self.tree@
    }

    /// Every length update of the finished builder fitted.
    pub closed spec fn exact(self) -> bool {
        self.exact@
    }

    /// The words built, from the start of the buffer; fails unless the
    /// finished builder started the buffer and could still append.
    pub fn into_words(self) -> (r: Result<Vec<u32>, InvalidBufferError>)
        requires
            self.wf(),
        ensures
            r is Ok <==> self.completes(),
            r matches Ok(v) ==> v@ == self.output(),
            r matches Ok(v) ==> self.exact() ==> v@ == encode(self.tree()) && packable(self.tree()),
    {
        if !self.valid || self.start != 0 {
            return Err(InvalidBufferError);
        }
        let mut buf = self.buf;
        buf.truncate(self.end);
        Ok(buf)
    }

    /// The bytes built, from the start of the buffer (little-endian words);
    /// fails as [`TlvBuilderFinisher::into_words`] does.
    pub fn into_bytes(self) -> (r: Result<Vec<u8>, InvalidBufferError>)
        requires
            self.wf(),
        ensures
            r is Ok <==> self.completes(),
            r matches Ok(b) ==> b@ == le_bytes_of(self.output()),
            r matches Ok(b) ==> self.exact() ==> b@ == le_bytes_of(encode(self.tree())) && packable(self.tree()),
    {
        match self.into_words() {
            Ok(w) => Ok(words_to_le_bytes(w.as_slice())),
            Err(e) => Err(e),
        }
    }
}

/// A finished builder whose every length update fitted has built exactly
/// the packed form of its tree: its words read back as one TLV of that tree,
/// its bytes read back as those words, and they are the bytes that `pack`
/// gives for an owned TLV of the same tree.
pub proof fn law_builder_packs(f: TlvBuilderFinisher, h: HostTlv)
    requires
        f.wf(),
        f.exact(),
        h@ == f.tree(),
    ensures
        f.output() == encode(f.tree()),
        parse_stream(f.output()) == Some(seq![raw_of(f.tree())]),
        words_of_le(le_bytes_of(f.output())) == f.output(),
        h.spec_packable(),
        h.spec_packed() == le_bytes_of(f.output()),
{
    law_pack_parse(f.tree());
    lemma_words_of_le_bytes(f.output());
}

} // verus!
