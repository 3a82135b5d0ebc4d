//! Containers of TLV objects and iteration over them.

use vstd::prelude::*;
use crate::bytes::copy_words;
use crate::bytes::le_bytes_to_words;
use crate::bytes::words_of_le;
use crate::header::TlvHeader;
use crate::object::TlvObject;
use crate::object::TlvAny;
use crate::object::lemma_any_tag;

verus! {

/// Error returned when a byte buffer does not hold a whole number of words.
#[derive(Clone, Copy, Debug, PartialEq, Eq, Structural)]
pub struct BadAlignmentError;

/// One TLV of a stream: its header and its payload words.
pub type RawTlv = (TlvHeader, Seq<u32>);

/// Looks for the next TLV whose tag is `tag` (any tag when `tag` is 0) in the
/// words `rem`, skipping the others. Gives the header and payload found, and
/// the words that remain to be read. The search stops without a result, and
/// without consuming anything more, at a header that is cut short, at a
/// payload that runs past the end of the words, or at a matching TLV whose
/// payload is shorter than `size` words.
pub open spec fn scan(tag: u32, size: nat, rem: Seq<u32>) -> (Option<RawTlv>, Seq<u32>)
    decreases rem.len(),
{
    if rem.len() < 2 {
        (None, rem)
    } else {
        let h = TlvHeader::from_spec_words(rem[0], rem[1]);
        let wl = h.payload_words() as int;
        if rem.len() < 2 + wl {
            (None, rem)
        } else if h.tag == tag || tag == 0 {
            if size > wl {
                (None, rem)
            } else {
                (Some((h, rem.subrange(2, 2 + wl))), rem.skip(2 + wl))
            }
        } else {
            scan(tag, size, rem.skip(2 + wl))
        }
    }
}

/// A search reads only within the words it is given: what remains is a
/// suffix of them, and a TLV found is a header and a payload that stand in
/// them just before that suffix, so each TLV found uses up at least its two
/// header words.
pub proof fn law_scan_within(tag: u32, size: nat, rem: Seq<u32>)
    ensures
        ({
            let (r, rest) = scan(tag, size, rem);
            let k = rem.len() - rest.len();
            &&& rest.len() <= rem.len()
            &&& rest == rem.skip(k)
            &&& r matches Some(t) ==> {
                &&& rest.len() + 2 + t.1.len() <= rem.len()
                &&& t.1 == rem.subrange(k - t.1.len(), k)
                &&& t.0 == TlvHeader::from_spec_words(rem[k - t.1.len() - 2], rem[k - t.1.len() - 1])
            }
        }),
    decreases rem.len(),
{
    if rem.len() >= 2 {
        let h = TlvHeader::from_spec_words(rem[0], rem[1]);
        let wl = h.payload_words() as int;
        if rem.len() >= 2 + wl {
            let next = rem.skip(2 + wl);
            if h.tag == tag || tag == 0 {
                if size <= wl {
                    assert(rem.subrange(2, 2 + wl).len() == wl);
                }
            } else {
                law_scan_within(tag, size, next);
                let rest = scan(tag, size, next).1;
                assert(rest == next.skip(next.len() - rest.len()));
                assert(rest =~= rem.skip(rem.len() - rest.len()));
                let k = rem.len() - rest.len();
                if let Some(t) = scan(tag, size, next).0 {
                    let k2 = next.len() - rest.len();
                    assert(t.1 =~= rem.subrange(k - t.1.len(), k));
                    assert(next[k2 - t.1.len() - 2] == rem[k - t.1.len() - 2]);
                    assert(next[k2 - t.1.len() - 1] == rem[k - t.1.len() - 1]);
                }
            }
        }
    }
    let rest = scan(tag, size, rem).1;
    if rest == rem {
        assert(rem.skip(0) =~= rem);
    }
}

/// The TLVs of a well-formed stream in order, or `None` when the words do not
/// split exactly into TLVs.
pub open spec fn parse_stream(w: Seq<u32>) -> Option<Seq<RawTlv>>
    decreases w.len(),
{
    if w.len() == 0 {
        Some(Seq::empty())
    } else if w.len() < 2 {
        None
    } else {
        let h = TlvHeader::from_spec_words(w[0], w[1]);
        let wl = h.payload_words() as int;
        if w.len() < 2 + wl {
            None
        } else {
            match parse_stream(w.skip(2 + wl)) {
                Some(rest) => Some(seq![(h, w.subrange(2, 2 + wl))] + rest),
                None => None,
            }
        }
    }
}

/// The TLVs of `s` whose tag is `tag` (all of them when `tag` is 0), in order.
pub open spec fn matching(tag: u32, s: Seq<RawTlv>) -> Seq<RawTlv>
    decreases s.len(),
{
    if s.len() == 0 {
        s
    } else if s[0].0.tag == tag || tag == 0 {
        seq![s[0]] + matching(tag, s.drop_first())
    } else {
        matching(tag, s.drop_first())
    }
}

/// Every TLV of `s` with tag `tag` has a payload of at least `size` words.
pub open spec fn all_fit(tag: u32, size: nat, s: Seq<RawTlv>) -> bool {
    forall|i: int|
        0 <= i < s.len() && (s[i].0.tag == tag || tag == 0) ==> size <= #[trigger] s[i].1.len()
}

/// Iteration over a well-formed stream yields, one call at a time and in
/// order, exactly the TLVs whose tag matches (all of them for tag 0), provided
/// each of them holds the fixed part; after the last one the iteration ends.
pub proof fn law_iter_stream(tag: u32, size: nat, w: Seq<u32>, s: Seq<RawTlv>)
    requires
        parse_stream(w) == Some(s),
        all_fit(tag, size, s),
    ensures
        ({
            let m = matching(tag, s);
            &&& scan(tag, size, w).0 == (if m.len() > 0 { Some(m[0]) } else { None::<RawTlv> })
            &&& parse_stream(scan(tag, size, w).1) matches Some(s2) && matching(tag, s2) == (if m.len()
                > 0 {
                m.drop_first()
            } else {
                m
            }) && all_fit(tag, size, s2)
        }),
    decreases w.len(),
{
    if w.len() > 0 {
        let h = TlvHeader::from_spec_words(w[0], w[1]);
        let wl = h.payload_words() as int;
        let rest_w = w.skip(2 + wl);
        let rest_s = parse_stream(rest_w)->Some_0;
        let payload = w.subrange(2, 2 + wl);
        assert(s == seq![(h, payload)] + rest_s);
        assert(s.drop_first() =~= rest_s);
        assert(s[0] == (h, payload));
        assert forall|i: int|
            0 <= i < rest_s.len() && (rest_s[i].0.tag == tag || tag == 0) implies size
            <= #[trigger] rest_s[i].1.len() by {
            assert(rest_s[i] == s[i + 1]);
        }
        if h.tag == tag || tag == 0 {
            assert(size <= s[0].1.len());
            assert(matching(tag, s) == seq![(h, payload)] + matching(tag, rest_s));
            assert(matching(tag, s).drop_first() =~= matching(tag, rest_s));
        } else {
            law_iter_stream(tag, size, rest_w, rest_s);
        }
    } else {
        assert(s =~= Seq::<RawTlv>::empty());
    }
}

/// Item returned by [`TlvIterator::next`] and [`TlvQuery::cast`].
pub struct TlvItem<T: TlvObject> {
    /// The TLV header of the object.
    pub header: TlvHeader,
    /// The TLV object itself (the fixed part of the payload).
    pub data: T,
    /// The payload words after the fixed part.
    pub extra: Vec<u32>,
    /// The payload of the TLV.
    pub payload: Vec<u32>,
}

/// `item` is the TLV with header `h` and payload `payload` read as a `T`.
pub open spec fn item_is<T: TlvObject>(item: TlvItem<T>, h: TlvHeader, payload: Seq<u32>) -> bool {
    &&& item.header == h
    &&& item.payload@ == payload
    &&& T::spec_word_size() <= payload.len()
    &&& item.data == T::spec_from_words(payload.take(T::spec_word_size() as int))
    &&& item.data.spec_encode() == payload.take(T::spec_word_size() as int)
    &&& item.extra@ == payload.skip(T::spec_word_size() as int)
}

/// A TLV with header `h` and payload `payload` can be read as a `U`: its tag
/// is `U::TAG` (any tag when `U::TAG` is 0) and the payload holds `U`'s fixed
/// part.
pub open spec fn cast_ok<U: TlvObject>(h: TlvHeader, payload: Seq<u32>) -> bool {
    &&& h.tag == U::TAG || U::TAG == 0
    &&& U::spec_word_size() <= payload.len()
}

/// An item read as a `T` can be cast to `T` again whenever its tag is
/// `T::TAG` (as it is for every item that iteration over `T` yields when
/// `T::TAG` is not 0), and every such cast gives the same item again: the same
/// header, fixed part, extension words and payload.
pub proof fn law_cast_same<T: TlvObject>(item: TlvItem<T>, again: TlvItem<T>)
    requires
        item_is(item, item.header, item.payload@),
        item.header.tag == T::TAG || T::TAG == 0,
        item_is(again, item.header, item.payload@),
    ensures
        cast_ok::<T>(item.header, item.payload@),
        again.header == item.header,
        again.data == item.data,
        again.extra@ == item.extra@,
        again.payload@ == item.payload@,
{
}

/// The TLVs of `s` that can be read as a `U`, in order.
pub open spec fn cast_all<U: TlvObject>(s: Seq<RawTlv>) -> Seq<RawTlv>
    decreases s.len(),
{
    if s.len() == 0 {
        s
    } else if cast_ok::<U>(s[0].0, s[0].1) {
        seq![s[0]] + cast_all::<U>(s.drop_first())
    } else {
        cast_all::<U>(s.drop_first())
    }
}

/// Iterating over `TlvAny` yields every TLV of a well-formed stream, and
/// casting those to `T` keeps exactly the TLVs that iterating over `T`
/// yields, when each TLV of tag `T::TAG` holds `T`'s fixed part (see
/// [`law_iter_stream`]).
pub proof fn law_iter_cast<T: TlvObject>(s: Seq<RawTlv>)
    requires
        all_fit(T::TAG, T::spec_word_size(), s),
    ensures
        all_fit(TlvAny::TAG, TlvAny::spec_word_size(), s),
        matching(TlvAny::TAG, s) == s,
        cast_all::<T>(matching(TlvAny::TAG, s)) == matching(T::TAG, s),
    decreases s.len(),
{
    if s.len() > 0 {
        let r = s.drop_first();
        assert forall|i: int|
            0 <= i < r.len() && (r[i].0.tag == T::TAG || T::TAG == 0) implies T::spec_word_size()
            <= #[trigger] r[i].1.len() by {
            assert(r[i] == s[i + 1]);
        }
        law_iter_cast::<T>(r);
        lemma_any_tag();
        assert(matching(0, s) == seq![s[0]] + matching(0, r));
        assert(seq![s[0]] + r =~= s);
        assert(s.drop_first() == r);
        if s[0].0.tag == T::TAG || T::TAG == 0 {
            assert(T::spec_word_size() <= s[0].1.len());
        }
    } else {
        lemma_any_tag();
    }
}

/// The TLVs that repeated searches over `w` find, in order, until a search
/// finds none: what an iterator over `w` yields call by call (see
/// [`TlvIterator::next`]), on any words, whether they split into TLVs or not.
pub open spec fn walk(tag: u32, size: nat, w: Seq<u32>) -> Seq<RawTlv>
    decreases w.len(),
    via walk_decreases
{
    match scan(tag, size, w).0 {
        Some(t) => seq![t] + walk(tag, size, scan(tag, size, w).1),
        None => Seq::empty(),
    }
}

#[via_fn]
proof fn walk_decreases(tag: u32, size: nat, w: Seq<u32>) {
    law_scan_within(tag, size, w);
}

/// The TLV `t` is a header and a payload that stand in `w`: the payload at
/// some position `k`, its two header words just before it.
pub open spec fn stands_in(t: RawTlv, w: Seq<u32>) -> bool {
    exists|k: int|
        2 <= k <= w.len() - t.1.len() && t.1 == #[trigger] w.subrange(k, k + t.1.len())
            && t.0 == TlvHeader::from_spec_words(w[k - 2], w[k - 1])
}

/// On any words, the walk for a tag finds the TLVs of that tag among those
/// that the walk over all tags finds, when each of them holds `size` words.
proof fn lemma_walk_matching(tag: u32, size: nat, w: Seq<u32>)
    requires
        all_fit(tag, size, walk(0, 0, w)),
    ensures
        walk(tag, size, w) == matching(tag, walk(0, 0, w)),
    decreases w.len(),
{
    let all = walk(0, 0, w);
    if w.len() >= 2 {
        let h = TlvHeader::from_spec_words(w[0], w[1]);
        let wl = h.payload_words() as int;
        if w.len() >= 2 + wl {
            let rest = w.skip(2 + wl);
            let t0 = (h, w.subrange(2, 2 + wl));
            assert(scan(0, 0, w) == (Some(t0), rest));
            assert(all == seq![t0] + walk(0, 0, rest));
            let tail = walk(0, 0, rest);
            assert(all.drop_first() =~= tail);
            assert forall|i: int|
                0 <= i < tail.len() && (tail[i].0.tag == tag || tag == 0) implies size
                <= #[trigger] tail[i].1.len() by {
                assert(tail[i] == all[i + 1]);
            }
            lemma_walk_matching(tag, size, rest);
            if h.tag == tag || tag == 0 {
                assert(all[0] == t0);
                assert(size <= all[0].1.len());
                assert(size <= wl);
                assert(scan(tag, size, w) == (Some(t0), rest));
            } else {
                assert(scan(tag, size, w) == scan(tag, size, rest));
            }
            return;
        }
    }
    assert(scan(0, 0, w).0 is None);
    assert(scan(tag, size, w).0 is None);
}

/// Iterating over `T` yields, on any words, exactly what iterating over
/// `TlvAny` and casting each item to `T` keeps, when each TLV of tag
/// `T::TAG` that the walk over all TLVs reaches holds `T`'s fixed part. A
/// stream that ends in a TLV cut short is walked up to that TLV.
pub proof fn law_walk_cast<T: TlvObject>(w: Seq<u32>)
    requires
        all_fit(T::TAG, T::spec_word_size(), walk(TlvAny::TAG, TlvAny::spec_word_size(), w)),
    ensures
        walk(T::TAG, T::spec_word_size(), w) == cast_all::<T>(walk(TlvAny::TAG, TlvAny::spec_word_size(), w)),
{
    lemma_any_tag();
    lemma_walk_matching(T::TAG, T::spec_word_size(), w);
    law_iter_cast::<T>(walk(0, 0, w));
}

/// On any words, a walk reads only within them: each TLV it finds is a
/// header and a payload that stand in the words, and as each uses up at least
/// its two header words, a walk over `n` words finds at most `n / 2` TLVs.
pub proof fn law_walk_within(tag: u32, size: nat, w: Seq<u32>)
    ensures
        2 * walk(tag, size, w).len() <= w.len(),
        forall|i: int| 0 <= i < walk(tag, size, w).len() ==> stands_in(#[trigger] walk(tag, size, w)[i], w),
    decreases w.len(),
{
    law_scan_within(tag, size, w);
    let (r, rest) = scan(tag, size, w);
    if let Some(t) = r {
        law_walk_within(tag, size, rest);
        let items = walk(tag, size, w);
        let tail = walk(tag, size, rest);
        assert(items == seq![t] + tail);
        let off = w.len() - rest.len();
        assert forall|i: int| 0 <= i < items.len() implies stands_in(#[trigger] items[i], w) by {
            if i == 0 {
                let k = off - t.1.len();
                assert(t.1 == w.subrange(k, k + t.1.len()));
            } else {
                let x = tail[i - 1];
                assert(items[i] == x);
                assert(stands_in(x, rest));
                let k = choose|k: int|
                    2 <= k <= rest.len() - x.1.len() && x.1 == #[trigger] rest.subrange(k, k + x.1.len())
                        && x.0 == TlvHeader::from_spec_words(rest[k - 2], rest[k - 1]);
                assert(rest == w.skip(off));
                assert(x.1 =~= w.subrange(off + k, off + k + x.1.len()));
                assert(rest[k - 2] == w[off + k - 2]);
                assert(rest[k - 1] == w[off + k - 1]);
            }
        }
    }
}

/// `r` is the item that stands for the search result `s`.
pub open spec fn result_is<T: TlvObject>(r: Option<TlvItem<T>>, s: Option<RawTlv>) -> bool {
    match r {
        Some(item) => s matches Some(t) && item_is(item, t.0, t.1),
        None => s is None,
    }
}

/// Reads the TLV with header `h` and payload `payload[start..end]` of `words`
/// as a `T`.
fn make_item<T: TlvObject>(h: TlvHeader, words: &[u32], start: usize, end: usize) -> (item: TlvItem<T>)
    requires
        start <= end <= words@.len(),
        T::spec_word_size() <= end - start,
    ensures
        item_is(item, h, words@.subrange(start as int, end as int)),
{
    let size = T::word_size();
    let payload = copy_words(&words[start..end]);
    let data = T::from_words(&words[start..start + size]);
    let extra = copy_words(&words[start + size..end]);
    proof {
        let p = words@.subrange(start as int, end as int);
        assert(p.take(size as int) =~= words@.subrange(start as int, start + size));
        assert(p.skip(size as int) =~= words@.subrange(start + size, end as int));
    }
    TlvItem { header: h, data, extra, payload }
}

/// Calls zerocopy's `FromBytes::ref_from_bytes` for `[u32]`, which views
/// `data` in place as words. As its documentation says, it succeeds only
/// when the length of `data` is a valid size of `[u32]`, a multiple of four;
/// it also fails when `data` does not start at an address aligned for `u32`,
/// and as that depends on where the buffer lies, nothing more is stated of
/// the result.
#[verifier::external_body]
fn views_as_words(data: &[u8]) -> (ok: bool)
    ensures
        ok ==> data@.len() % 4 == 0,
{
    <[u32] as zerocopy::FromBytes>::ref_from_bytes(data).is_ok()
}

/// Generic TLV container: a sequence of zero or more TLV objects.
pub struct TlvData {
    data: Vec<u32>,
}

impl View for TlvData {
    type V = Seq<u32>;

    closed spec fn view(&self) -> Seq<u32> {
        self.data@
    }
}

impl TlvData {
    /// Constructs a container over a word buffer.
    pub fn overlay(data: &[u32]) -> (t: TlvData)
        ensures
            t@ == data@,
    {
        TlvData { data: copy_words(data) }
    }

    /// Constructs a container over a byte buffer, read as little-endian
    /// words. Fails when zerocopy cannot view the bytes as words in place:
    /// always when the length is not a multiple of four, and also when the
    /// buffer does not start at an address aligned for `u32`.
    pub fn overlay_bytes(data: &[u8]) -> (r: Result<TlvData, BadAlignmentError>)
        ensures
            data@.len() % 4 != 0 ==> r is Err,
            r matches Ok(t) ==> t@ == words_of_le(data@),
    {
        if !views_as_words(data) {
            return Err(BadAlignmentError);
        }
        Ok(TlvData { data: le_bytes_to_words(data) })
    }

    /// Returns an iterator over the contained TLV objects of type `T`: all
    /// TLVs if `T::TAG` is 0, otherwise those whose tag is `T::TAG`.
    pub fn iter<T: TlvObject>(&self) -> (it: TlvIterator<T>)
        ensures
            it.remaining() == self@,
    {
        TlvIterator { data: copy_words(self.data.as_slice()), pos: 0, target: core::marker::PhantomData }
    }
}

/// Iterator over TLV objects of a [`TlvData`] container.
pub struct TlvIterator<T> {
    data: Vec<u32>,
    pos: usize,
    target: core::marker::PhantomData<T>,
}

impl<T> TlvIterator<T> {
    #[verifier::type_invariant]
    closed spec fn inv(self) -> bool {
        self.pos <= self.data@.len()
    }

    /// The words that are still to be read.
    pub closed spec fn remaining(self) -> Seq<u32> {
        self.data@.skip(self.pos as int)
    }
}

/// Searches `words` from `pos` on as [`scan`] does; gives the item found and
/// the position where the remaining words start.
fn scan_words<T: TlvObject>(words: &[u32], pos: usize) -> (r: (Option<TlvItem<T>>, usize))
    requires
        pos <= words@.len(),
    ensures
        r.1 <= words@.len(),
        words@.skip(r.1 as int) == scan(T::TAG, T::spec_word_size(), words@.skip(pos as int)).1,
        result_is(r.0, scan(T::TAG, T::spec_word_size(), words@.skip(pos as int)).0),
{
    let ghost orig = words@.skip(pos as int);
    let hw = TlvHeader::HEADER_WORD_COUNT;
    let size = T::word_size();
    let n = words.len();
    let mut cur = pos;
    loop
        invariant
            hw == 2,
            size == T::spec_word_size(),
            n == words@.len(),
            cur <= n,
            orig == words@.skip(pos as int),
            scan(T::TAG, size as nat, orig) == scan(T::TAG, size as nat, words@.skip(cur as int)),
        decreases n - cur,
    {
        let ghost rem = words@.skip(cur as int);
        assert(rem.len() == n - cur);
        if n - cur < hw {
            assert(scan(T::TAG, size as nat, rem) == (None::<RawTlv>, rem));
            return (None, cur);
        }
        let h = TlvHeader::from_words(words[cur], words[cur + 1]);
        proof {
            assert(rem[0] == words@[cur as int]);
            assert(rem[1] == words@[cur + 1]);
        }
        let wl = h.word_len();
        if n - cur - 2 < wl {
            return (None, cur);
        }
        let start = cur + 2;
        let end = start + wl;
        proof {
            assert(rem.skip(2 + wl) =~= words@.skip(end as int));
        }
        if h.tag == T::TAG || T::TAG == 0 {
            if size > wl {
                assert(scan(T::TAG, size as nat, rem) == (None::<RawTlv>, rem));
                return (None, cur);
            }
            let item = make_item::<T>(h, words, start, end);
            proof {
                assert(rem.subrange(2, 2 + wl) =~= words@.subrange(start as int, end as int));
            }
            return (Some(item), end);
        }
        cur = end;
    }
}

impl<T: TlvObject> TlvIterator<T> {
    /// Returns the next TLV whose tag matches `T`, read as a `T`, skipping
    /// TLVs with other tags (see [`scan`]).
    pub fn next(&mut self) -> (r: Option<TlvItem<T>>)
        ensures
            final(self).remaining() == scan(T::TAG, T::spec_word_size(), old(self).remaining()).1,
            result_is(r, scan(T::TAG, T::spec_word_size(), old(self).remaining()).0),
            final(self).remaining().len() <= old(self).remaining().len(),
            r is Some ==> final(self).remaining().len() + 2 <= old(self).remaining().len(),
            r is None ==> walk(T::TAG, T::spec_word_size(), old(self).remaining()).len() == 0,
            r matches Some(item) ==> walk(T::TAG, T::spec_word_size(), old(self).remaining())
                == seq![(item.header, item.payload@)] + walk(T::TAG, T::spec_word_size(), final(self).remaining()),
    {
        proof {
            use_type_invariant(&*self);
            law_scan_within(T::TAG, T::spec_word_size(), self.remaining());
        }
        let (r, pos) = scan_words::<T>(self.data.as_slice(), self.pos);
        self.pos = pos;
        r
    }
}

/// Extension trait providing helper methods on [`TlvItem`].
pub trait TlvQuery {
    /// The type of the extension associated with the item.
    type Extension;

    /// Casts this item to the object type `U`: `Some` when the tag is `U::TAG`
    /// (any tag when `U` is `TlvAny`) and the payload holds a `U`.
    fn cast<U: TlvObject>(&self) -> Option<TlvItem<U>>;

    /// Returns the extension of this item.
    fn ext(&self) -> Self::Extension;
}

impl<T: TlvObject> TlvQuery for TlvItem<T> {
    type Extension = T::Extension;

    fn cast<U: TlvObject>(&self) -> (r: Option<TlvItem<U>>)
        ensures
            r is Some <==> cast_ok::<U>(self.header, self.payload@),
            r matches Some(item) ==> item_is(item, self.header, self.payload@),
    {
        if self.header.tag == U::TAG || U::TAG == 0 {
            let size = U::word_size();
            let n = self.payload.len();
            if size > n {
                return None;
            }
            proof { assert(self.payload@.subrange(0, n as int) =~= self.payload@); }
            Some(make_item::<U>(self.header, self.payload.as_slice(), 0, n))
        } else {
            None
        }
    }

    fn ext(&self) -> (e: T::Extension)
        ensures
            T::spec_ext(self.header, self.extra@, e),
    {
        T::make_ext(&self.header, self.extra.as_slice())
    }
}

} // verus!
