use tlv::bytes::le_bytes_to_words;
use tlv::bytes::words_to_le_bytes;
use tlv::fourcc;
use tlv::hexdump;
use tlv::host::HostTlv;
use tlv::host::HostTlvObject;
use tlv::unpad;
use tlv::word_size_of;
use tlv::BadAlignmentError;
use tlv::InvalidBufferError;
use tlv::StringBuf;
use tlv::TlvAny;
use tlv::sum_pair_fields;
use tlv::TlvBuilder;
use tlv::TlvData;
use tlv::TlvError;
use tlv::TlvHeader;
use tlv::TlvObject;
use tlv::TlvQuery;

#[derive(Debug, PartialEq, Eq, Clone, Copy)]
struct One {
    v: u32,
}

impl TlvObject for One {
    type Extension = Vec<u8>;
    const TAG: u32 = u32::from_le_bytes(*b"ONE_");
    fn word_size() -> usize {
        1
    }
    fn to_words(&self) -> Vec<u32> {
        vec![self.v]
    }
    fn from_words(words: &[u32]) -> Self {
        One { v: words[0] }
    }
    fn make_ext(header: &TlvHeader, extra: &[u32]) -> Vec<u8> {
        unpad(header, extra)
    }
}

#[derive(Debug, PartialEq, Eq, Clone, Copy)]
struct Two {
    a: u32,
    b: u32,
}

impl TlvObject for Two {
    type Extension = TlvData;
    const TAG: u32 = u32::from_le_bytes(*b"TWO_");
    fn word_size() -> usize {
        2
    }
    fn to_words(&self) -> Vec<u32> {
        vec![self.a, self.b]
    }
    fn from_words(words: &[u32]) -> Self {
        Two { a: words[0], b: words[1] }
    }
    fn make_ext(_header: &TlvHeader, extra: &[u32]) -> TlvData {
        TlvData::overlay(extra)
    }
}

/// An object whose fixed part is as large as a header allows.
struct Big;

impl TlvObject for Big {
    type Extension = Vec<u8>;
    const TAG: u32 = u32::from_le_bytes(*b"BIG_");
    fn word_size() -> usize {
        0x3fff
    }
    fn to_words(&self) -> Vec<u32> {
        vec![0; 0x3fff]
    }
    fn from_words(_words: &[u32]) -> Self {
        Big
    }
    fn make_ext(header: &TlvHeader, extra: &[u32]) -> Vec<u8> {
        unpad(header, extra)
    }
}

fn header(tag: u32, length: u16) -> Vec<u32> {
    let (w0, w1) = TlvHeader { tag, length, reserved: 0 }.to_words();
    vec![w0, w1]
}

#[test]
fn header_words_roundtrip() {
    let h = TlvHeader { tag: 0x1234_5678, length: 11, reserved: 7 };
    let (w0, w1) = h.to_words();
    assert_eq!(w0, 0x1234_5678);
    assert_eq!(w1, 11 + 7 * 0x10000);
    assert_eq!(TlvHeader::from_words(w0, w1), h);
}

#[test]
fn header_lengths_and_padding() {
    let h = TlvHeader { tag: 1, length: 11, reserved: 0 };
    assert_eq!(h.byte_len(), 11);
    assert_eq!(h.padding_bytes(), 1);
    assert_eq!(h.word_len(), 3);
    let h = TlvHeader { tag: 1, length: 12, reserved: 0 };
    assert_eq!(h.padding_bytes(), 0);
    assert_eq!(h.word_len(), 3);
    let h = TlvHeader { tag: 1, length: 0, reserved: 0 };
    assert_eq!(h.padding_bytes(), 0);
    assert_eq!(h.word_len(), 0);
    let h = TlvHeader { tag: 1, length: 13, reserved: 0 };
    assert_eq!(h.padding_bytes(), 3);
}

#[test]
fn set_padding_keeps_words() {
    let mut h = TlvHeader { tag: 9, length: 11, reserved: 5 };
    h.set_padding_bytes(3);
    assert_eq!(h.length, 9);
    assert_eq!(h.padding_bytes(), 3);
    assert_eq!(h.word_len(), 3);
    h.set_padding_bytes(0);
    assert_eq!(h.length, 12);
    h.set_padding_bytes(6);
    assert_eq!(h.length, 10);
    assert_eq!(h.tag, 9);
    assert_eq!(h.reserved, 5);
    let mut empty = TlvHeader { tag: 9, length: 0, reserved: 0 };
    empty.set_padding_bytes(2);
    assert_eq!(empty.length, 0);
    let mut full = TlvHeader { tag: 9, length: 0xffff, reserved: 0 };
    full.set_padding_bytes(0);
    assert_eq!(full.length, 0xffff);
}

#[test]
fn unpad_removes_padding() {
    let h = TlvHeader { tag: 1, length: 11, reserved: 0 };
    assert_eq!(unpad(&h, &[0x0403_0201]), vec![1, 2, 3]);
    let h = TlvHeader { tag: 1, length: 12, reserved: 0 };
    assert_eq!(unpad(&h, &[0x0403_0201]), vec![1, 2, 3, 4]);
    let h = TlvHeader { tag: 1, length: 13, reserved: 0 };
    assert_eq!(unpad(&h, &[]), Vec::<u8>::new());
}

#[test]
fn le_bytes_roundtrip() {
    let words = [0x0403_0201, 0xdead_beef];
    let bytes = words_to_le_bytes(&words);
    assert_eq!(bytes, vec![1, 2, 3, 4, 0xef, 0xbe, 0xad, 0xde]);
    assert_eq!(le_bytes_to_words(&bytes), words.to_vec());
}

#[test]
fn overlay_bytes_needs_whole_words() {
    assert_eq!(TlvData::overlay_bytes(&[1, 2, 3, 4, 5]).err(), Some(BadAlignmentError));
    // Whole words at an address not aligned for u32.
    let wide = words_to_le_bytes(&[0, 0, 0]);
    assert_eq!(TlvData::overlay_bytes(&wide[1..9]).err(), Some(BadAlignmentError));
    assert!(TlvData::overlay_bytes(&wide[4..12]).is_ok());
    let mut stream = header(One::TAG, 4);
    stream.push(77);
    let bytes = words_to_le_bytes(&stream);
    let t = TlvData::overlay_bytes(&bytes).unwrap();
    let item = t.iter::<One>().next().unwrap();
    assert_eq!(item.data.v, 77);
    assert_eq!(item.payload, vec![77]);
    assert!(item.extra.is_empty());
}

#[test]
fn iteration_skips_other_tags() {
    let mut w = header(One::TAG, 4);
    w.push(1);
    w.extend(header(Two::TAG, 8));
    w.extend([2, 3]);
    w.extend(header(One::TAG, 7));
    w.extend([4, 0x0000_0605]);
    let t = TlvData::overlay(&w);

    let mut ones = t.iter::<One>();
    let first = ones.next().unwrap();
    assert_eq!(first.data.v, 1);
    let second = ones.next().unwrap();
    assert_eq!(second.data.v, 4);
    assert_eq!(second.ext(), vec![5, 6, 0]);
    assert!(ones.next().is_none());
    assert!(ones.next().is_none());

    let mut twos = t.iter::<Two>();
    assert_eq!(twos.next().unwrap().data, Two { a: 2, b: 3 });
    assert!(twos.next().is_none());

    let mut all = t.iter::<TlvAny>();
    let tags: Vec<u32> = (0..3).map(|_| all.next().unwrap().header.tag).collect();
    assert_eq!(tags, vec![One::TAG, Two::TAG, One::TAG]);
    assert!(all.next().is_none());
}

#[test]
fn iteration_stops_at_malformed_data() {
    // The second TLV claims two payload words but only one follows.
    let mut w = header(One::TAG, 4);
    w.push(1);
    w.extend(header(One::TAG, 8));
    w.push(2);
    let t = TlvData::overlay(&w);
    let mut it = t.iter::<One>();
    assert_eq!(it.next().unwrap().data.v, 1);
    assert!(it.next().is_none());
    assert!(it.next().is_none());

    // A matching TLV too short for the type ends the iteration, even though
    // a well-formed one follows.
    let mut w = header(Two::TAG, 4);
    w.push(1);
    w.extend(header(Two::TAG, 8));
    w.extend([2, 3]);
    let t = TlvData::overlay(&w);
    let mut it = t.iter::<Two>();
    assert!(it.next().is_none());
    assert!(it.next().is_none());

    // A lone word is not a header.
    let t = TlvData::overlay(&[5]);
    assert!(t.iter::<TlvAny>().next().is_none());
}

#[test]
fn cast_checks_tag_and_size() {
    let mut w = header(One::TAG, 4);
    w.push(9);
    let t = TlvData::overlay(&w);
    let any = t.iter::<TlvAny>().next().unwrap();
    assert!(any.cast::<Two>().is_none());
    let again = any.cast::<TlvAny>().unwrap();
    assert_eq!(again.header, any.header);
    assert_eq!(again.payload, vec![9]);
    assert_eq!(again.extra, vec![9]);
    let one = any.cast::<One>().unwrap();
    assert_eq!(one.data.v, 9);
    assert_eq!(one.header, any.header);

    // Right tag, payload too short.
    let mut w = header(Two::TAG, 4);
    w.push(9);
    let t = TlvData::overlay(&w);
    let any = t.iter::<TlvAny>().next().unwrap();
    assert!(any.cast::<Two>().is_none());
    assert_eq!(any.ext(), vec![9, 0, 0, 0]);
    assert_eq!(any.data.get_tag(), 0);
}

#[test]
fn builder_needs_room() {
    assert_eq!(TlvBuilder::new(vec![0u32; 1], &One { v: 1 }).err(), Some(TlvError));
    assert_eq!(TlvBuilder::new(vec![0u32; 2], &One { v: 1 }).err(), Some(TlvError));
    let mut b = TlvBuilder::new(vec![0u32; 4], &One { v: 1 }).unwrap();
    assert_eq!(b.header().length, 4);
    assert_eq!(b.header().tag, One::TAG);
    // One word left: no room for a header.
    assert_eq!(b.add(&One { v: 2 }), Err(TlvError));
    // The builder can no longer append.
    assert_eq!(b.add(&One { v: 2 }), Err(TlvError));
    assert_eq!(b.finish().into_words(), Err(InvalidBufferError));
}

#[test]
fn builder_length_overflow_leaves_header() {
    let mut b = TlvBuilder::new(vec![0xffff_ffffu32; 3 + 2 + 0x3fff], &One { v: 1 }).unwrap();
    // The object fits in the buffer but 8 + 4 * 0x3fff bytes overflow the length.
    assert_eq!(b.add(&Big), Err(TlvError));
    assert_eq!(b.header().length, 4);
    let words = b.finish().into_words().unwrap();
    assert_eq!(words.len(), 3 + 2 + 0x3fff);
    assert_eq!(&words[..5], &[One::TAG, 4, 1, Big::TAG, 0xfffc]);
    // The fixed part of the object was not written.
    assert_eq!(words[5], 0xffff_ffff);
}

#[test]
fn child_builder_holds_the_buffer() {
    let mut parent = TlvBuilder::new(vec![0u32; 16], &Two { a: 1, b: 2 }).unwrap();
    let mut child = parent.add_with_children(&Two { a: 3, b: 4 }).unwrap();
    assert_eq!(child.header().length, 8);
    // The parent cannot append while the child holds the buffer.
    assert_eq!(parent.add(&One { v: 5 }), Err(TlvError));
    child.add(&One { v: 6 }).unwrap();
    assert_eq!(child.header().length, 20);
    child.finish_with_parent(&mut parent).unwrap();
    assert_eq!(parent.header().length, 8 + 8 + 20);
    parent.add(&One { v: 7 }).unwrap();
    let words = parent.finish().into_words().unwrap();
    assert_eq!(
        words,
        vec![Two::TAG, 48, 1, 2, Two::TAG, 20, 3, 4, One::TAG, 4, 6, One::TAG, 4, 7]
    );
}

#[test]
fn child_finisher_is_not_the_buffer() {
    let mut parent = TlvBuilder::new(vec![0u32; 16], &Two { a: 1, b: 2 }).unwrap();
    let child = parent.add_with_children(&One { v: 3 }).unwrap();
    assert_eq!(child.finish().into_bytes(), Err(InvalidBufferError));
}

#[test]
fn finish_with_parent_overflow() {
    let mut parent = TlvBuilder::new(vec![0u32; 20000], &One { v: 1 }).unwrap();
    parent.add(&Two { a: 0, b: 0 }).unwrap();
    let mut child = parent.add_with_children(&One { v: 2 }).unwrap();
    for _ in 0..4094 {
        child.add(&Two { a: 0, b: 0 }).unwrap();
    }
    assert_eq!(child.header().length, 4 + 4094 * 16);
    assert_eq!(child.finish_with_parent(&mut parent), Err(TlvError));
    // The parent keeps its length and continues after the child.
    assert_eq!(parent.header().length, 4 + 16);
    parent.add(&One { v: 3 }).unwrap();
}

#[test]
fn packed_len_checks_every_node() {
    let ok = HostTlv::with_bytes(&One { v: 0 }, vec![0; 65531]);
    assert_eq!(ok.packed_len(), Some(65535));
    let too_long = HostTlv::with_bytes(&One { v: 0 }, vec![0; 65532]);
    assert_eq!(too_long.packed_len(), None);
    let nested = HostTlv::with_children(&Two { a: 0, b: 0 }, vec![too_long]);
    assert_eq!(nested.packed_len(), None);
    let nested = HostTlv::with_children(&Two { a: 0, b: 0 }, vec![HostTlv::with_bytes(&One { v: 0 }, vec![1, 2, 3])]);
    assert_eq!(nested.packed_len(), Some(8 + 8 + 8));
}

#[test]
fn pack_then_parse_gives_the_tree_back() {
    let tree = HostTlv::with_children(
        &Two { a: 10, b: 20 },
        vec![
            HostTlv::with_bytes(&One { v: 1 }, vec![9, 8, 7, 6, 5]),
            HostTlv::with_children(&Two { a: 3, b: 4 }, vec![]),
        ],
    );
    let bytes = tree.pack();
    assert_eq!(bytes.len(), 4 * (2 + 2 + 2 + 1 + 2 + 2 + 2));
    let t = TlvData::overlay_bytes(&bytes).unwrap();
    let mut it = t.iter::<Two>();
    let root = it.next().unwrap();
    assert!(it.next().is_none());
    assert_eq!(root.data, Two { a: 10, b: 20 });
    assert_eq!(root.header.length as usize, bytes.len() - 8);
    let kids = root.ext();
    let mut all = kids.iter::<TlvAny>();
    let first = all.next().unwrap().cast::<One>().unwrap();
    assert_eq!(first.data.v, 1);
    assert_eq!(first.ext(), vec![9, 8, 7, 6, 5]);
    let second = all.next().unwrap().cast::<Two>().unwrap();
    assert_eq!(second.data, Two { a: 3, b: 4 });
    assert!(second.ext().iter::<TlvAny>().next().is_none());
    assert!(all.next().is_none());
}

#[test]
fn builder_matches_pack() {
    let mut b = TlvBuilder::new(vec![0u32; 64], &Two { a: 1, b: 2 }).unwrap();
    b.add(&One { v: 3 }).unwrap();
    b.add_in(&Two { a: 4, b: 5 }, |c| c.add(&One { v: 6 })).unwrap();
    let built = b.finish().into_bytes().unwrap();
    let tree = HostTlv::with_children(
        &Two { a: 1, b: 2 },
        vec![
            HostTlv::with_bytes(&One { v: 3 }, vec![]),
            HostTlv::with_children(&Two { a: 4, b: 5 }, vec![HostTlv::with_bytes(&One { v: 6 }, vec![])]),
        ],
    );
    assert_eq!(built, tree.pack());
}

#[test]
fn hexdump_lines() {
    let lines = hexdump(b"Hello, world!\x00\x01\x7fXYZ");
    assert_eq!(lines.len(), 2);
    assert_eq!(
        lines[0],
        b"00000000  48 65 6C 6C 6F 2C 20 77 6F 72 6C 64 21 00 01 7F   Hello, world!...".to_vec()
    );
    assert_eq!(
        lines[1],
        b"00000010  58 59 5A                                          XYZ".to_vec()
    );
    assert!(hexdump(&[]).is_empty());
}

#[test]
fn fourcc_shows_tags() {
    assert_eq!(fourcc(u32::from_le_bytes(*b"FOO_")), "FOO_");
    assert_eq!(fourcc(u32::from_le_bytes([0x43, 0x42, 0x41, 0x01])), "CBA\\x01");
    assert_eq!(fourcc(0xff00_7f20), " \\x7f\\x00\\xff");
}

#[test]
fn string_buf_conversions() {
    let g = StringBuf::<8>::from_string(&"Google".to_string());
    assert_eq!(g.0, *b"Google\0\0");
    assert_eq!(g.to_string_lossy(), "Google");
    let long: StringBuf<8> = StringBuf::from("abcdefghij".to_string());
    assert_eq!(long.0, *b"abcdefgh");
    assert_eq!(String::from(long), "abcdefgh");
    let bad = StringBuf::<4>([0xff, b'A', 0, b'B']);
    assert_eq!(bad.to_string_lossy(), "\u{FFFD}A");
}

#[test]
fn sizes_in_words() {
    assert_eq!(word_size_of::<u64>(), 2);
    assert_eq!(word_size_of::<TlvHeader>(), 2);
    assert_eq!(word_size_of::<[u32; 5]>(), 5);
}

#[test]
fn sum_pair_fields_adds_matching_pairs() {
    let foo = u32::from_le_bytes(*b"FOO_");
    let bar = u32::from_le_bytes(*b"BAR_");
    let words = [foo, 8, 42, 100, bar, 8, 200, 300];
    assert_eq!(sum_pair_fields(&words, foo, bar), 642);
    assert_eq!(sum_pair_fields(&words, foo, 7), 142);
    // The same tag twice counts twice; a short payload counts nothing.
    assert_eq!(sum_pair_fields(&words, bar, bar), 1000);
    let short = [foo, 4, 42, bar, 8, 200, 300];
    assert_eq!(sum_pair_fields(&short, foo, bar), 500);
    // Wrapping addition.
    let big = [foo, 8, u32::MAX, 2];
    assert_eq!(sum_pair_fields(&big, foo, bar), 1);
    // A payload cut short ends the walk.
    let cut = [foo, 8, 42, 100, bar, 12, 200, 300];
    assert_eq!(sum_pair_fields(&cut, foo, bar), 142);
}
