use tlv::unpad;
use tlv::TlvBuilder;
use tlv::TlvData;
use tlv::TlvHeader;
use tlv::TlvObject;
use tlv::TlvQuery;

#[derive(Debug, PartialEq, Eq, Clone, Copy)]
pub struct Parent {
    pub id: u32,
}

impl TlvObject for Parent {
    type Extension = TlvData;
    const TAG: u32 = u32::from_le_bytes(*b"PRNT");
    fn word_size() -> usize {
        1
    }
    fn to_words(&self) -> Vec<u32> {
        vec![self.id]
    }
    fn from_words(words: &[u32]) -> Self {
        Parent { id: words[0] }
    }
    fn make_ext(_header: &TlvHeader, extra: &[u32]) -> TlvData {
        TlvData::overlay(extra)
    }
}

#[derive(Debug, PartialEq, Eq, Clone, Copy)]
pub struct Child {
    pub value: u32,
}

impl TlvObject for Child {
    type Extension = Vec<u8>;
    const TAG: u32 = u32::from_le_bytes(*b"CHLD");
    fn word_size() -> usize {
        1
    }
    fn to_words(&self) -> Vec<u32> {
        vec![self.value]
    }
    fn from_words(words: &[u32]) -> Self {
        Child { value: words[0] }
    }
    fn make_ext(header: &TlvHeader, extra: &[u32]) -> Vec<u8> {
        unpad(header, extra)
    }
}

#[test]
fn test_build_and_parse_simple() {
    let buf = vec![0u32; 32];

    // Build Parent and Child
    let mut builder = TlvBuilder::new(buf, &Parent { id: 100 }).unwrap();
    builder.add(&Child { value: 200 }).unwrap();

    let result_bytes = builder.finish().into_bytes().unwrap();
    assert_eq!(result_bytes.len(), 24);

    // Parse back
    let data = TlvData::overlay_bytes(&result_bytes).unwrap();

    let mut parent_iter = data.iter::<Parent>();
    let parent_item = parent_iter.next().unwrap();
    assert!(parent_iter.next().is_none());

    assert_eq!(parent_item.header.tag, Parent::TAG);
    assert_eq!(parent_item.data.id, 100);

    // Parse Child from Parent's extension
    let mut child_iter = parent_item.ext().iter::<Child>();
    let child_item = child_iter.next().expect("Should find Child");
    assert!(child_iter.next().is_none());

    assert_eq!(child_item.header.tag, Child::TAG);
    assert_eq!(child_item.data.value, 200);
}
