//! Type-Length-Value (TLV) containers over 32-bit word buffers.
//!
//! A TLV stream is a sequence of objects, each made of a two-word
//! [`TlvHeader`] (a four-byte tag and a byte length) followed by its payload,
//! padded with zero bytes to a whole number of words. The payload starts with
//! the fixed part of the object ([`TlvObject`]) and continues with an
//! extension: raw bytes, or a nested stream of TLVs ([`TlvData`]).
//!
//! * [`TlvData`] holds a stream; [`TlvData::iter`] walks the objects of one
//!   type and [`TlvQuery`] casts an item to another type or reads its
//!   extension.
//! * [`TlvBuilder`] writes objects into a word buffer in place.
//! * [`host::HostTlv`] is an owned tree of objects that packs into a flat
//!   byte buffer.
//!
//! The byte image of a word buffer is little-endian throughout.

pub mod builder;
pub mod bytes;
pub mod data;
pub mod header;
pub mod hexdump;
pub mod host;
pub mod imgdsc;
pub mod object;
pub mod pairs;

pub use builder::InvalidBufferError;
pub use builder::TlvBuilder;
pub use builder::TlvBuilderFinisher;
pub use builder::TlvError;
pub use data::BadAlignmentError;
pub use data::TlvData;
pub use data::TlvItem;
pub use data::TlvIterator;
pub use data::TlvQuery;
pub use header::TlvHeader;
pub use hexdump::hexdump;
pub use host::HostTlvObject;
pub use imgdsc::fourcc;
pub use imgdsc::StringBuf;
pub use imgdsc::Timestamp;
pub use object::unpad;
pub use object::word_size_of;
pub use object::TlvAny;
pub use object::TlvObject;
pub use pairs::sum_pair_fields;
