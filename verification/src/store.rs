//! The raw store: one flat blob of bytes, read at arbitrary offsets.

use crate::index::PartOffset;
use vstd::prelude::*;
use vstd::slice::slice_subrange;
use vstd::slice::slice_to_vec;
use vstd::utf8::decode_utf8;
use vstd::utf8::encode_utf8;
use vstd::utf8::encode_utf8_decode_utf8;
use vstd::utf8::valid_utf8;

verus! {

/// Why the text of a part could not be had.
#[derive(Debug, Clone, Copy, PartialEq, Eq)]
pub enum StoreError {
    /// The raw store cannot supply `length` bytes at `offset`.
    Io { offset: u64, length: usize },
    /// The `length` bytes at `offset` are not UTF-8.
    Decode { offset: u64, length: usize },
}

/// `store` can supply the bytes of `part`: the whole range lies inside the
/// store, or the part has no bytes. Nothing is read for a part without
/// bytes, wherever it points.
pub open spec fn part_readable(store: Seq<u8>, part: PartOffset) -> bool {
    part.length == 0 || part.offset + part.length <= store.len()
}

/// The bytes of `store` that `part` addresses.
pub open spec fn part_bytes(store: Seq<u8>, part: PartOffset) -> Seq<u8>
    recommends
        part_readable(store, part),
{
    if part.length == 0 {
        Seq::empty()
    } else {
        store.subrange(part.offset as int, part.offset + part.length)
    }
}

/// What stands in the way of reading `part` from `store` as text, if anything
/// does: bytes that the store cannot supply come before bytes that are no
/// text.
pub open spec fn part_fault(store: Seq<u8>, part: PartOffset) -> Option<StoreError> {
    if !part_readable(store, part) {
        Some(StoreError::Io { offset: part.offset, length: part.length })
    } else if !valid_utf8(part_bytes(store, part)) {
        Some(StoreError::Decode { offset: part.offset, length: part.length })
    } else {
        None
    }
}

/// The text of `part` in `store`. It means something where
/// `part_fault(store, part)` is `None`.
pub open spec fn part_text(store: Seq<u8>, part: PartOffset) -> Seq<char>
    recommends
        part_fault(store, part) is None,
{
    decode_utf8(part_bytes(store, part))
}

/// `String::from_utf8` of std: the bytes become a string exactly when they
/// are well-formed UTF-8, and the string then consists of these very bytes.
/// Which byte was at fault is not handed on.
#[verifier::external_body]
fn string_from_utf8(bytes: Vec<u8>) -> (res: Option<String>)
    ensures
        res is Some <==> valid_utf8(bytes@),
        res matches Some(text) ==> encode_utf8(text@) == bytes@,
{
    match String::from_utf8(bytes) {
        Ok(text) => Some(text),
        Err(_) => None,
    }
}

/// Decodes `bytes` as UTF-8 text; `None` where they are not UTF-8.
pub fn decode_text(bytes: Vec<u8>) -> (res: Option<String>)
    ensures
        res is Some <==> valid_utf8(bytes@),
        res matches Some(text) ==> text@ == decode_utf8(bytes@) && encode_utf8(text@) == bytes@,
{
    let res = string_from_utf8(bytes);
    proof {
        if res is Some {
            encode_utf8_decode_utf8(res->0@);
        }
    }
    res
}

/// A raw store held in memory. Nothing but [`RawStore::read_exact`] looks
/// into it, and every read is positioned by its own offset.
#[derive(Debug, Clone, PartialEq, Eq)]
pub struct RawStore {
    bytes: Vec<u8>,
}

impl View for RawStore {
    type V = Seq<u8>;

    closed spec fn view(&self) -> Seq<u8> {
        self.bytes@
    }
}

impl RawStore {
    /// The store that holds `bytes`.
    pub fn new(bytes: Vec<u8>) -> (store: RawStore)
        ensures
            store@ == bytes@,
    {
        RawStore { bytes }
    }

    /// The size of the store in bytes.
    pub fn len(&self) -> (n: usize)
        ensures
            n == self@.len(),
    {
        self.bytes.len()
    }

    /// All bytes of the store, in order.
    pub fn as_bytes(&self) -> (bytes: &[u8])
        ensures
            bytes@ == self@,
    {
        self.bytes.as_slice()
    }

    /// Gives the bytes back.
    pub fn into_bytes(self) -> (bytes: Vec<u8>)
        ensures
            bytes@ == self@,
    {
        self.bytes
    }

    /// Reads exactly `length` bytes at `offset`. Fails with
    /// [`StoreError::Io`] exactly when bytes are asked for and the store ends
    /// before `offset + length`. A read of no bytes succeeds at any offset.
    pub fn read_exact(&self, offset: u64, length: usize) -> (res: Result<Vec<u8>, StoreError>)
        ensures
            match res {
                Ok(bytes) => part_readable(self@, (PartOffset { offset, length }))
                    && bytes@ == part_bytes(self@, (PartOffset { offset, length })),
                Err(e) => !part_readable(self@, (PartOffset { offset, length }))
                    && e == (StoreError::Io { offset, length }),
            },
    {
        if length == 0 {
            return Ok(Vec::new());
        }
        let size = self.bytes.len();
        if offset > size as u64 {
            return Err(StoreError::Io { offset, length });
        }
        let begin = offset as usize;
        if length > size - begin {
            return Err(StoreError::Io { offset, length });
        }
        let range = slice_subrange(self.bytes.as_slice(), begin, begin + length);
        Ok(slice_to_vec(range))
    }

    /// Reads the part at `part` and decodes it as text: the fault that
    /// [`part_fault`] names, or the text that [`part_text`] names.
    pub fn read_text(&self, part: &PartOffset) -> (res: Result<String, StoreError>)
        ensures
            match res {
                Ok(text) => part_fault(self@, *part) is None && text@ == part_text(self@, *part),
                Err(e) => part_fault(self@, *part) == Some(e),
            },
    {
        let bytes = self.read_exact(part.offset, part.length)?;
        match decode_text(bytes) {
            Some(text) => Ok(text),
            None => Err(StoreError::Decode { offset: part.offset, length: part.length }),
        }
    }
}

} // verus!
