use vstd::bytes::{
    spec_u32_from_le_bytes, spec_u32_to_le_bytes, spec_u64_from_le_bytes, spec_u64_to_le_bytes,
    u32_from_le_bytes, u32_to_le_bytes, u64_from_le_bytes, u64_to_le_bytes,
};
use vstd::prelude::*;
use vstd::slice::slice_subrange;

verus! {

/// What a four-byte length read at a position of a file gives.
#[derive(Debug, PartialEq, Eq, Structural, Clone, Copy)]
pub enum ReadStatus {
    /// Nothing is left to read: a clean end of file.
    Eof,
    /// Four bytes were read; the little-endian length they hold.
    CompleteRead(u64),
    /// Between one and three bytes were left: a header cut short.
    CorruptTail,
}

/// The four little-endian bytes of a length.
pub open spec fn le32(n: nat) -> Seq<u8> {
    spec_u32_to_le_bytes(n as u32)
}

/// The eight little-endian bytes of an offset.
pub open spec fn le64(n: u64) -> Seq<u8> {
    spec_u64_to_le_bytes(n)
}

/// The length stored in the four bytes at `pos`.
pub open spec fn u32_at(bytes: Seq<u8>, pos: int) -> nat {
    spec_u32_from_le_bytes(bytes.subrange(pos, pos + 4)) as nat
}

/// The offset stored in the eight bytes at `pos`.
pub open spec fn u64_at(bytes: Seq<u8>, pos: int) -> u64 {
    spec_u64_from_le_bytes(bytes.subrange(pos, pos + 8))
}

/// Reading a length at `pos` of a file whose contents are `bytes`.
pub open spec fn spec_read_len(bytes: Seq<u8>, pos: int) -> ReadStatus {
    if pos >= bytes.len() {
        ReadStatus::Eof
    } else if pos + 4 <= bytes.len() {
        ReadStatus::CompleteRead(u32_at(bytes, pos) as u64)
    } else {
        ReadStatus::CorruptTail
    }
}

/// A record of the data file: key length, value length, key, value.
pub open spec fn data_record(key: Seq<u8>, value: Seq<u8>) -> Seq<u8> {
    le32(key.len()) + le32(value.len()) + key + value
}

/// A record of the index file: key length, key, offset of the key's record
/// in the data file.
pub open spec fn index_record(key: Seq<u8>, offset: u64) -> Seq<u8> {
    le32(key.len()) + key + le64(offset)
}

/// Lengths and offsets read back as they were written.
pub proof fn lemma_le_roundtrip()
    ensures
        forall|n: u32|
            #![trigger spec_u32_to_le_bytes(n)]
            spec_u32_to_le_bytes(n).len() == 4 && spec_u32_from_le_bytes(
                spec_u32_to_le_bytes(n),
            ) == n,
        forall|n: u64|
            #![trigger spec_u64_to_le_bytes(n)]
            spec_u64_to_le_bytes(n).len() == 8 && spec_u64_from_le_bytes(
                spec_u64_to_le_bytes(n),
            ) == n,
{
    vstd::bytes::lemma_auto_spec_u32_to_from_le_bytes();
    vstd::bytes::lemma_auto_spec_u64_to_from_le_bytes();
    assert forall|n: u32|
        #![trigger spec_u32_to_le_bytes(n)]
        spec_u32_to_le_bytes(n).len() == 4 && spec_u32_from_le_bytes(spec_u32_to_le_bytes(n))
            == n by {
        assert(spec_u32_to_le_bytes(n).len() == 4);
    }
}

/// Appends `src` to `dst`.
pub fn append_bytes(dst: &mut Vec<u8>, src: &[u8])
    ensures
        final(dst)@ == old(dst)@ + src@,
{
    let mut i: usize = 0;
    while i < src.len()
        invariant
            i <= src@.len(),
            dst@ == old(dst)@ + src@.subrange(0, i as int),
        decreases src@.len() - i,
    {
        dst.push(src[i]);
        i = i + 1;
        assert(dst@ =~= old(dst)@ + src@.subrange(0, i as int));
    }
    assert(src@.subrange(0, i as int) =~= src@);
}

/// Reads the four-byte length at `pos` of a file whose contents are `bytes`
/// (a clean end, a complete length, or a header cut short).
pub fn rebuild_len(bytes: &[u8], pos: u64) -> (status: ReadStatus)
    ensures
        status == spec_read_len(bytes@, pos as int),
{
    let len = bytes.len() as u64;
    if pos >= len {
        ReadStatus::Eof
    } else if len - pos >= 4 {
        let p = pos as usize;
        let n = u32_from_le_bytes(slice_subrange(bytes, p, p + 4));
        ReadStatus::CompleteRead(n as u64)
    } else {
        ReadStatus::CorruptTail
    }
}

/// The four little-endian bytes of a length.
pub fn u32_to_le_bytes_vec(n: u32) -> (bytes: Vec<u8>)
    ensures
        bytes@ == le32(n as nat),
{
    u32_to_le_bytes(n)
}

/// The eight little-endian bytes of an offset.
pub fn u64_to_le_bytes_vec(n: u64) -> (bytes: Vec<u8>)
    ensures
        bytes@ == le64(n),
{
    u64_to_le_bytes(n)
}

/// Reads the eight-byte offset at `pos`.
pub fn read_u64_at(bytes: &[u8], pos: usize) -> (n: u64)
    requires
        pos + 8 <= bytes@.len(),
    ensures
        n == u64_at(bytes@, pos as int),
{
    let n = bytes.len();
    assert(pos + 8 <= n);
    u64_from_le_bytes(slice_subrange(bytes, pos, pos + 8))
}

/// The data-file record of a key and a value.
pub fn encode_data_record(key: &[u8], value: &[u8]) -> (record: Vec<u8>)
    requires
        key@.len() <= u32::MAX,
        value@.len() <= u32::MAX,
    ensures
        record@ == data_record(key@, value@),
{
    let mut record = u32_to_le_bytes(key.len() as u32);
    let v = u32_to_le_bytes(value.len() as u32);
    append_bytes(&mut record, v.as_slice());
    append_bytes(&mut record, key);
    append_bytes(&mut record, value);
    record
}

/// The index-file record of a key and its offset.
pub fn encode_index_record(key: &[u8], offset: u64) -> (record: Vec<u8>)
    requires
        key@.len() <= u32::MAX,
    ensures
        record@ == index_record(key@, offset),
{
    let mut record = u32_to_le_bytes(key.len() as u32);
    append_bytes(&mut record, key);
    let o = u64_to_le_bytes(offset);
    append_bytes(&mut record, o.as_slice());
    record
}

} // verus!

verus! {

/// Decodes UTF-8 bytes into a string with `String::from_utf8`. Trusted:
/// the standard library documents that it succeeds exactly on valid UTF-8
/// and then holds the characters that the bytes encode; the contract says
/// so over vstd's definitions of UTF-8.
#[verifier::external_body]
pub(crate) fn utf8_to_string(bytes: Vec<u8>) -> (res: Option<String>)
    ensures
        res is Some <==> vstd::utf8::valid_utf8(bytes@),
        res matches Some(s) ==> s@ == vstd::utf8::decode_utf8(bytes@),
{
    String::from_utf8(bytes).ok()
}

/// Whether two byte strings are equal.
pub fn bytes_eq(a: &[u8], b: &[u8]) -> (eq: bool)
    ensures
        eq == (a@ == b@),
{
    if a.len() != b.len() {
        return false;
    }
    let mut i: usize = 0;
    while i < a.len()
        invariant
            a@.len() == b@.len(),
            i <= a@.len(),
            forall|j: int| 0 <= j < i ==> a@[j] == b@[j],
        decreases a@.len() - i,
    {
        if a[i] != b[i] {
            return false;
        }
        i = i + 1;
    }
    assert(a@ =~= b@);
    true
}

} // verus!
