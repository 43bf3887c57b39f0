use crate::codec::{
    append_bytes, bytes_eq, data_record, encode_data_record, le32, lemma_le_roundtrip,
    rebuild_len, spec_read_len, u32_at, utf8_to_string, ReadStatus,
};
use crate::compaction::{compact_data, pairs_file, pairs_map, spec_compact};
use crate::error::AppError;
use crate::index::Index;
use crate::wal::{encode_put_record, put_wal_record, Operation};
use vstd::prelude::*;
use vstd::slice::{slice_subrange, slice_to_vec};
use vstd::utf8::{decode_utf8, encode_utf8, valid_utf8};

verus! {

/// The longest key, in bytes.
pub const KEY_LEN: u64 = 256;

/// The longest value, in bytes.
pub const VALUE_LEN: u64 = 1024 * 1024;

/// Reading the record at `offset` of the data file for `key`: `None` when
/// the file ends before the record or the record holds another key, the
/// value when the record holds the key.
pub open spec fn spec_read_record(data: Seq<u8>, offset: int, key: Seq<u8>) -> Result<
    Option<Seq<char>>,
    AppError,
> {
    match spec_read_len(data, offset) {
        ReadStatus::Eof => Ok(None),
        ReadStatus::CorruptTail => Err(AppError::CorruptedDb),
        ReadStatus::CompleteRead(kl) => match spec_read_len(data, offset + 4) {
            ReadStatus::Eof => Ok(None),
            ReadStatus::CorruptTail => Err(AppError::CorruptedDb),
            ReadStatus::CompleteRead(vl) => {
                let ks = offset + 8;
                let vs = ks + kl;
                if vs > data.len() {
                    Err(AppError::ReadKey)
                } else if !valid_utf8(data.subrange(ks, vs)) {
                    Err(AppError::ConvertUtf8ToString)
                } else if data.subrange(ks, vs) != key {
                    Ok(None)
                } else if vs + vl > data.len() {
                    Err(AppError::ReadValue)
                } else if !valid_utf8(data.subrange(vs, vs + vl)) {
                    Err(AppError::ConvertUtf8ToString)
                } else {
                    Ok(Some(decode_utf8(data.subrange(vs, vs + vl))))
                }
            },
        },
    }
}

/// What `get` answers for `key` on a data file and an index map.
pub open spec fn spec_get(data: Seq<u8>, index: Map<Seq<u8>, u64>, key: Seq<char>) -> Result<
    Option<Seq<char>>,
    AppError,
> {
    let kb = encode_utf8(key);
    if kb.len() == 0 || kb.len() > KEY_LEN {
        Err(AppError::InvalidKey(kb.len() as usize))
    } else if !index.contains_key(kb) {
        Ok(None)
    } else {
        spec_read_record(data, index[kb] as int, kb)
    }
}

/// What a write hands over to be made durable, in this order: the
/// write-ahead log record, the data record to append at `offset` of the
/// data file, and the index record to append to the index file.
#[derive(Debug)]
pub struct PutPlan {
    pub offset: u64,
    pub wal_record: Vec<u8>,
    pub data_record: Vec<u8>,
    pub index_record: Vec<u8>,
}

/// What a compaction gives: the contents of the new data file and of the
/// new index file. The steps in `compact_recovery` write them to the
/// temporary files and rename them over the old ones.
#[derive(Debug)]
pub struct CompactPlan {
    pub data: Vec<u8>,
    pub index: Vec<u8>,
}

/// The storage engine over images of the data file and the index.
#[derive(Debug)]
pub struct StorageEngine {
    data: Vec<u8>,
    index: Index,
}

impl StorageEngine {
    /// The contents of the data file.
    pub closed spec fn data_bytes(&self) -> Seq<u8> {
        self.data@
    }

    /// The map from each key to the offset of its latest record.
    pub closed spec fn index_map(&self) -> Map<Seq<u8>, u64> {
        self.index@
    }

    /// The contents of the index file.
    pub closed spec fn index_bytes(&self) -> Seq<u8> {
        self.index.file_bytes()
    }

    /// The index is well formed: its file image loads back as its map.
    pub closed spec fn wf(&self) -> bool {
        self.index.wf()
    }

    /// An engine over the contents of the data file and a loaded index.
    pub fn new(data: Vec<u8>, index: Index) -> (engine: StorageEngine)
        requires
            index.wf(),
        ensures
            engine.wf(),
            engine.data_bytes() == data@,
            engine.index_map() == index@,
            engine.index_bytes() == index.file_bytes(),
            engine.key_order() == index.key_order(),
    {
        StorageEngine { data, index }
    }

    /// Writes `value` under `key`: the record is appended to the data file
    /// and the index maps the key to it. A key that is empty or longer than
    /// `KEY_LEN` bytes, or a value longer than `VALUE_LEN` bytes, is
    /// `InvalidKeyValueLen` with both lengths, and changes nothing.
    pub fn put(&mut self, key: String, value: String) -> (res: Result<PutPlan, AppError>)
        requires
            old(self).wf(),
        ensures
            final(self).wf(),
            ({
                let kb = encode_utf8(key@);
                let vb = encode_utf8(value@);
                let offset = old(self).data_bytes().len() as u64;
                if kb.len() == 0 || kb.len() > KEY_LEN || vb.len() > VALUE_LEN {
                    &&& res == Err::<PutPlan, AppError>(
                        AppError::InvalidKeyValueLen(kb.len() as usize, vb.len() as usize),
                    )
                    &&& *final(self) == *old(self)
                } else {
                    &&& res matches Ok(plan) && {
                        &&& plan.offset == offset
                        &&& plan.wal_record@ == put_wal_record(Operation::WriteInDb, kb, vb, offset)
                        &&& plan.data_record@ == data_record(kb, vb)
                        &&& plan.index_record@ == crate::codec::index_record(kb, offset)
                    }
                    &&& final(self).data_bytes() == old(self).data_bytes() + data_record(kb, vb)
                    &&& final(self).index_map() == old(self).index_map().insert(kb, offset)
                    &&& final(self).index_bytes() == old(self).index_bytes()
                        + crate::codec::index_record(kb, offset)
                }
            }),
    {
        let kb = slice_to_vec(key.as_str().as_bytes());
        let vb = value.as_str().as_bytes();
        if kb.len() == 0 || kb.len() as u64 > KEY_LEN || vb.len() as u64 > VALUE_LEN {
            return Err(AppError::InvalidKeyValueLen(kb.len(), vb.len()));
        }
        let offset = self.data.len() as u64;
        let wal_record = encode_put_record(Operation::WriteInDb, kb.as_slice(), vb, offset);
        let data_record = encode_data_record(kb.as_slice(), vb);
        append_bytes(&mut self.data, data_record.as_slice());
        let index_record = match self.index.put(key, offset) {
            Ok(r) => r,
            Err(e) => {
                return Err(e);
            },
        };
        Ok(PutPlan { offset, wal_record, data_record, index_record })
    }

    /// Compacts the data file: each key's live record is copied, in the
    /// index's order, to a new data file, and the index is rebuilt over the
    /// new offsets; stale records are dropped. See `compact_data` for the
    /// errors, which change nothing.
    pub fn compact(&mut self) -> (res: Result<CompactPlan, AppError>)
        requires
            old(self).wf(),
        ensures
            final(self).wf(),
            match spec_compact(old(self).data_bytes(), old(self).key_order(), old(self).index_map()) {
                Ok((d, es)) => res matches Ok(plan) && {
                    &&& plan.data@ == d
                    &&& plan.index@ == pairs_file(es)
                    &&& final(self).data_bytes() == d
                    &&& final(self).index_map() == pairs_map(es)
                    &&& final(self).index_bytes() == pairs_file(es)
                },
                Err(e) => res matches Err(e2) && e2 == e && *final(self) == *old(self),
            },
    {
        let (new_data, new_index) = compact_data(self.data.as_slice(), &self.index)?;
        let plan = CompactPlan { data: slice_to_vec(new_data.as_slice()), index: new_index.file_contents() };
        self.data = new_data;
        self.index.update_memory_map(new_index);
        Ok(plan)
    }

    /// The order in which compaction copies the keys.
    pub closed spec fn key_order(&self) -> Seq<Seq<u8>> {
        self.index.key_order()
    }

    /// Law: the index file that the engine stands for loads back as the
    /// engine's map, with its keys in the engine's order, so a restart
    /// reads what was written.
    pub proof fn law_index_file_loads_back(&self)
        requires
            self.wf(),
        ensures
            crate::index::parse_index(self.index_bytes()) == Ok::<Map<Seq<u8>, u64>, AppError>(
                self.index_map(),
            ),
            crate::index::parse_index_order(self.index_bytes()) == self.key_order(),
    {
        crate::index::law_index_file_loads_back(&self.index);
    }

    /// The compaction order lists each key of the index exactly once.
    pub proof fn lemma_key_order(&self)
        requires
            self.wf(),
        ensures
            self.key_order().no_duplicates(),
            forall|k: Seq<u8>| self.index_map().contains_key(k) <==> self.key_order().contains(k),
    {
        self.index.lemma_wf();
    }

    /// Reads the value of `key`. An empty key or one longer than `KEY_LEN`
    /// bytes is `InvalidKey`; a key the index lacks, a record the data file
    /// ends before, or a record that holds another key gives `None`; a
    /// header cut short is `CorruptedDb`; a key or value that runs past the
    /// end is `ReadKey` or `ReadValue`; bytes that are not UTF-8 are
    /// `ConvertUtf8ToString`.
    pub fn get(&self, key: &str) -> (res: Result<Option<String>, AppError>)
        requires
            self.wf(),
        ensures
            match spec_get(self.data_bytes(), self.index_map(), key@) {
                Ok(Some(v)) => res matches Ok(Some(s)) && s@ == v,
                Ok(None) => res matches Ok(None),
                Err(e) => res matches Err(e2) && e2 == e,
            },
    {
        let kb = key.as_bytes();
        if kb.len() == 0 || kb.len() as u64 > KEY_LEN {
            return Err(AppError::InvalidKey(kb.len()));
        }
        match self.index.get(key) {
            None => Ok(None),
            Some(offset) => read_record(self.data.as_slice(), offset, kb),
        }
    }
}

/// Reads the record at `offset` of the data file for `key`.
pub fn read_record(data: &[u8], offset: u64, key: &[u8]) -> (res: Result<Option<String>, AppError>)
    ensures
        match spec_read_record(data@, offset as int, key@) {
            Ok(Some(v)) => res matches Ok(Some(s)) && s@ == v,
            Ok(None) => res matches Ok(None),
            Err(e) => res matches Err(e2) && e2 == e,
        },
{
    let len = data.len();
    let key_len = match rebuild_len(data, offset) {
        ReadStatus::Eof => return Ok(None),
        ReadStatus::CompleteRead(n) => n,
        ReadStatus::CorruptTail => return Err(AppError::CorruptedDb),
    };
    assert(offset + 4 <= len);
    let value_len = match rebuild_len(data, offset + 4) {
        ReadStatus::Eof => return Ok(None),
        ReadStatus::CompleteRead(n) => n,
        ReadStatus::CorruptTail => return Err(AppError::CorruptedDb),
    };
    let ks = (offset + 8) as usize;
    if key_len > (len - ks) as u64 {
        return Err(AppError::ReadKey);
    }
    let vs = ks + key_len as usize;
    let disk_key = slice_subrange(data, ks, vs);
    if utf8_to_string(slice_to_vec(disk_key)).is_none() {
        return Err(AppError::ConvertUtf8ToString);
    }
    if !bytes_eq(disk_key, key) {
        return Ok(None);
    }
    if value_len > (len - vs) as u64 {
        return Err(AppError::ReadValue);
    }
    let value_end = vs + value_len as usize;
    match utf8_to_string(slice_to_vec(slice_subrange(data, vs, value_end))) {
        Some(value) => Ok(Some(value)),
        None => Err(AppError::ConvertUtf8ToString),
    }
}

/// A record read from a file that continues with more bytes reads as it did
/// in the file alone, when its value was read completely there.
pub proof fn lemma_read_record_extend(data: Seq<u8>, more: Seq<u8>, offset: int, key: Seq<u8>)
    requires
        0 <= offset,
        spec_read_record(data, offset, key) is Ok,
        spec_read_record(data, offset, key)->Ok_0 is Some,
    ensures
        spec_read_record(data + more, offset, key) == spec_read_record(data, offset, key),
{
    let d = data + more;
    let kl = u32_at(data, offset);
    let vl = u32_at(data, offset + 4);
    let ks = offset + 8;
    let vs = ks + kl;
    assert(d.subrange(offset, offset + 4) =~= data.subrange(offset, offset + 4));
    assert(d.subrange(offset + 4, offset + 8) =~= data.subrange(offset + 4, offset + 8));
    assert(d.subrange(ks, vs) =~= data.subrange(ks, vs));
    assert(d.subrange(vs, vs + vl) =~= data.subrange(vs, vs + vl));
}

/// A data record appended at the end of the file reads back as its key and
/// value.
pub proof fn lemma_read_appended_record(data: Seq<u8>, kb: Seq<u8>, vb: Seq<u8>)
    requires
        kb.len() <= u32::MAX,
        vb.len() <= u32::MAX,
        valid_utf8(kb),
        valid_utf8(vb),
    ensures
        spec_read_record(data + data_record(kb, vb), data.len() as int, kb) == Ok::<
            Option<Seq<char>>,
            AppError,
        >(Some(decode_utf8(vb))),
{
    lemma_le_roundtrip();
    let d = data + data_record(kb, vb);
    let o = data.len() as int;
    assert(le32(kb.len()).len() == 4);
    assert(le32(vb.len()).len() == 4);
    assert(d.subrange(o, o + 4) =~= le32(kb.len()));
    assert(d.subrange(o + 4, o + 8) =~= le32(vb.len()));
    assert(u32_at(d, o) == kb.len());
    assert(u32_at(d, o + 4) == vb.len());
    assert(d.subrange(o + 8, o + 8 + kb.len()) =~= kb);
    assert(d.subrange(o + 8 + kb.len(), o + 8 + kb.len() + vb.len()) =~= vb);
}

/// Law: after a write of `value` under `key`, reading `key` gives `value`.
pub proof fn law_get_after_put(
    data: Seq<u8>,
    index: Map<Seq<u8>, u64>,
    key: Seq<char>,
    value: Seq<char>,
)
    requires
        0 < encode_utf8(key).len() <= KEY_LEN,
        encode_utf8(value).len() <= VALUE_LEN,
        data.len() < u64::MAX,
    ensures
        spec_get(
            data + data_record(encode_utf8(key), encode_utf8(value)),
            index.insert(encode_utf8(key), data.len() as u64),
            key,
        ) == Ok::<Option<Seq<char>>, AppError>(Some(value)),
{
    broadcast use vstd::utf8::group_utf8_lib;

    lemma_read_appended_record(data, encode_utf8(key), encode_utf8(value));
}

/// The data file holds a whole record at `offset`: its header, key and
/// value all lie within the file.
pub open spec fn record_whole_at(data: Seq<u8>, offset: int) -> bool {
    &&& 0 <= offset
    &&& offset + 8 <= data.len()
    &&& offset + 8 + u32_at(data, offset) + u32_at(data, offset + 4) <= data.len()
}

/// Reading at an offset that holds a whole record is the same once more
/// bytes are appended to the file.
proof fn lemma_read_whole_record_extend(data: Seq<u8>, more: Seq<u8>, offset: int, key: Seq<u8>)
    requires
        record_whole_at(data, offset),
    ensures
        spec_read_record(data + more, offset, key) == spec_read_record(data, offset, key),
{
    let d = data + more;
    let kl = u32_at(data, offset);
    let vl = u32_at(data, offset + 4);
    let ks = offset + 8;
    let vs = ks + kl;
    assert(d.subrange(offset, offset + 4) =~= data.subrange(offset, offset + 4));
    assert(d.subrange(offset + 4, offset + 8) =~= data.subrange(offset + 4, offset + 8));
    assert(d.subrange(ks, vs) =~= data.subrange(ks, vs));
    assert(d.subrange(vs, vs + vl) =~= data.subrange(vs, vs + vl));
}

/// Law: a write under one key leaves what reading another key gives, when
/// that key is absent from the index or the data file holds a whole record
/// at its indexed offset (whatever reading it gives).
pub proof fn law_put_keeps_other_keys(
    data: Seq<u8>,
    index: Map<Seq<u8>, u64>,
    key: Seq<char>,
    value: Seq<char>,
    other: Seq<char>,
)
    requires
        other != key,
        index.contains_key(encode_utf8(other)) ==> record_whole_at(
            data,
            index[encode_utf8(other)] as int,
        ),
    ensures
        spec_get(
            data + data_record(encode_utf8(key), encode_utf8(value)),
            index.insert(encode_utf8(key), data.len() as u64),
            other,
        ) == spec_get(data, index, other),
{
    broadcast use vstd::utf8::group_utf8_lib;

    assert(encode_utf8(other) != encode_utf8(key)) by {
        if encode_utf8(other) == encode_utf8(key) {
            assert(decode_utf8(encode_utf8(other)) == decode_utf8(encode_utf8(key)));
        }
    }
    let ob = encode_utf8(other);
    if index.contains_key(ob) && 0 < ob.len() <= KEY_LEN {
        lemma_read_whole_record_extend(
            data,
            data_record(encode_utf8(key), encode_utf8(value)),
            index[ob] as int,
            ob,
        );
    }
}

} // verus!
