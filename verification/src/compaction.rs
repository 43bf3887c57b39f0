use crate::codec::{
    append_bytes, data_record, encode_data_record, encode_index_record, index_record, le32,
    lemma_le_roundtrip, rebuild_len, spec_read_len, u32_at, utf8_to_string, ReadStatus,
};
use crate::engine::{
    lemma_read_appended_record, lemma_read_record_extend, record_whole_at, spec_get, StorageEngine,
};
use crate::error::AppError;
use crate::index::{
    lemma_parse_index_append, lemma_parse_index_record, parse_index, Index, MAX_KEY_LEN,
};
use vstd::prelude::*;
use vstd::slice::slice_subrange;
use vstd::utf8::{encode_utf8, valid_utf8};

verus! {

/// Where compaction stands after some keys.
pub enum CompactState {
    /// The compacted data so far, and each copied key with its new offset.
    Running(Seq<u8>, Seq<(Seq<u8>, u64)>),
    /// A key's record was missing or cut short.
    Failed(AppError),
}

/// The value of the record at `prev` of the data file: empty when its
/// length is 0, wherever the key ends, else the bytes after the key.
pub open spec fn stored_value(data: Seq<u8>, prev: int) -> Seq<u8> {
    let vl = u32_at(data, prev + 4);
    let vs = prev + 8 + u32_at(data, prev);
    if vl == 0 {
        Seq::empty()
    } else {
        data.subrange(vs, vs + vl)
    }
}

/// Copying the live record of `key`, at `prev` of the data file, to the end
/// of the compacted data: the key comes from the index and the value from
/// the record, so a record with an empty value needs only its header.
pub open spec fn compact_step(data: Seq<u8>, key: Seq<u8>, prev: u64, st: CompactState) -> CompactState {
    match st {
        CompactState::Running(d, es) => match spec_read_len(data, prev as int) {
            ReadStatus::CompleteRead(kl) => match spec_read_len(data, prev + 4) {
                ReadStatus::CompleteRead(vl) => {
                    let vs = prev + 8 + kl;
                    if vl > 0 && vs + vl > data.len() {
                        CompactState::Failed(AppError::CorruptedDb)
                    } else {
                        CompactState::Running(
                            d + data_record(key, stored_value(data, prev as int)),
                            es.push((key, d.len() as u64)),
                        )
                    }
                },
                _ => CompactState::Failed(AppError::CorruptedDb),
            },
            _ => CompactState::Failed(AppError::CorruptedDb),
        },
        _ => st,
    }
}

/// Compaction over the first `n` keys.
pub open spec fn compact_prefix(
    data: Seq<u8>,
    keys: Seq<Seq<u8>>,
    offsets: Map<Seq<u8>, u64>,
    n: nat,
) -> CompactState
    decreases n,
{
    if n == 0 {
        CompactState::Running(Seq::empty(), Seq::empty())
    } else {
        compact_step(
            data,
            keys[n - 1],
            offsets[keys[n - 1]],
            compact_prefix(data, keys, offsets, (n - 1) as nat),
        )
    }
}

/// What compaction gives: the new data file, holding one record for each
/// key copied in order, and each copied key with its new offset.
pub open spec fn spec_compact(data: Seq<u8>, keys: Seq<Seq<u8>>, offsets: Map<Seq<u8>, u64>) -> Result<
    (Seq<u8>, Seq<(Seq<u8>, u64)>),
    AppError,
> {
    match compact_prefix(data, keys, offsets, keys.len()) {
        CompactState::Running(d, es) => Ok((d, es)),
        CompactState::Failed(e) => Err(e),
    }
}

/// The map that a list of keys and offsets gives, a later pair replacing an
/// earlier one.
pub open spec fn pairs_map(es: Seq<(Seq<u8>, u64)>) -> Map<Seq<u8>, u64>
    decreases es.len(),
{
    if es.len() == 0 {
        Map::empty()
    } else {
        pairs_map(es.drop_last()).insert(es.last().0, es.last().1)
    }
}

/// The index file that holds a record for each pair, in order.
pub open spec fn pairs_file(es: Seq<(Seq<u8>, u64)>) -> Seq<u8>
    decreases es.len(),
{
    if es.len() == 0 {
        Seq::empty()
    } else {
        pairs_file(es.drop_last()) + index_record(es.last().0, es.last().1)
    }
}

/// Scanning the records of a data file from `pos` on, after the records
/// `acc`: each record gives its key and its offset. A record cut short, or
/// whose key is longer than an index key may be or is not UTF-8, is
/// `CorruptedDb`.
pub open spec fn scan_records_from(data: Seq<u8>, pos: int, acc: Seq<(Seq<u8>, u64)>) -> Result<
    Seq<(Seq<u8>, u64)>,
    AppError,
>
    decreases data.len() - pos,
{
    if pos >= data.len() {
        Ok(acc)
    } else {
        match spec_read_len(data, pos) {
            ReadStatus::CompleteRead(kl) => match spec_read_len(data, pos + 4) {
                ReadStatus::CompleteRead(vl) => {
                    let ks = pos + 8;
                    if ks + kl + vl > data.len() || kl > MAX_KEY_LEN || !valid_utf8(
                        data.subrange(ks, ks + kl),
                    ) {
                        Err(AppError::CorruptedDb)
                    } else {
                        scan_records_from(
                            data,
                            ks + kl + vl,
                            acc.push((data.subrange(ks, ks + kl), pos as u64)),
                        )
                    }
                },
                _ => Err(AppError::CorruptedDb),
            },
            _ => Err(AppError::CorruptedDb),
        }
    }
}

/// The key and offset of each record of a data file, in order.
pub open spec fn scan_records(data: Seq<u8>) -> Result<Seq<(Seq<u8>, u64)>, AppError> {
    scan_records_from(data, 0, Seq::empty())
}

/// A record appended after records that scan to the end is scanned next.
proof fn lemma_scan_append(
    a: Seq<u8>,
    k: Seq<u8>,
    v: Seq<u8>,
    pos: int,
    acc: Seq<(Seq<u8>, u64)>,
)
    requires
        0 <= pos <= a.len(),
        a.len() <= u64::MAX,
        valid_utf8(k),
        k.len() <= MAX_KEY_LEN,
        v.len() <= u32::MAX,
        scan_records_from(a, pos, acc) is Ok,
    ensures
        scan_records_from(a + data_record(k, v), pos, acc) == Ok::<
            Seq<(Seq<u8>, u64)>,
            AppError,
        >(scan_records_from(a, pos, acc)->Ok_0.push((k, a.len() as u64))),
    decreases a.len() - pos,
{
    lemma_le_roundtrip();
    let r = data_record(k, v);
    let b = a + r;
    assert(le32(k.len()).len() == 4);
    assert(le32(v.len()).len() == 4);
    if pos == a.len() {
        let o = pos;
        assert(b.subrange(o, o + 4) =~= le32(k.len()));
        assert(b.subrange(o + 4, o + 8) =~= le32(v.len()));
        assert(b.subrange(o + 8, o + 8 + k.len()) =~= k);
        assert(b.len() == o + 8 + k.len() + v.len());
        assert(u32_at(b, o) == k.len());
        assert(u32_at(b, o + 4) == v.len());
        assert(scan_records_from(a, pos, acc) == Ok::<Seq<(Seq<u8>, u64)>, AppError>(acc));
        assert(scan_records_from(b, b.len() as int, acc.push((k, a.len() as u64))) == Ok::<
            Seq<(Seq<u8>, u64)>,
            AppError,
        >(acc.push((k, a.len() as u64))));
    } else {
        let kl = u32_at(a, pos);
        let vl = u32_at(a, pos + 4);
        let ks = pos + 8;
        assert(b.subrange(pos, pos + 4) =~= a.subrange(pos, pos + 4));
        assert(b.subrange(pos + 4, pos + 8) =~= a.subrange(pos + 4, pos + 8));
        assert(b.subrange(ks, ks + kl) =~= a.subrange(ks, ks + kl));
        assert(spec_read_len(a, pos) is CompleteRead);
        assert(spec_read_len(a, pos + 4) is CompleteRead);
        assert(ks + kl + vl <= a.len());
        lemma_scan_append(a, k, v, ks + kl + vl, acc.push((a.subrange(ks, ks + kl), pos as u64)));
    }
}

/// Scans the records of a data file and gives the index file that maps
/// each key to its latest record: one index record for each data record,
/// in order. See `scan_records` for the error.
pub fn rebuild_index_file(data: &[u8]) -> (res: Result<Vec<u8>, AppError>)
    ensures
        match scan_records(data@) {
            Ok(es) => res matches Ok(file) && file@ == pairs_file(es),
            Err(e) => res matches Err(e2) && e2 == e,
        },
{
    let len = data.len();
    let mut pos: usize = 0;
    let mut file: Vec<u8> = Vec::new();
    let ghost mut acc: Seq<(Seq<u8>, u64)> = Seq::empty();
    while pos < len
        invariant
            len == data@.len(),
            pos <= len,
            scan_records(data@) == scan_records_from(data@, pos as int, acc),
            file@ == pairs_file(acc),
        decreases len - pos,
    {
        let kl = match rebuild_len(data, pos as u64) {
            ReadStatus::CompleteRead(kl) => kl,
            _ => {
                return Err(AppError::CorruptedDb);
            },
        };
        let vl = match rebuild_len(data, pos as u64 + 4) {
            ReadStatus::CompleteRead(vl) => vl,
            _ => {
                return Err(AppError::CorruptedDb);
            },
        };
        let ks = pos + 8;
        if kl > (len - ks) as u64 || vl > (len - ks) as u64 - kl || kl > MAX_KEY_LEN as u64 {
            return Err(AppError::CorruptedDb);
        }
        let ke = ks + kl as usize;
        let key = slice_subrange(data, ks, ke);
        let key_vec = vstd::slice::slice_to_vec(key);
        if utf8_to_string(key_vec).is_none() {
            return Err(AppError::CorruptedDb);
        }
        let record = encode_index_record(key, pos as u64);
        append_bytes(&mut file, record.as_slice());
        proof {
            let e = (key@, pos as u64);
            let acc2 = acc.push(e);
            assert(acc2.drop_last() =~= acc);
            acc = acc2;
        }
        pos = ke + vl as usize;
    }
    Ok(file)
}

/// Law: an index file made of any records, each with a UTF-8 key no
/// longer than `MAX_KEY_LEN` bytes, loads as the map in which each key has
/// the offset of its latest record; an empty file loads as the empty map.
pub proof fn law_index_file_of_records(es: Seq<(Seq<u8>, u64)>)
    requires
        forall|i: int|
            0 <= i < es.len() ==> valid_utf8(#[trigger] es[i].0) && es[i].0.len() <= MAX_KEY_LEN,
    ensures
        parse_index(pairs_file(es)) == Ok::<Map<Seq<u8>, u64>, AppError>(pairs_map(es)),
    decreases es.len(),
{
    if es.len() > 0 {
        let p = es.drop_last();
        let last = es.last();
        assert forall|i: int|
            0 <= i < p.len() implies valid_utf8(#[trigger] p[i].0) && p[i].0.len() <= MAX_KEY_LEN by {
            assert(p[i] == es[i]);
        }
        law_index_file_of_records(p);
        assert(valid_utf8(es[es.len() - 1].0));
        lemma_parse_index_append(pairs_file(p), index_record(last.0, last.1), 0, Map::empty());
        lemma_parse_index_record(pairs_file(p), last.0, last.1, pairs_map(p));
    }
}

/// Once compaction fails, the later keys change nothing.
proof fn lemma_compact_settles(
    data: Seq<u8>,
    keys: Seq<Seq<u8>>,
    offsets: Map<Seq<u8>, u64>,
    i: nat,
    n: nat,
)
    requires
        i <= n,
        !(compact_prefix(data, keys, offsets, i) is Running),
    ensures
        compact_prefix(data, keys, offsets, n) == compact_prefix(data, keys, offsets, i),
    decreases n,
{
    if n > i {
        lemma_compact_settles(data, keys, offsets, i, (n - 1) as nat);
    }
}

/// Compacts the data file: the live record of each key of the index, in the
/// index's order, is copied to a new data file, and a new index maps each
/// copied key to its new offset. A key whose record is missing (its offset
/// at or past the end of the data file), whose header is cut short, or
/// whose non-empty value runs past the end is `CorruptedDb`; a record with
/// an empty value is copied once its header is whole.
pub fn compact_data(data: &[u8], index: &Index) -> (res: Result<(Vec<u8>, Index), AppError>)
    requires
        index.wf(),
    ensures
        match spec_compact(data@, index.key_order(), index@) {
            Ok((d, es)) => res matches Ok((nd, ni)) && {
                &&& nd@ == d
                &&& ni.wf()
                &&& ni@ == pairs_map(es)
                &&& ni.file_bytes() == pairs_file(es)
                &&& ni.key_order() == es.map_values(|e: (Seq<u8>, u64)| e.0)
            },
            Err(e) => res matches Err(e2) && e2 == e,
        },
{
    proof {
        index.lemma_wf();
    }
    let ghost keys = index.key_order();
    let ghost offsets = index@;
    let len = data.len();
    let n = index.len();
    let mut nd: Vec<u8> = Vec::new();
    let mut ni = Index::new_empty();
    let ghost mut es: Seq<(Seq<u8>, u64)> = Seq::empty();
    let mut i: usize = 0;
    assert(es.map_values(|e: (Seq<u8>, u64)| e.0) =~= keys.subrange(0, 0));
    while i < n
        invariant
            n == keys.len(),
            len == data@.len(),
            i <= n,
            index.wf(),
            keys == index.key_order(),
            offsets == index@,
            keys.no_duplicates(),
            forall|j: int|
                0 <= j < keys.len() ==> valid_utf8(#[trigger] keys[j]) && keys[j].len()
                    <= MAX_KEY_LEN,
            forall|k: Seq<u8>| offsets.contains_key(k) <==> keys.contains(k),
            compact_prefix(data@, keys, offsets, i as nat) == CompactState::Running(nd@, es),
            ni.wf(),
            ni@ == pairs_map(es),
            ni.file_bytes() == pairs_file(es),
            ni.key_order() == es.map_values(|e: (Seq<u8>, u64)| e.0),
            es.map_values(|e: (Seq<u8>, u64)| e.0) == keys.subrange(0, i as int),
        decreases n - i,
    {
        let (key, prev) = index.entry(i);
        let ghost before = compact_prefix(data@, keys, offsets, i as nat);
        assert(compact_prefix(data@, keys, offsets, (i + 1) as nat) == compact_step(
            data@,
            keys[i as int],
            offsets[keys[i as int]],
            before,
        ));
        let key_len = match rebuild_len(data, prev) {
            ReadStatus::Eof | ReadStatus::CorruptTail => {
                proof {
                    lemma_compact_settles(data@, keys, offsets, (i + 1) as nat, n as nat);
                }
                return Err(AppError::CorruptedDb);
            },
            ReadStatus::CompleteRead(kl) => kl,
        };
        assert(prev + 4 <= len);
        let value_len = match rebuild_len(data, prev + 4) {
            ReadStatus::Eof | ReadStatus::CorruptTail => {
                proof {
                    lemma_compact_settles(data@, keys, offsets, (i + 1) as nat, n as nat);
                }
                return Err(AppError::CorruptedDb);
            },
            ReadStatus::CompleteRead(vl) => vl,
        };
        let vs = prev + 8;
        let empty: Vec<u8> = Vec::new();
        let value: &[u8] = if value_len == 0 {
            empty.as_slice()
        } else {
            if key_len > (len as u64) - vs || value_len > (len as u64) - vs - key_len {
                proof {
                    lemma_compact_settles(data@, keys, offsets, (i + 1) as nat, n as nat);
                }
                return Err(AppError::CorruptedDb);
            }
            let vs = (vs + key_len) as usize;
            slice_subrange(data, vs, vs + value_len as usize)
        };
        assert(value@ =~= stored_value(data@, prev as int));
        let new_offset = nd.len() as u64;
        let record = encode_data_record(key, value);
        crate::codec::append_bytes(&mut nd, record.as_slice());
        proof {
            assert(!keys.subrange(0, i as int).contains(keys[i as int])) by {
                if keys.subrange(0, i as int).contains(keys[i as int]) {
                    let j = choose|j: int| 0 <= j < i && keys.subrange(0, i as int)[j] == keys[i as int];
                    assert(keys[j] == keys[i as int]);
                }
            }
            ni.lemma_wf();
        }
        ni.insert_key_bytes(key, new_offset);
        proof {
            let es2 = es.push((key@, new_offset));
            assert(es2.drop_last() =~= es);
            assert(es2.map_values(|e: (Seq<u8>, u64)| e.0) =~= keys.subrange(0, i + 1));
            es = es2;
        }
        i = i + 1;
    }
    assert(keys.subrange(0, n as int) =~= keys);
    Ok((nd, ni))
}

/// The keys of a list of pairs with no key twice, and the offset of each.
proof fn lemma_pairs_map(es: Seq<(Seq<u8>, u64)>)
    requires
        forall|i: int, j: int| 0 <= i < j < es.len() ==> es[i].0 != es[j].0,
    ensures
        forall|k: Seq<u8>|
            pairs_map(es).contains_key(k) <==> exists|i: int| 0 <= i < es.len() && es[i].0 == k,
        forall|i: int| 0 <= i < es.len() ==> #[trigger] pairs_map(es)[es[i].0] == es[i].1,
    decreases es.len(),
{
    if es.len() > 0 {
        let p = es.drop_last();
        lemma_pairs_map(p);
        assert(pairs_map(es) == pairs_map(p).insert(es.last().0, es.last().1));
        assert forall|k: Seq<u8>|
            pairs_map(es).contains_key(k) <==> exists|i: int| 0 <= i < es.len() && es[i].0 == k by {
            if pairs_map(es).contains_key(k) {
                if k != es.last().0 {
                    assert(pairs_map(p).contains_key(k));
                    let i = choose|i: int| 0 <= i < p.len() && p[i].0 == k;
                    assert(es[i] == p[i]);
                } else {
                    assert(es[es.len() - 1].0 == k);
                }
            }
            if exists|i: int| 0 <= i < es.len() && es[i].0 == k {
                let i = choose|i: int| 0 <= i < es.len() && es[i].0 == k;
                if i < es.len() - 1 {
                    assert(p[i] == es[i]);
                }
            }
        }
        assert forall|i: int| 0 <= i < es.len() implies #[trigger] pairs_map(es)[es[i].0]
            == es[i].1 by {
            if i < es.len() - 1 {
                assert(p[i] == es[i]);
                assert(es[i].0 != es[es.len() - 1].0);
            }
        }
    }
}

/// The old record of `key` at `prev` had a whole header and value, and
/// (when the compacted data fits the offsets) the compacted data `d` holds
/// the key with its old value at `pos`.
pub open spec fn copied_intact(data: Seq<u8>, key: Seq<u8>, prev: u64, d: Seq<u8>, pos: u64) -> bool {
    let p = prev as int;
    let kl = u32_at(data, p);
    let vl = u32_at(data, p + 4);
    let vs = p + 8 + kl;
    let r = data_record(key, stored_value(data, p));
    &&& p + 8 <= data.len()
    &&& vl > 0 ==> vs + vl <= data.len()
    &&& d.len() <= u64::MAX ==> pos + r.len() <= d.len() && d.subrange(pos as int, pos + r.len())
        == r
}

/// What compaction of the first `n` keys has done, when it is still
/// running: each of those keys was copied in order, intact.
proof fn lemma_compact_prefix(
    data: Seq<u8>,
    keys: Seq<Seq<u8>>,
    offsets: Map<Seq<u8>, u64>,
    n: nat,
    d: Seq<u8>,
    es: Seq<(Seq<u8>, u64)>,
)
    requires
        n <= keys.len(),
        compact_prefix(data, keys, offsets, n) == CompactState::Running(d, es),
    ensures
        es.len() == n,
        forall|i: int| 0 <= i < n ==> #[trigger] es[i].0 == keys[i],
        forall|i: int|
            #![trigger es[i]]
            0 <= i < n ==> copied_intact(data, keys[i], offsets[keys[i]], d, es[i].1),
    decreases n,
{
    if n > 0 {
        let m = (n - 1) as nat;
        let k = keys[m as int];
        let prev = offsets[k] as int;
        let kl = u32_at(data, prev);
        let vl = u32_at(data, prev + 4);
        let vs = prev + 8 + kl;
        let r = data_record(k, stored_value(data, prev));
        if let CompactState::Running(d0, es0) = compact_prefix(data, keys, offsets, m) {
            lemma_compact_prefix(data, keys, offsets, m, d0, es0);
            assert(spec_read_len(data, prev) is CompleteRead);
            assert(spec_read_len(data, prev + 4) is CompleteRead);
            assert(d == d0 + r);
            assert(es == es0.push((k, d0.len() as u64)));
            assert forall|i: int| 0 <= i < n implies #[trigger] es[i].0 == keys[i] by {
                if i < m {
                    assert(es[i] == es0[i]);
                }
            }
            assert forall|i: int|
                #![trigger es[i]]
                0 <= i < n implies copied_intact(data, keys[i], offsets[keys[i]], d, es[i].1) by {
                if i < m {
                    assert(es[i] == es0[i]);
                    assert(copied_intact(data, keys[i], offsets[keys[i]], d0, es0[i].1));
                    let oi = offsets[keys[i]] as int;
                    let kli = u32_at(data, oi);
                    let vli = u32_at(data, oi + 4);
                    let vsi = oi + 8 + kli;
                    let ri = data_record(keys[i], stored_value(data, oi));
                    if d.len() <= u64::MAX {
                        assert(d.subrange(es[i].1 as int, es[i].1 + ri.len()) =~= d0.subrange(
                            es[i].1 as int,
                            es[i].1 + ri.len(),
                        ));
                    }
                } else {
                    assert(keys[i] == k);
                    assert(es[i] == (k, d0.len() as u64));
                    if d.len() <= u64::MAX {
                        assert(d.subrange(d0.len() as int, d0.len() + r.len() as int) =~= r);
                    }
                }
            }
        } else {
            assert(compact_prefix(data, keys, offsets, n) == compact_prefix(data, keys, offsets, m));
        }
    }
}

/// The data that compaction of the first `n` keys has written scans back
/// as exactly the copied keys with their new offsets.
pub proof fn lemma_compact_scans(
    data: Seq<u8>,
    keys: Seq<Seq<u8>>,
    offsets: Map<Seq<u8>, u64>,
    n: nat,
    d: Seq<u8>,
    es: Seq<(Seq<u8>, u64)>,
)
    requires
        n <= keys.len(),
        forall|i: int|
            0 <= i < keys.len() ==> valid_utf8(#[trigger] keys[i]) && keys[i].len() <= MAX_KEY_LEN,
        compact_prefix(data, keys, offsets, n) == CompactState::Running(d, es),
        d.len() <= u64::MAX,
    ensures
        scan_records(d) == Ok::<Seq<(Seq<u8>, u64)>, AppError>(es),
    decreases n,
{
    if n > 0 {
        let m = (n - 1) as nat;
        let k = keys[m as int];
        let prev = offsets[k] as int;
        let kl = u32_at(data, prev);
        let vl = u32_at(data, prev + 4);
        let vs = prev + 8 + kl;
        let v = stored_value(data, prev);
        if let CompactState::Running(d0, es0) = compact_prefix(data, keys, offsets, m) {
            assert(spec_read_len(data, prev) is CompleteRead);
            assert(spec_read_len(data, prev + 4) is CompleteRead);
            assert(d == d0 + data_record(k, v));
            lemma_compact_scans(data, keys, offsets, m, d0, es0);
            lemma_scan_append(d0, k, v, 0, Seq::empty());
        } else {
            assert(compact_prefix(data, keys, offsets, n) == compact_prefix(data, keys, offsets, m));
        }
    }
}

/// Compaction of the first `n` keys runs on while each of their offsets
/// holds a whole record.
proof fn lemma_compact_runs(data: Seq<u8>, keys: Seq<Seq<u8>>, offsets: Map<Seq<u8>, u64>, n: nat)
    requires
        n <= keys.len(),
        forall|i: int|
            0 <= i < keys.len() ==> record_whole_at(data, #[trigger] offsets[keys[i]] as int),
    ensures
        compact_prefix(data, keys, offsets, n) is Running,
    decreases n,
{
    if n > 0 {
        lemma_compact_runs(data, keys, offsets, (n - 1) as nat);
        assert(record_whole_at(data, offsets[keys[n - 1]] as int));
    }
}

/// Law: compaction succeeds whenever the offset of every key holds a whole
/// record (its header, key and value inside the data file), whatever the
/// offsets, the lengths of keys and values, or the size of the file.
pub proof fn law_compaction_succeeds(data: Seq<u8>, keys: Seq<Seq<u8>>, offsets: Map<Seq<u8>, u64>)
    requires
        forall|i: int|
            0 <= i < keys.len() ==> record_whole_at(data, #[trigger] offsets[keys[i]] as int),
    ensures
        spec_compact(data, keys, offsets) is Ok,
{
    lemma_compact_runs(data, keys, offsets, keys.len());
}

/// Law: an engine whose every indexed offset holds a whole record compacts
/// without error: `StorageEngine::compact` returns `Ok` on it.
pub proof fn law_engine_compaction_succeeds(engine: &StorageEngine)
    requires
        engine.wf(),
        forall|k: Seq<u8>|
            #[trigger] engine.index_map().contains_key(k) ==> record_whole_at(
                engine.data_bytes(),
                engine.index_map()[k] as int,
            ),
    ensures
        spec_compact(engine.data_bytes(), engine.key_order(), engine.index_map()) is Ok,
{
    engine.lemma_key_order();
    let keys = engine.key_order();
    assert forall|i: int| 0 <= i < keys.len() implies record_whole_at(
        engine.data_bytes(),
        #[trigger] engine.index_map()[keys[i]] as int,
    ) by {
        assert(keys.contains(keys[i]));
        assert(engine.index_map().contains_key(keys[i]));
    }
    law_compaction_succeeds(engine.data_bytes(), keys, engine.index_map());
}

/// Law: compaction keeps what reading gives and leaves no dead records.
/// When compaction succeeds, the new index holds exactly the old keys, each
/// key whose value was read before reads the same value from the compacted
/// data, and scanning the compacted data finds one record for each key, in
/// order, at the offset that the new index gives it, and nothing else.
pub proof fn law_compact_preserves_values(
    data: Seq<u8>,
    keys: Seq<Seq<u8>>,
    offsets: Map<Seq<u8>, u64>,
    key: Seq<char>,
)
    requires
        keys.no_duplicates(),
        forall|k: Seq<u8>| offsets.contains_key(k) <==> keys.contains(k),
        forall|i: int|
            0 <= i < keys.len() ==> valid_utf8(#[trigger] keys[i]) && keys[i].len() <= MAX_KEY_LEN,
        spec_compact(data, keys, offsets) is Ok,
        spec_compact(data, keys, offsets)->Ok_0.0.len() <= u64::MAX,
    ensures
        ({
            let (d, es) = spec_compact(data, keys, offsets)->Ok_0;
            &&& scan_records(d) == Ok::<Seq<(Seq<u8>, u64)>, AppError>(es)
            &&& es.map_values(|e: (Seq<u8>, u64)| e.0) == keys
            &&& pairs_map(es).dom() == offsets.dom()
            &&& spec_get(data, offsets, key) matches Ok(Some(v)) ==> spec_get(d, pairs_map(es), key)
                == Ok::<Option<Seq<char>>, AppError>(Some(v))
        }),
{
    broadcast use vstd::utf8::group_utf8_lib;

    let n = keys.len();
    let (d, es) = spec_compact(data, keys, offsets)->Ok_0;
    lemma_compact_prefix(data, keys, offsets, n, d, es);
    lemma_compact_scans(data, keys, offsets, n, d, es);
    assert(es.map_values(|e: (Seq<u8>, u64)| e.0) =~= keys);
    assert(forall|i: int, j: int| 0 <= i < j < es.len() ==> es[i].0 != es[j].0) by {
        assert forall|i: int, j: int| 0 <= i < j < es.len() implies es[i].0 != es[j].0 by {
            assert(es[i].0 == keys[i] && es[j].0 == keys[j]);
        }
    }
    lemma_pairs_map(es);
    assert(pairs_map(es).dom() =~= offsets.dom()) by {
        assert forall|k: Seq<u8>| pairs_map(es).contains_key(k) <==> offsets.contains_key(k) by {
            if pairs_map(es).contains_key(k) {
                let i = choose|i: int| 0 <= i < es.len() && es[i].0 == k;
                assert(keys[i] == k);
                assert(keys.contains(k));
            }
            if offsets.contains_key(k) {
                assert(keys.contains(k));
                let i = choose|i: int| 0 <= i < keys.len() && keys[i] == k;
                assert(es[i].0 == k);
            }
        }
    }
    let kb = encode_utf8(key);
    if spec_get(data, offsets, key) matches Ok(Some(v)) {
        assert(keys.contains(kb));
        let j = choose|j: int| 0 <= j < keys.len() && keys[j] == kb;
        assert(es[j].0 == kb);
        let prev = offsets[kb] as int;
        let kl = u32_at(data, prev);
        let vl = u32_at(data, prev + 4);
        let vs = prev + 8 + kl;
        let vb = data.subrange(vs, vs + vl);
        assert(stored_value(data, prev) =~= vb);
        let r = data_record(kb, vb);
        let p = es[j].1 as int;
        assert(copied_intact(data, keys[j], offsets[keys[j]], d, es[j].1));
        assert(pairs_map(es)[kb] == es[j].1);
        assert(d.subrange(p, p + r.len()) == r);
        assert(d =~= d.subrange(0, p) + r + d.subrange(p + r.len(), d.len() as int));
        lemma_read_appended_record(d.subrange(0, p), kb, vb);
        lemma_read_record_extend(
            d.subrange(0, p) + r,
            d.subrange(p + r.len(), d.len() as int),
            p,
            kb,
        );
        assert((d.subrange(0, p) + r).len() == p + r.len());
    }
}

} // verus!
