use crate::codec::{
    bytes_eq, index_record, le32, le64, lemma_le_roundtrip, rebuild_len, spec_read_len, u32_at,
    u64_at, utf8_to_string, ReadStatus,
};
use crate::error::AppError;
use crate::index::{parse_index_from, MAX_KEY_LEN};
use vstd::bytes::spec_u64_from_le_bytes;
use vstd::prelude::*;
use vstd::slice::{slice_subrange, slice_to_vec};
use vstd::utf8::valid_utf8;

verus! {

/// The index record that starts at `pos` is whole: its key length, a UTF-8
/// key of that length and its offset all lie in the file. Recovery reads
/// records this way, with no limit on the key's length.
pub open spec fn whole_record_at(bytes: Seq<u8>, pos: int) -> bool {
    match spec_read_len(bytes, pos) {
        ReadStatus::CompleteRead(kl) => pos + 4 + kl + 8 <= bytes.len() && valid_utf8(
            bytes.subrange(pos + 4, pos + 4 + kl),
        ),
        _ => false,
    }
}

/// The key of the index record at `pos`.
pub open spec fn record_key(bytes: Seq<u8>, pos: int) -> Seq<u8> {
    bytes.subrange(pos + 4, pos + 4 + u32_at(bytes, pos))
}

/// The offset of the index record at `pos`.
pub open spec fn record_offset(bytes: Seq<u8>, pos: int) -> u64 {
    u64_at(bytes, pos + 4 + u32_at(bytes, pos))
}

/// Where the index record at `pos` ends.
pub open spec fn record_end(bytes: Seq<u8>, pos: int) -> int {
    pos + 4 + u32_at(bytes, pos) + 8
}

/// The end of the longest prefix of whole records of an index file from
/// `pos` on, and the map that the prefix gives, starting from `acc`, a
/// later record for a key replacing an earlier one.
pub open spec fn index_prefix_from(bytes: Seq<u8>, pos: int, acc: Map<Seq<u8>, u64>) -> (
    int,
    Map<Seq<u8>, u64>,
)
    decreases bytes.len() - pos,
{
    if whole_record_at(bytes, pos) {
        index_prefix_from(
            bytes,
            record_end(bytes, pos),
            acc.insert(record_key(bytes, pos), record_offset(bytes, pos)),
        )
    } else {
        (pos, acc)
    }
}

/// The end of the longest prefix of whole records of an index file, and
/// the map that it gives.
pub open spec fn index_prefix(bytes: Seq<u8>) -> (int, Map<Seq<u8>, u64>) {
    index_prefix_from(bytes, 0, Map::empty())
}

/// Where the latest record of `key` in the prefix of whole records from
/// `pos` on starts; `acc` if there is none.
pub open spec fn latest_record_from(bytes: Seq<u8>, pos: int, key: Seq<u8>, acc: Option<int>) -> Option<
    int,
>
    decreases bytes.len() - pos,
{
    if whole_record_at(bytes, pos) {
        latest_record_from(
            bytes,
            record_end(bytes, pos),
            key,
            if record_key(bytes, pos) == key {
                Some(pos)
            } else {
                acc
            },
        )
    } else {
        acc
    }
}

/// Where the latest record of `key` in the prefix of whole records of an
/// index file starts, if there is one.
pub open spec fn latest_record(bytes: Seq<u8>, key: Seq<u8>) -> Option<int> {
    latest_record_from(bytes, 0, key, None)
}

/// `bytes` with `v` written over it at `at`.
pub open spec fn rewrite_bytes(bytes: Seq<u8>, at: int, v: Seq<u8>) -> Seq<u8> {
    bytes.subrange(0, at) + v + bytes.subrange(at + v.len(), bytes.len() as int)
}

/// The prefix ends between `pos` and the end of the file, and keeps every
/// key it started with.
pub proof fn lemma_prefix_bounds(b: Seq<u8>, pos: int, acc: Map<Seq<u8>, u64>)
    requires
        0 <= pos <= b.len(),
    ensures
        pos <= index_prefix_from(b, pos, acc).0 <= b.len(),
        forall|x: Seq<u8>|
            #![trigger index_prefix_from(b, pos, acc).1.contains_key(x)]
            acc.contains_key(x) ==> index_prefix_from(b, pos, acc).1.contains_key(x),
    decreases b.len() - pos,
{
    if whole_record_at(b, pos) {
        let next = record_end(b, pos);
        let acc2 = acc.insert(record_key(b, pos), record_offset(b, pos));
        lemma_prefix_bounds(b, next, acc2);
        assert forall|x: Seq<u8>|
            #![trigger index_prefix_from(b, pos, acc).1.contains_key(x)]
            acc.contains_key(x) implies index_prefix_from(b, pos, acc).1.contains_key(x) by {
            assert(acc2.contains_key(x));
            assert(index_prefix_from(b, next, acc2).1.contains_key(x));
        }
    }
}

/// A file that loads whole is its own prefix of whole records.
pub proof fn lemma_prefix_whole(b: Seq<u8>, pos: int, acc: Map<Seq<u8>, u64>)
    requires
        0 <= pos <= b.len(),
        parse_index_from(b, pos, acc) is Ok,
    ensures
        index_prefix_from(b, pos, acc) == (b.len() as int, parse_index_from(b, pos, acc)->Ok_0),
    decreases b.len() - pos,
{
    if pos < b.len() {
        assert(whole_record_at(b, pos));
        lemma_prefix_whole(b, record_end(b, pos), acc.insert(record_key(b, pos), record_offset(b, pos)));
    }
}

/// A file that is its own prefix of whole records, with no key over the
/// limit, loads as the map of that prefix.
pub proof fn lemma_prefix_loads(b: Seq<u8>, pos: int, acc: Map<Seq<u8>, u64>)
    requires
        0 <= pos <= b.len(),
        index_prefix_from(b, pos, acc).0 == b.len(),
        forall|x: Seq<u8>|
            #![trigger index_prefix_from(b, pos, acc).1.contains_key(x)]
            index_prefix_from(b, pos, acc).1.contains_key(x) ==> x.len() <= MAX_KEY_LEN,
    ensures
        parse_index_from(b, pos, acc) == Ok::<Map<Seq<u8>, u64>, AppError>(
            index_prefix_from(b, pos, acc).1,
        ),
    decreases b.len() - pos,
{
    if whole_record_at(b, pos) {
        let k = record_key(b, pos);
        let acc2 = acc.insert(k, record_offset(b, pos));
        lemma_prefix_bounds(b, record_end(b, pos), acc2);
        assert(index_prefix_from(b, pos, acc).1.contains_key(k));
        lemma_prefix_loads(b, record_end(b, pos), acc2);
    }
}

/// Cutting a file at the end of its prefix of whole records changes
/// neither the prefix nor where each key's latest record is.
pub proof fn lemma_prefix_cut(b: Seq<u8>, pos: int, acc: Map<Seq<u8>, u64>, k: Seq<u8>, l: Option<int>)
    requires
        0 <= pos <= b.len(),
    ensures
        index_prefix_from(b.subrange(0, index_prefix_from(b, pos, acc).0), pos, acc)
            == index_prefix_from(b, pos, acc),
        latest_record_from(b.subrange(0, index_prefix_from(b, pos, acc).0), pos, k, l)
            == latest_record_from(b, pos, k, l),
    decreases b.len() - pos,
{
    let t = index_prefix_from(b, pos, acc).0;
    lemma_prefix_bounds(b, pos, acc);
    let c = b.subrange(0, t);
    if whole_record_at(b, pos) {
        let kl = u32_at(b, pos);
        let next = record_end(b, pos);
        lemma_prefix_bounds(b, next, acc.insert(record_key(b, pos), record_offset(b, pos)));
        assert(c.subrange(pos, pos + 4) =~= b.subrange(pos, pos + 4));
        assert(c.subrange(pos + 4, pos + 4 + kl) =~= b.subrange(pos + 4, pos + 4 + kl));
        assert(c.subrange(pos + 4 + kl, next) =~= b.subrange(pos + 4 + kl, next));
        assert(whole_record_at(c, pos));
        lemma_prefix_cut(
            b,
            next,
            acc.insert(record_key(b, pos), record_offset(b, pos)),
            k,
            if record_key(b, pos) == k {
                Some(pos)
            } else {
                l
            },
        );
    } else {
        assert(spec_read_len(c, pos) is Eof);
    }
}

/// The prefix of whole records of a file that continues a file read whole
/// goes on from the end of that file.
pub proof fn lemma_prefix_append(
    a: Seq<u8>,
    c: Seq<u8>,
    pos: int,
    acc: Map<Seq<u8>, u64>,
    k: Seq<u8>,
    l: Option<int>,
)
    requires
        0 <= pos <= a.len(),
        index_prefix_from(a, pos, acc).0 == a.len(),
    ensures
        index_prefix_from(a + c, pos, acc) == index_prefix_from(
            a + c,
            a.len() as int,
            index_prefix_from(a, pos, acc).1,
        ),
        latest_record_from(a + c, pos, k, l) == latest_record_from(
            a + c,
            a.len() as int,
            k,
            latest_record_from(a, pos, k, l),
        ),
    decreases a.len() - pos,
{
    let ac = a + c;
    if pos < a.len() {
        assert(whole_record_at(a, pos));
        let kl = u32_at(a, pos);
        let next = record_end(a, pos);
        assert(ac.subrange(pos, pos + 4) =~= a.subrange(pos, pos + 4));
        assert(ac.subrange(pos + 4, pos + 4 + kl) =~= a.subrange(pos + 4, pos + 4 + kl));
        assert(ac.subrange(pos + 4 + kl, next) =~= a.subrange(pos + 4 + kl, next));
        lemma_prefix_append(
            a,
            c,
            next,
            acc.insert(record_key(a, pos), record_offset(a, pos)),
            k,
            if record_key(a, pos) == k {
                Some(pos)
            } else {
                l
            },
        );
    }
}

/// After a file read whole, a record cut short ends the prefix, and a
/// whole record extends it and is the latest of its key.
pub proof fn lemma_prefix_torn(
    a: Seq<u8>,
    k: Seq<u8>,
    off: u64,
    w: int,
    acc: Map<Seq<u8>, u64>,
    k2: Seq<u8>,
    l: Option<int>,
)
    requires
        valid_utf8(k),
        k.len() <= u32::MAX,
        0 <= w <= index_record(k, off).len(),
    ensures
        index_prefix_from(a + index_record(k, off).subrange(0, w), a.len() as int, acc) == if w
            == index_record(k, off).len() {
            ((a.len() + index_record(k, off).len()) as int, acc.insert(k, off))
        } else {
            (a.len() as int, acc)
        },
        latest_record_from(a + index_record(k, off).subrange(0, w), a.len() as int, k2, l) == if w
            == index_record(k, off).len() && k2 == k {
            Some(a.len() as int)
        } else {
            l
        },
{
    lemma_le_roundtrip();
    let r = index_record(k, off);
    let b = a + r.subrange(0, w);
    let p = a.len() as int;
    let kl = k.len() as int;
    assert(le32(k.len()).len() == 4);
    assert(le64(off).len() == 8);
    assert(b.len() == p + w);
    if w >= 4 {
        assert(b.subrange(p, p + 4) =~= le32(k.len()));
        assert(u32_at(b, p) == kl);
    }
    if w >= 4 + kl {
        assert(b.subrange(p + 4, p + 4 + kl) =~= k);
    }
    if w == r.len() {
        assert(b.subrange(p + 4 + kl, p + 4 + kl + 8) =~= le64(off));
        assert(whole_record_at(b, p));
        assert(record_key(b, p) == k);
        assert(record_offset(b, p) == off);
        assert(record_end(b, p) == b.len());
        assert(!whole_record_at(b, p + 4 + kl + 8));
        assert(index_prefix_from(b, b.len() as int, acc.insert(k, off)) == (
            b.len() as int,
            acc.insert(k, off),
        ));
        assert(latest_record_from(b, b.len() as int, k2, if k == k2 {
            Some(p)
        } else {
            l
        }) == if k == k2 {
            Some(p)
        } else {
            l
        });
    } else {
        assert(!whole_record_at(b, p));
    }
}

/// The latest record of a key, when there is one, is a whole record of
/// that key within the prefix, and its offset is the one the prefix maps
/// the key to.
pub proof fn lemma_latest_map(b: Seq<u8>, pos: int, acc: Map<Seq<u8>, u64>, k: Seq<u8>, l: Option<int>)
    requires
        0 <= pos <= b.len(),
        acc.contains_key(k) <==> l is Some,
        l matches Some(s) ==> 0 <= s && record_end(b, s) <= pos && whole_record_at(b, s)
            && record_key(b, s) == k && acc[k] == record_offset(b, s),
    ensures
        index_prefix_from(b, pos, acc).1.contains_key(k) <==> latest_record_from(b, pos, k, l) is Some,
        latest_record_from(b, pos, k, l) matches Some(s) ==> 0 <= s && record_end(b, s)
            <= index_prefix_from(b, pos, acc).0 && whole_record_at(b, s) && record_key(b, s) == k
            && index_prefix_from(b, pos, acc).1[k] == record_offset(b, s),
    decreases b.len() - pos,
{
    if whole_record_at(b, pos) {
        lemma_latest_map(
            b,
            record_end(b, pos),
            acc.insert(record_key(b, pos), record_offset(b, pos)),
            k,
            if record_key(b, pos) == k {
                Some(pos)
            } else {
                l
            },
        );
    }
}

/// The latest record of a key from `pos` on is the one found after `pos`
/// if there is one, else the one given; one found lies at or after `pos`.
pub proof fn lemma_latest_split(b: Seq<u8>, pos: int, k: Seq<u8>, l: Option<int>)
    requires
        0 <= pos,
    ensures
        latest_record_from(b, pos, k, l) == match latest_record_from(b, pos, k, None) {
            Some(x) => Some(x),
            None => l,
        },
        latest_record_from(b, pos, k, None) matches Some(x) ==> pos <= x,
    decreases b.len() - pos,
{
    if whole_record_at(b, pos) {
        let next = record_end(b, pos);
        lemma_latest_split(b, next, k, l);
        lemma_latest_split(b, next, k, None);
        lemma_latest_split(b, next, k, Some(pos));
    }
}

/// With no record of `k` from `pos` on, what the accumulated map holds for
/// `k` is what the prefix maps it to.
pub proof fn lemma_no_key_later(b: Seq<u8>, pos: int, acc: Map<Seq<u8>, u64>, k: Seq<u8>, x: u64)
    requires
        0 <= pos,
        latest_record_from(b, pos, k, None) is None,
    ensures
        index_prefix_from(b, pos, acc.insert(k, x)) == (
            index_prefix_from(b, pos, acc).0,
            index_prefix_from(b, pos, acc).1.insert(k, x),
        ),
    decreases b.len() - pos,
{
    if whole_record_at(b, pos) {
        let next = record_end(b, pos);
        let kk = record_key(b, pos);
        let o = record_offset(b, pos);
        lemma_latest_split(b, next, k, Some(pos));
        assert(kk != k);
        lemma_latest_split(b, next, k, None);
        assert(acc.insert(k, x).insert(kk, o) =~= acc.insert(kk, o).insert(k, x));
        lemma_no_key_later(b, next, acc.insert(kk, o), k, x);
    }
}

/// Two files of the same length that agree from `pos` on have the same
/// prefix of whole records from `pos` on.
pub proof fn lemma_prefix_frame(
    b1: Seq<u8>,
    b2: Seq<u8>,
    pos: int,
    acc: Map<Seq<u8>, u64>,
    k: Seq<u8>,
    l: Option<int>,
)
    requires
        0 <= pos,
        b1.len() == b2.len(),
        forall|i: int| pos <= i < b1.len() ==> b1[i] == b2[i],
    ensures
        index_prefix_from(b1, pos, acc) == index_prefix_from(b2, pos, acc),
        latest_record_from(b1, pos, k, l) == latest_record_from(b2, pos, k, l),
    decreases b1.len() - pos,
{
    if pos + 4 <= b1.len() {
        assert(b1.subrange(pos, pos + 4) =~= b2.subrange(pos, pos + 4));
        let kl = u32_at(b1, pos);
        if pos + 4 + kl + 8 <= b1.len() {
            assert(b1.subrange(pos + 4, pos + 4 + kl) =~= b2.subrange(pos + 4, pos + 4 + kl));
            assert(b1.subrange(pos + 4 + kl, pos + 4 + kl + 8) =~= b2.subrange(
                pos + 4 + kl,
                pos + 4 + kl + 8,
            ));
        }
    }
    assert(whole_record_at(b1, pos) == whole_record_at(b2, pos));
    if whole_record_at(b1, pos) {
        lemma_prefix_frame(
            b1,
            b2,
            record_end(b1, pos),
            acc.insert(record_key(b1, pos), record_offset(b1, pos)),
            k,
            if record_key(b1, pos) == k {
                Some(pos)
            } else {
                l
            },
        );
    }
}

/// Writing eight bytes over the offset of a key's latest record keeps the
/// prefix of whole records, maps the key to the offset those bytes hold,
/// and keeps that record the key's latest.
pub proof fn lemma_prefix_rewrite(
    b: Seq<u8>,
    k: Seq<u8>,
    s: int,
    v: Seq<u8>,
    pos: int,
    acc: Map<Seq<u8>, u64>,
    l: Option<int>,
)
    requires
        0 <= pos <= s,
        v.len() == 8,
        whole_record_at(b, s),
        record_key(b, s) == k,
        latest_record_from(b, pos, k, l) == Some(s),
        l matches Some(x) ==> x < pos,
    ensures
        index_prefix_from(rewrite_bytes(b, s + 4 + k.len(), v), pos, acc) == (
            index_prefix_from(b, pos, acc).0,
            index_prefix_from(b, pos, acc).1.insert(k, spec_u64_from_le_bytes(v)),
        ),
        latest_record_from(rewrite_bytes(b, s + 4 + k.len(), v), pos, k, l) == Some(s),
    decreases s - pos,
{
    let at = s + 4 + k.len();
    let b2 = rewrite_bytes(b, at, v);
    assert(b2.len() == b.len());
    assert(whole_record_at(b, pos)) by {
        if !whole_record_at(b, pos) {
            assert(latest_record_from(b, pos, k, l) == l);
        }
    }
    let kl = u32_at(b, pos);
    let kk = record_key(b, pos);
    let o = record_offset(b, pos);
    let next = record_end(b, pos);
    let l2 = if kk == k {
        Some(pos)
    } else {
        l
    };
    lemma_latest_split(b, next, k, l2);
    assert(b2.subrange(pos, pos + 4) =~= b.subrange(pos, pos + 4));
    assert(b2.subrange(pos + 4, pos + 4 + kl) =~= b.subrange(pos + 4, pos + 4 + kl));
    assert(whole_record_at(b2, pos));
    assert(u32_at(b, s) == k.len());
    assert(at + 8 <= b.len());
    if pos == s {
        assert forall|i: int| next <= i < b.len() implies b2[i] == b[i] by {}
        assert(latest_record_from(b, next, k, None) is None);
        assert(b2.subrange(at, at + 8) =~= v);
        let u = spec_u64_from_le_bytes(v);
        assert(record_offset(b2, pos) == u);
        lemma_prefix_frame(b2, b, next, acc.insert(k, u), k, Some(pos));
        lemma_no_key_later(b, next, acc, k, u);
        lemma_no_key_later(b, next, acc, k, o);
        assert(index_prefix_from(b, next, acc).1.insert(k, o).insert(k, u) =~= index_prefix_from(
            b,
            next,
            acc,
        ).1.insert(k, u));
    } else {
        assert(next <= s);
        assert(b2.subrange(pos + 4 + kl, next) =~= b.subrange(pos + 4 + kl, next));
        assert(record_offset(b2, pos) == o);
        lemma_prefix_rewrite(b, k, s, v, next, acc.insert(kk, o), l2);
    }
}

/// Scans an index file as recovery reads it: returns where its prefix of
/// whole records ends and where the latest record of `key` in it starts,
/// if there is one.
pub fn find_latest_record(bytes: &[u8], key: &[u8]) -> (res: (usize, Option<usize>))
    ensures
        res.0 == index_prefix(bytes@).0,
        latest_record(bytes@, key@) == match res.1 {
            Some(s) => Some(s as int),
            None => None::<int>,
        },
{
    let len = bytes.len();
    let mut pos: usize = 0;
    let mut cur: Option<usize> = None;
    let ghost mut acc: Map<Seq<u8>, u64> = Map::empty();
    loop
        invariant
            len == bytes@.len(),
            pos <= len,
            index_prefix(bytes@) == index_prefix_from(bytes@, pos as int, acc),
            latest_record(bytes@, key@) == latest_record_from(
                bytes@,
                pos as int,
                key@,
                match cur {
                    Some(s) => Some(s as int),
                    None => None::<int>,
                },
            ),
        decreases len - pos,
    {
        let kl = match rebuild_len(bytes, pos as u64) {
            ReadStatus::CompleteRead(kl) => kl,
            _ => {
                return (pos, cur);
            },
        };
        let ks = pos + 4;
        if kl > (len - ks) as u64 || (len - ks - kl as usize) < 8 {
            return (pos, cur);
        }
        let ke = ks + kl as usize;
        let k = slice_subrange(bytes, ks, ke);
        if utf8_to_string(slice_to_vec(k)).is_none() {
            return (pos, cur);
        }
        proof {
            assert(whole_record_at(bytes@, pos as int));
            acc = acc.insert(record_key(bytes@, pos as int), record_offset(bytes@, pos as int));
        }
        if bytes_eq(k, key) {
            cur = Some(pos);
        }
        pos = ke + 8;
    }
}

} // verus!
