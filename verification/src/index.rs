use crate::codec::{
    append_bytes, bytes_eq, encode_index_record, index_record, le32, le64, lemma_le_roundtrip,
    read_u64_at, rebuild_len, spec_read_len, u32_at, u64_at, utf8_to_string, ReadStatus,
};
use crate::error::AppError;
use vstd::prelude::*;
use vstd::slice::{slice_subrange, slice_to_vec};
use vstd::utf8::valid_utf8;

verus! {

/// The longest key, in bytes, that the index accepts.
pub const MAX_KEY_LEN: u64 = 256;

/// Parsing the index file from `pos` on, starting from the map `acc`: each
/// record maps its key to its offset, a later record for a key replacing an
/// earlier one.
pub open spec fn parse_index_from(
    bytes: Seq<u8>,
    pos: int,
    acc: Map<Seq<u8>, u64>,
) -> Result<Map<Seq<u8>, u64>, AppError>
    decreases bytes.len() - pos,
{
    match spec_read_len(bytes, pos) {
        ReadStatus::Eof => Ok(acc),
        ReadStatus::CorruptTail => Err(AppError::CorruptedIndex),
        ReadStatus::CompleteRead(kl) => {
            let ks = pos + 4;
            if kl > MAX_KEY_LEN {
                Err(AppError::CorruptedIndex)
            } else if ks + kl > bytes.len() {
                Err(AppError::CorruptedIndex)
            } else if !valid_utf8(bytes.subrange(ks, ks + kl)) {
                Err(AppError::ConvertUtf8ToString)
            } else if ks + kl + 8 > bytes.len() {
                Err(AppError::CorruptedIndex)
            } else {
                parse_index_from(
                    bytes,
                    ks + kl + 8,
                    acc.insert(bytes.subrange(ks, ks + kl), u64_at(bytes, ks + kl)),
                )
            }
        },
    }
}

/// What loading an index file gives: the map from each key to the offset of
/// its latest record, or the error that stops the load.
pub open spec fn parse_index(bytes: Seq<u8>) -> Result<Map<Seq<u8>, u64>, AppError> {
    parse_index_from(bytes, 0, Map::empty())
}

/// The keys of the index file from `pos` on, added to `acc` in the order
/// in which each first occurs (the same checks as `parse_index_from`).
pub open spec fn parse_order_from(bytes: Seq<u8>, pos: int, acc: Seq<Seq<u8>>) -> Seq<Seq<u8>>
    decreases bytes.len() - pos,
{
    match spec_read_len(bytes, pos) {
        ReadStatus::CompleteRead(kl) => {
            let ks = pos + 4;
            if kl > MAX_KEY_LEN || ks + kl > bytes.len() || !valid_utf8(bytes.subrange(ks, ks + kl))
                || ks + kl + 8 > bytes.len() {
                acc
            } else {
                let k = bytes.subrange(ks, ks + kl);
                parse_order_from(
                    bytes,
                    ks + kl + 8,
                    if acc.contains(k) {
                        acc
                    } else {
                        acc.push(k)
                    },
                )
            }
        },
        _ => acc,
    }
}

/// The keys of an index file in the order in which each first occurs.
pub open spec fn parse_index_order(bytes: Seq<u8>) -> Seq<Seq<u8>> {
    parse_order_from(bytes, 0, Seq::empty())
}

/// The keys of a list of entries, in order.
pub open spec fn entry_keys(s: Seq<(Vec<u8>, u64)>) -> Seq<Seq<u8>> {
    s.map_values(|e: (Vec<u8>, u64)| e.0@)
}

/// The map that a list of entries holds.
pub open spec fn entries_map(s: Seq<(Vec<u8>, u64)>) -> Map<Seq<u8>, u64>
    decreases s.len(),
{
    if s.len() == 0 {
        Map::empty()
    } else {
        entries_map(s.drop_last()).insert(s.last().0@, s.last().1)
    }
}

/// Every key of a list of entries is UTF-8 and no longer than the limit.
pub open spec fn keys_ok(s: Seq<(Vec<u8>, u64)>) -> bool {
    forall|i: int| 0 <= i < s.len() ==> valid_utf8(#[trigger] s[i].0@) && s[i].0@.len() <= MAX_KEY_LEN
}

/// No key occurs twice in a list of entries.
pub open spec fn keys_distinct(s: Seq<(Vec<u8>, u64)>) -> bool {
    forall|i: int, j: int| 0 <= i < j < s.len() ==> s[i].0@ != s[j].0@
}

/// The keys of a list of entries with no key twice, and the offset of each.
pub proof fn lemma_entries_map(s: Seq<(Vec<u8>, u64)>)
    requires
        keys_distinct(s),
    ensures
        forall|k: Seq<u8>|
            entries_map(s).contains_key(k) <==> exists|i: int| 0 <= i < s.len() && s[i].0@ == k,
        forall|i: int| 0 <= i < s.len() ==> #[trigger] entries_map(s)[s[i].0@] == s[i].1,
        entries_map(s).dom().finite(),
    decreases s.len(),
{
    if s.len() > 0 {
        let p = s.drop_last();
        assert(keys_distinct(p));
        lemma_entries_map(p);
        assert forall|k: Seq<u8>|
            entries_map(s).contains_key(k) <==> exists|i: int| 0 <= i < s.len() && s[i].0@ == k by {
            if entries_map(s).contains_key(k) {
                if k != s.last().0@ {
                    let i = choose|i: int| 0 <= i < p.len() && p[i].0@ == k;
                    assert(s[i] == p[i]);
                } else {
                    assert(s[s.len() - 1].0@ == k);
                }
            }
            if exists|i: int| 0 <= i < s.len() && s[i].0@ == k {
                let i = choose|i: int| 0 <= i < s.len() && s[i].0@ == k;
                if i < s.len() - 1 {
                    assert(p[i] == s[i]);
                }
            }
        }
        assert forall|i: int| 0 <= i < s.len() implies #[trigger] entries_map(s)[s[i].0@]
            == s[i].1 by {
            if i < s.len() - 1 {
                assert(p[i] == s[i]);
                assert(s[i].0@ != s[s.len() - 1].0@);
            }
        }
    }
}

/// The in-memory index: the latest data-file offset of each key, beside an
/// image of the index file that it was loaded from and written to.
#[derive(Debug)]
pub struct Index {
    file: Vec<u8>,
    entries: Vec<(Vec<u8>, u64)>,
}

impl View for Index {
    type V = Map<Seq<u8>, u64>;

    closed spec fn view(&self) -> Map<Seq<u8>, u64> {
        entries_map(self.entries@)
    }
}

impl Index {
    /// The contents of the index file that the index stands for.
    pub closed spec fn file_bytes(&self) -> Seq<u8> {
        self.file@
    }

    /// The keys of the index in the order in which they are kept.
    pub closed spec fn key_order(&self) -> Seq<Seq<u8>> {
        entry_keys(self.entries@)
    }

    /// The index file parses to the in-memory map, and no key is kept twice.
    pub closed spec fn wf(&self) -> bool {
        &&& keys_distinct(self.entries@)
        &&& keys_ok(self.entries@)
        &&& parse_index(self.file@) == Ok::<Map<Seq<u8>, u64>, AppError>(self@)
        &&& parse_index_order(self.file@) == self.key_order()
    }

    /// A well-formed index has a finite map, and its key order lists each of
    /// its keys exactly once.
    pub proof fn lemma_wf(&self)
        requires
            self.wf(),
        ensures
            self@.dom().finite(),
            self.key_order().len() == self@.dom().len(),
            self.key_order().no_duplicates(),
            forall|k: Seq<u8>| self@.contains_key(k) <==> self.key_order().contains(k),
            forall|i: int|
                0 <= i < self.key_order().len() ==> valid_utf8(#[trigger] self.key_order()[i])
                    && self.key_order()[i].len() <= MAX_KEY_LEN,
    {
        lemma_entries_map(self.entries@);
        let ko = self.key_order();
        assert forall|k: Seq<u8>| self@.contains_key(k) <==> ko.contains(k) by {
            if self@.contains_key(k) {
                let i = choose|i: int| 0 <= i < self.entries@.len() && self.entries@[i].0@ == k;
                assert(ko[i] == k);
            }
            if ko.contains(k) {
                let i = choose|i: int| 0 <= i < ko.len() && ko[i] == k;
                assert(self.entries@[i].0@ == k);
            }
        }
        assert(ko.no_duplicates()) by {
            assert forall|i: int, j: int| 0 <= i < ko.len() && 0 <= j < ko.len() && i != j implies ko[i]
                != ko[j] by {
                if i < j {
                    assert(self.entries@[i].0@ != self.entries@[j].0@);
                } else {
                    assert(self.entries@[j].0@ != self.entries@[i].0@);
                }
            }
        }
        assert(ko.to_set() =~= self@.dom());
        ko.unique_seq_to_set();
    }
}

/// Parsing a file that continues a well-formed prefix picks up, after the
/// prefix, with the map that the prefix gave.
pub proof fn lemma_parse_index_append(a: Seq<u8>, b: Seq<u8>, pos: int, acc: Map<Seq<u8>, u64>)
    requires
        0 <= pos <= a.len(),
        parse_index_from(a, pos, acc) is Ok,
    ensures
        parse_index_from(a + b, pos, acc) == parse_index_from(
            a + b,
            a.len() as int,
            parse_index_from(a, pos, acc)->Ok_0,
        ),
    decreases a.len() - pos,
{
    let ab = a + b;
    if pos < a.len() {
        assert(pos + 4 <= a.len());
        assert(ab.subrange(pos, pos + 4) =~= a.subrange(pos, pos + 4));
        let kl = u32_at(a, pos);
        let ks = pos + 4;
        assert(ab.subrange(ks, ks + kl) =~= a.subrange(ks, ks + kl));
        assert(ab.subrange(ks + kl, ks + kl + 8) =~= a.subrange(ks + kl, ks + kl + 8));
        lemma_parse_index_append(
            a,
            b,
            ks + kl + 8,
            acc.insert(a.subrange(ks, ks + kl), u64_at(a, ks + kl)),
        );
    }
}

/// The key order of a file that continues a well-formed prefix picks up,
/// after the prefix, with the order that the prefix gave.
pub proof fn lemma_parse_order_append(a: Seq<u8>, b: Seq<u8>, pos: int, acc: Map<Seq<u8>, u64>, order: Seq<Seq<u8>>)
    requires
        0 <= pos <= a.len(),
        parse_index_from(a, pos, acc) is Ok,
    ensures
        parse_order_from(a + b, pos, order) == parse_order_from(
            a + b,
            a.len() as int,
            parse_order_from(a, pos, order),
        ),
    decreases a.len() - pos,
{
    let ab = a + b;
    if pos < a.len() {
        assert(pos + 4 <= a.len());
        assert(ab.subrange(pos, pos + 4) =~= a.subrange(pos, pos + 4));
        let kl = u32_at(a, pos);
        let ks = pos + 4;
        let k = a.subrange(ks, ks + kl);
        assert(ab.subrange(ks, ks + kl) =~= k);
        assert(ab.subrange(ks + kl, ks + kl + 8) =~= a.subrange(ks + kl, ks + kl + 8));
        lemma_parse_order_append(
            a,
            b,
            ks + kl + 8,
            acc.insert(k, u64_at(a, ks + kl)),
            if order.contains(k) {
                order
            } else {
                order.push(k)
            },
        );
    }
}

/// The key order after one more index record: its key is added unless it
/// is already there.
pub proof fn lemma_parse_order_record(a: Seq<u8>, k: Seq<u8>, off: u64, order: Seq<Seq<u8>>)
    requires
        valid_utf8(k),
        k.len() <= MAX_KEY_LEN,
    ensures
        parse_order_from(a + index_record(k, off), a.len() as int, order) == if order.contains(k) {
            order
        } else {
            order.push(k)
        },
{
    lemma_le_roundtrip();
    let ab = a + index_record(k, off);
    let p = a.len() as int;
    assert(le32(k.len()).len() == 4);
    assert(le64(off).len() == 8);
    assert(ab.subrange(p, p + 4) =~= le32(k.len()));
    assert(ab.subrange(p + 4, p + 4 + k.len()) =~= k);
    assert(ab.subrange(p + 4 + k.len(), p + 4 + k.len() + 8) =~= le64(off));
    let next = if order.contains(k) {
        order
    } else {
        order.push(k)
    };
    assert(parse_order_from(ab, p + 4 + k.len() + 8, next) == next);
}

/// An index record for a key of valid UTF-8 no longer than the limit parses
/// to that key and offset.
pub proof fn lemma_parse_index_record(a: Seq<u8>, k: Seq<u8>, off: u64, acc: Map<Seq<u8>, u64>)
    requires
        valid_utf8(k),
        k.len() <= MAX_KEY_LEN,
    ensures
        parse_index_from(a + index_record(k, off), a.len() as int, acc) == Ok::<
            Map<Seq<u8>, u64>,
            AppError,
        >(acc.insert(k, off)),
{
    lemma_le_roundtrip();
    let r = index_record(k, off);
    let ab = a + r;
    let p = a.len() as int;
    assert(le32(k.len()).len() == 4);
    assert(le64(off).len() == 8);
    assert(ab.subrange(p, p + 4) =~= le32(k.len()));
    assert(u32_at(ab, p) == k.len());
    assert(ab.subrange(p + 4, p + 4 + k.len()) =~= k);
    assert(ab.subrange(p + 4 + k.len(), p + 4 + k.len() + 8) =~= le64(off));
    assert(parse_index_from(ab, p + 4 + k.len() + 8, acc.insert(k, off)) == Ok::<
        Map<Seq<u8>, u64>,
        AppError,
    >(acc.insert(k, off)));
}

/// Law: the index file that the index stands for loads back as the same
/// index: the same map, and the keys in the same order.
pub proof fn law_index_file_loads_back(index: &Index)
    requires
        index.wf(),
    ensures
        parse_index(index.file_bytes()) == Ok::<Map<Seq<u8>, u64>, AppError>(index@),
        parse_index_order(index.file_bytes()) == index.key_order(),
{
}

/// An index file that loads gives a key order that lists each key of its
/// map exactly once, each UTF-8 and no longer than `MAX_KEY_LEN` bytes.
pub proof fn lemma_parse_order_keys(b: Seq<u8>, pos: int, m: Map<Seq<u8>, u64>, acc: Seq<Seq<u8>>)
    requires
        0 <= pos,
        parse_index_from(b, pos, m) is Ok,
        acc.no_duplicates(),
        forall|k: Seq<u8>| m.contains_key(k) <==> acc.contains(k),
        forall|i: int|
            0 <= i < acc.len() ==> valid_utf8(#[trigger] acc[i]) && acc[i].len() <= MAX_KEY_LEN,
    ensures
        parse_order_from(b, pos, acc).no_duplicates(),
        forall|k: Seq<u8>|
            (parse_index_from(b, pos, m)->Ok_0).contains_key(k) <==> parse_order_from(
                b,
                pos,
                acc,
            ).contains(k),
        forall|i: int|
            0 <= i < parse_order_from(b, pos, acc).len() ==> valid_utf8(
                #[trigger] parse_order_from(b, pos, acc)[i],
            ) && parse_order_from(b, pos, acc)[i].len() <= MAX_KEY_LEN,
    decreases b.len() - pos,
{
    if let ReadStatus::CompleteRead(kl) = spec_read_len(b, pos) {
        let ks = pos + 4;
        let k = b.subrange(ks, ks + kl);
        let m2 = m.insert(k, u64_at(b, ks + kl));
        let acc2 = if acc.contains(k) {
            acc
        } else {
            acc.push(k)
        };
        assert forall|x: Seq<u8>| m2.contains_key(x) <==> acc2.contains(x) by {
            if !acc.contains(k) && x != k && acc2.contains(x) {
                let i = choose|i: int| 0 <= i < acc2.len() && acc2[i] == x;
                assert(acc[i] == x);
            }
            if !acc.contains(k) && acc.contains(x) {
                let i = choose|i: int| 0 <= i < acc.len() && acc[i] == x;
                assert(acc2[i] == x);
            }
            if !acc.contains(k) && x == k {
                assert(acc2[acc.len() as int] == k);
            }
        }
        assert(acc2.no_duplicates()) by {
            if !acc.contains(k) {
                assert forall|i: int, j: int|
                    0 <= i < acc2.len() && 0 <= j < acc2.len() && i != j implies acc2[i]
                    != acc2[j] by {
                    if i == acc.len() {
                        assert(acc2[j] == acc[j]);
                    } else if j == acc.len() {
                        assert(acc2[i] == acc[i]);
                    } else {
                        assert(acc2[i] == acc[i] && acc2[j] == acc[j]);
                    }
                }
            }
        }
        assert forall|i: int|
            0 <= i < acc2.len() implies valid_utf8(#[trigger] acc2[i]) && acc2[i].len()
            <= MAX_KEY_LEN by {
            if i < acc.len() {
                assert(acc2[i] == acc[i]);
            }
        }
        lemma_parse_order_keys(b, ks + kl + 8, m2, acc2);
    }
}

/// The position of `key` among the entries, if it is there.
fn find_entry(entries: &Vec<(Vec<u8>, u64)>, key: &[u8]) -> (res: Option<usize>)
    ensures
        res matches Some(i) ==> i < entries@.len() && entries@[i as int].0@ == key@,
        res is None ==> forall|i: int| 0 <= i < entries@.len() ==> entries@[i].0@ != key@,
{
    let mut i: usize = 0;
    while i < entries.len()
        invariant
            i <= entries@.len(),
            forall|j: int| 0 <= j < i ==> entries@[j].0@ != key@,
        decreases entries@.len() - i,
    {
        if bytes_eq(entries[i].0.as_slice(), key) {
            return Some(i);
        }
        i = i + 1;
    }
    None
}

/// Maps `key` to `offset` among the entries.
fn insert_entry(entries: &mut Vec<(Vec<u8>, u64)>, key: Vec<u8>, offset: u64)
    requires
        keys_distinct(old(entries)@),
        keys_ok(old(entries)@),
        valid_utf8(key@),
        key@.len() <= MAX_KEY_LEN,
    ensures
        keys_distinct(final(entries)@),
        keys_ok(final(entries)@),
        entries_map(final(entries)@) == entries_map(old(entries)@).insert(key@, offset),
        entry_keys(final(entries)@) == if entry_keys(old(entries)@).contains(key@) {
            entry_keys(old(entries)@)
        } else {
            entry_keys(old(entries)@).push(key@)
        },
{
    proof {
        lemma_entries_map(entries@);
    }
    match find_entry(entries, key.as_slice()) {
        Some(i) => {
            entries.set(i, (key, offset));
            proof {
                let s = entries@;
                let o = old(entries)@;
                assert(entry_keys(o)[i as int] == key@);
                assert(entry_keys(s) =~= entry_keys(o));
                assert(keys_distinct(s)) by {
                    assert forall|a: int, b: int| 0 <= a < b < s.len() implies s[a].0@
                        != s[b].0@ by {
                        if a != i && b != i {
                            assert(s[a] == o[a] && s[b] == o[b]);
                        } else if a == i {
                            assert(s[b] == o[b]);
                        } else {
                            assert(s[a] == o[a]);
                        }
                    }
                }
                assert(keys_ok(s)) by {
                    assert forall|a: int| 0 <= a < s.len() implies valid_utf8(#[trigger] s[a].0@)
                        && s[a].0@.len() <= MAX_KEY_LEN by {
                        if a != i {
                            assert(s[a] == o[a]);
                        }
                    }
                }
                lemma_entries_map(s);
                let m1 = entries_map(s);
                let m2 = entries_map(o).insert(key@, offset);
                assert forall|k: Seq<u8>| m1.contains_key(k) <==> m2.contains_key(k) by {
                    if m1.contains_key(k) {
                        let j = choose|j: int| 0 <= j < s.len() && s[j].0@ == k;
                        if j != i {
                            assert(o[j] == s[j]);
                            assert(o[j].0@ == k);
                            assert(entries_map(o).contains_key(k));
                        }
                    }
                    if m2.contains_key(k) {
                        if k != key@ {
                            let j = choose|j: int| 0 <= j < o.len() && o[j].0@ == k;
                            assert(o[j] == s[j]);
                            assert(s[j].0@ == k);
                        } else {
                            assert(s[i as int].0@ == k);
                        }
                    }
                }
                assert forall|k: Seq<u8>| m1.contains_key(k) implies m1[k] == m2[k] by {
                    let j = choose|j: int| 0 <= j < s.len() && s[j].0@ == k;
                    if j != i {
                        assert(o[j] == s[j]);
                        assert(m1[s[j].0@] == s[j].1);
                        assert(entries_map(o)[o[j].0@] == o[j].1);
                    } else {
                        assert(m1[s[j].0@] == s[j].1);
                    }
                }
                assert(m1 =~= m2);
            }
        },
        None => {
            let ghost o = entries@;
            entries.push((key, offset));
            proof {
                let s = entries@;
                assert(!entry_keys(o).contains(key@)) by {
                    if entry_keys(o).contains(key@) {
                        let j = choose|j: int| 0 <= j < entry_keys(o).len() && entry_keys(o)[j] == key@;
                        assert(o[j].0@ == key@);
                    }
                }
                assert(entry_keys(s) =~= entry_keys(o).push(key@));
                assert(s.drop_last() =~= o);
                assert(keys_ok(s)) by {
                    assert forall|a: int| 0 <= a < s.len() implies valid_utf8(#[trigger] s[a].0@)
                        && s[a].0@.len() <= MAX_KEY_LEN by {
                        if a < o.len() {
                            assert(s[a] == o[a]);
                        }
                    }
                }
                assert(keys_distinct(s)) by {
                    assert forall|a: int, b: int| 0 <= a < b < s.len() implies s[a].0@
                        != s[b].0@ by {
                        assert(s[a] == o[a]);
                        if b < o.len() {
                            assert(s[b] == o[b]);
                        }
                    }
                }
            }
        },
    }
}

impl Index {
    /// Loads the index from the contents of the index file: each record
    /// maps its key to its offset, a later record replacing an earlier one.
    /// A length cut short, a key longer than the limit, or a key or offset
    /// that runs past the end is `CorruptedIndex`; a key that is not UTF-8
    /// is `ConvertUtf8ToString`.
    pub fn build_index(bytes: &[u8]) -> (res: Result<Index, AppError>)
        ensures
            match parse_index(bytes@) {
                Ok(m) => res matches Ok(index) && index.wf() && index@ == m
                    && index.file_bytes() == bytes@ && index.key_order() == parse_index_order(bytes@),
                Err(e) => res == Err::<Index, AppError>(e),
            },
    {
        let mut entries: Vec<(Vec<u8>, u64)> = Vec::new();
        let mut pos: usize = 0;
        let len = bytes.len();
        assert(entry_keys(entries@) =~= Seq::<Seq<u8>>::empty());
        loop
            invariant
                len == bytes@.len(),
                pos <= len,
                keys_distinct(entries@),
                keys_ok(entries@),
                parse_index(bytes@) == parse_index_from(bytes@, pos as int, entries_map(entries@)),
                parse_index_order(bytes@) == parse_order_from(bytes@, pos as int, entry_keys(entries@)),
            decreases len - pos,
        {
            match rebuild_len(bytes, pos as u64) {
                ReadStatus::Eof => {
                    let file = slice_to_vec(bytes);
                    return Ok(Index { file, entries });
                },
                ReadStatus::CorruptTail => {
                    return Err(AppError::CorruptedIndex);
                },
                ReadStatus::CompleteRead(kl) => {
                    if kl > MAX_KEY_LEN {
                        return Err(AppError::CorruptedIndex);
                    }
                    let ks = pos + 4;
                    let kl = kl as usize;
                    if kl > len - ks {
                        return Err(AppError::CorruptedIndex);
                    }
                    let key = slice_to_vec(slice_subrange(bytes, ks, ks + kl));
                    let key_copy = slice_to_vec(slice_subrange(bytes, ks, ks + kl));
                    if utf8_to_string(key_copy).is_none() {
                        return Err(AppError::ConvertUtf8ToString);
                    }
                    if 8 > len - ks - kl {
                        return Err(AppError::CorruptedIndex);
                    }
                    let offset = read_u64_at(bytes, ks + kl);
                    insert_entry(&mut entries, key, offset);
                    pos = ks + kl + 8;
                },
            }
        }
    }

    /// Records that `key`'s latest record is at `offset` of the data file:
    /// the index record is appended to the index file image and returned,
    /// for the caller to append to the index file. An empty key or one
    /// longer than the limit is `InvalidKey` with its length in bytes, and
    /// changes nothing.
    pub fn put(&mut self, key: String, offset: u64) -> (res: Result<Vec<u8>, AppError>)
        requires
            old(self).wf(),
        ensures
            final(self).wf(),
            ({
                let kb = vstd::utf8::encode_utf8(key@);
                if kb.len() == 0 || kb.len() > MAX_KEY_LEN {
                    &&& res == Err::<Vec<u8>, AppError>(AppError::InvalidKey(kb.len() as usize))
                    &&& *final(self) == *old(self)
                } else {
                    &&& res matches Ok(record) && record@ == index_record(kb, offset)
                    &&& final(self).file_bytes() == old(self).file_bytes() + index_record(kb, offset)
                    &&& final(self)@ == old(self)@.insert(kb, offset)
                    &&& final(self).key_order() == if old(self).key_order().contains(kb) {
                        old(self).key_order()
                    } else {
                        old(self).key_order().push(kb)
                    }
                }
            }),
    {
        broadcast use vstd::utf8::group_utf8_lib;

        let kb = key.as_str().as_bytes();
        if kb.len() == 0 || kb.len() as u64 > MAX_KEY_LEN {
            return Err(AppError::InvalidKey(kb.len()));
        }
        let record = encode_index_record(kb, offset);
        let ghost old_file = self.file@;
        append_bytes(&mut self.file, record.as_slice());
        insert_entry(&mut self.entries, slice_to_vec(kb), offset);
        proof {
            lemma_parse_index_append(old_file, record@, 0, Map::empty());
            lemma_parse_index_record(old_file, kb@, offset, old(self)@);
            lemma_parse_order_append(old_file, record@, 0, Map::empty(), Seq::empty());
            lemma_parse_order_record(old_file, kb@, offset, old(self).key_order());
        }
        Ok(record)
    }

    /// An index over an empty index file.
    pub fn new_empty() -> (index: Index)
        ensures
            index.wf(),
            index@ == Map::<Seq<u8>, u64>::empty(),
            index.file_bytes() == Seq::<u8>::empty(),
            index.key_order() == Seq::<Seq<u8>>::empty(),
    {
        let index = Index { file: Vec::new(), entries: Vec::new() };
        assert(index.key_order() =~= Seq::<Seq<u8>>::empty());
        assert(index@ == Map::<Seq<u8>, u64>::empty());
        index
    }

    /// Appends the record of a key, with its offset, to the file image and
    /// the map; the key keeps its place in the key order if it is there.
    pub fn insert_key_bytes(&mut self, key: &[u8], offset: u64)
        requires
            old(self).wf(),
            valid_utf8(key@),
            key@.len() <= MAX_KEY_LEN,
        ensures
            final(self).wf(),
            final(self)@ == old(self)@.insert(key@, offset),
            final(self).file_bytes() == old(self).file_bytes() + index_record(key@, offset),
            final(self).key_order() == if old(self).key_order().contains(key@) {
                old(self).key_order()
            } else {
                old(self).key_order().push(key@)
            },
    {
        let record = encode_index_record(key, offset);
        let ghost old_file = self.file@;
        append_bytes(&mut self.file, record.as_slice());
        insert_entry(&mut self.entries, slice_to_vec(key), offset);
        proof {
            lemma_parse_index_append(old_file, record@, 0, Map::empty());
            lemma_parse_index_record(old_file, key@, offset, old(self)@);
            lemma_parse_order_append(old_file, record@, 0, Map::empty(), Seq::empty());
            lemma_parse_order_record(old_file, key@, offset, old(self).key_order());
        }
    }

    /// The offset of `key`'s latest record, if the index has the key.
    pub fn get(&self, key: &str) -> (res: Option<u64>)
        requires
            self.wf(),
        ensures
            ({
                let kb = vstd::utf8::encode_utf8(key@);
                res == if self@.contains_key(kb) {
                    Some(self@[kb])
                } else {
                    None::<u64>
                }
            }),
    {
        proof {
            lemma_entries_map(self.entries@);
        }
        let kb = key.as_bytes();
        match find_entry(&self.entries, kb) {
            Some(i) => Some(self.entries[i].1),
            None => None,
        }
    }

    /// A copy of the contents of the index file.
    pub fn file_contents(&self) -> (bytes: Vec<u8>)
        ensures
            bytes@ == self.file_bytes(),
    {
        slice_to_vec(self.file.as_slice())
    }

    /// Replaces the index, map and file image, with a new one.
    pub fn update_memory_map(&mut self, new_index: Index)
        ensures
            *final(self) == new_index,
    {
        *self = new_index;
    }

    /// The number of keys in the index.
    pub fn len(&self) -> (n: usize)
        requires
            self.wf(),
        ensures
            n == self.key_order().len(),
    {
        self.entries.len()
    }

    /// The `i`-th key in the index's order, and its offset.
    pub fn entry(&self, i: usize) -> (res: (&[u8], u64))
        requires
            self.wf(),
            i < self.key_order().len(),
        ensures
            res.0@ == self.key_order()[i as int],
            res.1 == self@[self.key_order()[i as int]],
    {
        proof {
            lemma_entries_map(self.entries@);
        }
        (self.entries[i].0.as_slice(), self.entries[i].1)
    }
}

} // verus!
