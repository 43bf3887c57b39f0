use crate::compaction::{
    compact_data, law_compact_preserves_values, law_compaction_succeeds, law_index_file_of_records,
    lemma_compact_scans,
    pairs_file, pairs_map, rebuild_index_file, scan_records, spec_compact,
};
use crate::engine::{record_whole_at, CompactPlan, StorageEngine};
use crate::error::AppError;
use crate::index::{lemma_parse_order_keys, parse_index, parse_index_order, Index, MAX_KEY_LEN};
use vstd::utf8::valid_utf8;
use crate::wal::{compact_byte, compact_from_byte, CompactOperation};
use vstd::prelude::*;

verus! {

/// The files that compaction works on, by their contents; a file that does
/// not exist is `None`. A missing index file reads as empty.
pub struct CompactFiles {
    pub data: Option<Seq<u8>>,
    pub index: Seq<u8>,
    pub data_temp: Option<Seq<u8>>,
    pub index_temp: Option<Seq<u8>>,
    pub wal: Seq<u8>,
}

/// One step of a compaction, as the compaction log directs it. Each step
/// but the last ends by overwriting the log's byte with the next step's.
#[derive(Debug, PartialEq, Eq, Structural, Clone, Copy)]
pub enum CompactAction {
    /// The log is empty: no compaction is under way.
    Done,
    /// Create or empty the temporary data file; the log moves on to
    /// `CreateIndex`.
    CreateDataTemp,
    /// Create or empty the temporary index file; the log moves on to
    /// `CopyDataTo`.
    CreateIndexTemp,
    /// Write the compacted data to the temporary data file; the log moves
    /// on to `CopyIndexTo`.
    WriteDataTemp,
    /// Write the compacted index to the temporary index file; the log moves
    /// on to `ReplaceData`.
    WriteIndexTemp,
    /// Rename the temporary data file over the data file; the log moves on
    /// to `ReplaceIndex`.
    RenameData,
    /// The temporary data file is gone, so the data file was already
    /// replaced; the log moves on to `ReplaceIndex`.
    KeepData,
    /// Write the index rebuilt from the data file to the temporary index
    /// file, rename it over the index file, then clear the log.
    ReplaceIndex,
}

/// A step to take and the bytes that it writes (empty for a step that
/// writes none).
#[derive(Debug)]
pub struct CompactWork {
    pub action: CompactAction,
    pub bytes: Vec<u8>,
}

/// What a byte slice that may be missing holds.
pub open spec fn opt_view(data: Option<&[u8]>) -> Option<Seq<u8>> {
    match data {
        Some(d) => Some(d@),
        None => None,
    }
}

/// The compaction of a data file under an index file: the compacted data
/// and each key with its new offset, or the error of loading the index or
/// of compacting.
pub open spec fn compacted(data: Seq<u8>, index: Seq<u8>) -> Result<
    (Seq<u8>, Seq<(Seq<u8>, u64)>),
    AppError,
> {
    match parse_index(index) {
        Err(e) => Err(e),
        Ok(m) => spec_compact(data, parse_index_order(index), m),
    }
}

/// The step that the compaction log directs, given the data file (if it
/// exists), the index file and whether the temporary data file exists.
pub open spec fn spec_next_action(
    wal: Seq<u8>,
    data: Option<Seq<u8>>,
    index: Seq<u8>,
    temp_exists: bool,
) -> Result<CompactAction, AppError> {
    if wal.len() == 0 {
        Ok(CompactAction::Done)
    } else {
        match compact_from_byte(wal[0]) {
            None => Err(AppError::UnknownCompactOperation),
            Some(CompactOperation::CreateData) => Ok(CompactAction::CreateDataTemp),
            Some(CompactOperation::CreateIndex) => Ok(CompactAction::CreateIndexTemp),
            Some(CompactOperation::CopyDataTo) => match data {
                None => Err(AppError::DbFileNotExist),
                Some(d) => match compacted(d, index) {
                    Err(e) => Err(e),
                    Ok(_) => Ok(CompactAction::WriteDataTemp),
                },
            },
            Some(CompactOperation::CopyIndexTo) => match data {
                None => Err(AppError::DbFileNotExist),
                Some(d) => match compacted(d, index) {
                    Err(e) => Err(e),
                    Ok(_) => Ok(CompactAction::WriteIndexTemp),
                },
            },
            Some(CompactOperation::ReplaceData) => match data {
                None => Err(AppError::DbFileNotExist),
                Some(_) => Ok(
                    if temp_exists {
                        CompactAction::RenameData
                    } else {
                        CompactAction::KeepData
                    },
                ),
            },
            Some(CompactOperation::ReplaceIndex) => match data {
                None => Err(AppError::DbFileNotExist),
                Some(d) => match scan_records(d) {
                    Err(e) => Err(e),
                    Ok(_) => Ok(CompactAction::ReplaceIndex),
                },
            },
        }
    }
}

/// The bytes that a step writes.
pub open spec fn action_bytes(data: Option<Seq<u8>>, index: Seq<u8>, a: CompactAction) -> Seq<u8> {
    match a {
        CompactAction::WriteDataTemp => compacted(data->Some_0, index)->Ok_0.0,
        CompactAction::WriteIndexTemp => pairs_file(compacted(data->Some_0, index)->Ok_0.1),
        CompactAction::ReplaceIndex => pairs_file(scan_records(data->Some_0)->Ok_0),
        _ => Seq::empty(),
    }
}

/// The compaction log that records a step.
pub open spec fn wal_at(op: CompactOperation) -> Seq<u8> {
    seq![compact_byte(op)]
}

/// The files once a step is done.
pub open spec fn apply_action(f: CompactFiles, a: CompactAction) -> CompactFiles {
    let bytes = action_bytes(f.data, f.index, a);
    match a {
        CompactAction::Done => f,
        CompactAction::CreateDataTemp => CompactFiles {
            data_temp: Some(Seq::empty()),
            wal: wal_at(CompactOperation::CreateIndex),
            ..f
        },
        CompactAction::CreateIndexTemp => CompactFiles {
            index_temp: Some(Seq::empty()),
            wal: wal_at(CompactOperation::CopyDataTo),
            ..f
        },
        CompactAction::WriteDataTemp => CompactFiles {
            data_temp: Some(bytes),
            wal: wal_at(CompactOperation::CopyIndexTo),
            ..f
        },
        CompactAction::WriteIndexTemp => CompactFiles {
            index_temp: Some(bytes),
            wal: wal_at(CompactOperation::ReplaceData),
            ..f
        },
        CompactAction::RenameData => CompactFiles {
            data: f.data_temp,
            data_temp: None,
            wal: wal_at(CompactOperation::ReplaceIndex),
            ..f
        },
        CompactAction::KeepData => CompactFiles { wal: wal_at(CompactOperation::ReplaceIndex), ..f },
        CompactAction::ReplaceIndex => CompactFiles {
            index: bytes,
            index_temp: None,
            wal: Seq::empty(),
            ..f
        },
    }
}

/// The files that a crash while doing a step may leave: those before it,
/// those after it, a temporary file that the step writes holding anything,
/// or a rename done with the log not yet moved on. The log's one byte is
/// overwritten in place and a rename is atomic.
pub open spec fn crash_state(f: CompactFiles, a: CompactAction, g: CompactFiles) -> bool {
    let done = apply_action(f, a);
    ||| g == f
    ||| g == done
    ||| match a {
        CompactAction::CreateDataTemp | CompactAction::WriteDataTemp => g == CompactFiles {
            data_temp: g.data_temp,
            ..f
        },
        CompactAction::CreateIndexTemp | CompactAction::WriteIndexTemp => g == CompactFiles {
            index_temp: g.index_temp,
            ..f
        },
        CompactAction::RenameData => g == CompactFiles { wal: f.wal, ..done },
        CompactAction::ReplaceIndex => g == CompactFiles { index_temp: g.index_temp, ..f } || g
            == CompactFiles { wal: f.wal, ..done },
        _ => false,
    }
}

/// Where a compaction of the data file `d0` under the index file `i0`
/// stands, by the step that its log records: before the data file is
/// replaced both files are as they were; from then on the data file is the
/// compacted one; once the log is empty, the index file is the compacted
/// index too and no temporary file is left.
pub open spec fn compact_inv(f: CompactFiles, d0: Seq<u8>, i0: Seq<u8>) -> bool {
    let (d1, es) = compacted(d0, i0)->Ok_0;
    if f.wal.len() == 0 {
        &&& f.data == Some(d1)
        &&& f.index == pairs_file(es)
        &&& f.data_temp is None
        &&& f.index_temp is None
    } else if f.wal == wal_at(CompactOperation::CreateData) || f.wal == wal_at(
        CompactOperation::CreateIndex,
    ) || f.wal == wal_at(CompactOperation::CopyDataTo) {
        f.data == Some(d0) && f.index == i0
    } else if f.wal == wal_at(CompactOperation::CopyIndexTo) {
        f.data == Some(d0) && f.index == i0 && f.data_temp == Some(d1)
    } else if f.wal == wal_at(CompactOperation::ReplaceData) {
        &&& f.index == i0
        &&& (f.data == Some(d0) && f.data_temp == Some(d1)) || (f.data == Some(d1)
            && f.data_temp is None)
    } else if f.wal == wal_at(CompactOperation::ReplaceIndex) {
        f.data == Some(d1) && f.data_temp is None
    } else {
        false
    }
}

/// How many steps are left: none once the log is empty, else seven less
/// the step that it records.
pub open spec fn steps_left(f: CompactFiles) -> nat {
    if f.wal.len() == 0 {
        0
    } else {
        (7 - f.wal[0]) as nat
    }
}

/// The files after at most `fuel` steps, each as the log directs, stopping
/// when the log is empty or a step fails.
pub open spec fn run_compaction(f: CompactFiles, fuel: nat) -> CompactFiles
    decreases fuel,
{
    if fuel == 0 {
        f
    } else {
        match spec_next_action(f.wal, f.data, f.index, f.data_temp is Some) {
            Ok(a) => if a == CompactAction::Done {
                f
            } else {
                run_compaction(apply_action(f, a), (fuel - 1) as nat)
            },
            Err(_) => f,
        }
    }
}

/// Law: each step of a compaction keeps it on course. From files where a
/// compaction of `d0` under `i0` stands as its log records, the log directs
/// a step that succeeds, the files after it stand as their log records with
/// fewer steps left, and so do the files that a crash during it may leave,
/// with no more steps left.
pub proof fn law_compaction_step(f: CompactFiles, d0: Seq<u8>, i0: Seq<u8>)
    requires
        compacted(d0, i0) is Ok,
        compacted(d0, i0)->Ok_0.0.len() <= u64::MAX,
        compact_inv(f, d0, i0),
        f.wal.len() > 0,
    ensures
        spec_next_action(f.wal, f.data, f.index, f.data_temp is Some) matches Ok(a) && {
            &&& a != CompactAction::Done
            &&& compact_inv(apply_action(f, a), d0, i0)
            &&& steps_left(apply_action(f, a)) < steps_left(f)
            &&& forall|g: CompactFiles|
                crash_state(f, a, g) ==> compact_inv(g, d0, i0) && steps_left(g) <= steps_left(f)
        },
{
    let (d1, es) = compacted(d0, i0)->Ok_0;
    let m = parse_index(i0)->Ok_0;
    let keys = parse_index_order(i0);
    lemma_parse_order_keys(i0, 0, Map::empty(), Seq::empty());
    lemma_compact_scans(d0, keys, m, keys.len(), d1, es);
    let a = spec_next_action(f.wal, f.data, f.index, f.data_temp is Some)->Ok_0;
    let done = apply_action(f, a);
    assert(wal_at(CompactOperation::CreateIndex)[0] == 2u8);
    assert(wal_at(CompactOperation::CopyDataTo)[0] == 3u8);
    assert(wal_at(CompactOperation::CopyIndexTo)[0] == 4u8);
    assert(wal_at(CompactOperation::ReplaceData)[0] == 5u8);
    assert(wal_at(CompactOperation::ReplaceIndex)[0] == 6u8);
    assert(wal_at(CompactOperation::CreateData)[0] == 1u8);
    assert forall|g: CompactFiles| crash_state(f, a, g) implies compact_inv(g, d0, i0) && steps_left(g)
        <= steps_left(f) by {
        if g == f {
        } else if g == done {
        } else {
            assert(g.wal == f.wal);
        }
    }
}

/// Law: an interrupted compaction completes. From files where a compaction
/// of `d0` under `i0` stands as its log records (a compaction just begun
/// has the log at `CreateData`, the data and index files as they were, and
/// anything in the temporary files), taking the steps that the log directs
/// ends, within the steps left, with an empty log, the compacted data file,
/// its index file and no temporary file; so does resuming after any crash,
/// by `law_compaction_step`.
pub proof fn law_compaction_completes(f: CompactFiles, d0: Seq<u8>, i0: Seq<u8>)
    requires
        compacted(d0, i0) is Ok,
        compacted(d0, i0)->Ok_0.0.len() <= u64::MAX,
        compact_inv(f, d0, i0),
    ensures
        ({
            let g = run_compaction(f, steps_left(f));
            let (d1, es) = compacted(d0, i0)->Ok_0;
            &&& g.wal.len() == 0
            &&& g.data == Some(d1)
            &&& g.index == pairs_file(es)
            &&& parse_index(g.index) == Ok::<Map<Seq<u8>, u64>, AppError>(pairs_map(es))
            &&& g.data_temp is None
            &&& g.index_temp is None
            &&& spec_next_action(g.wal, g.data, g.index, g.data_temp is Some) == Ok::<
                CompactAction,
                AppError,
            >(CompactAction::Done)
        }),
    decreases steps_left(f),
{
    let (d1, es) = compacted(d0, i0)->Ok_0;
    let m = parse_index(i0)->Ok_0;
    let keys = parse_index_order(i0);
    lemma_parse_order_keys(i0, 0, Map::empty(), Seq::empty());
    law_compact_preserves_values(d0, keys, m, Seq::empty());
    assert forall|i: int|
        0 <= i < es.len() implies valid_utf8(#[trigger] es[i].0) && es[i].0.len() <= MAX_KEY_LEN by {
        assert(es.map_values(|e: (Seq<u8>, u64)| e.0)[i] == keys[i]);
    }
    law_index_file_of_records(es);
    if f.wal.len() > 0 {
        law_compaction_step(f, d0, i0);
        let a = spec_next_action(f.wal, f.data, f.index, f.data_temp is Some)->Ok_0;
        let n = apply_action(f, a);
        law_compaction_completes(n, d0, i0);
        assert(run_compaction(f, steps_left(f)) == run_compaction(n, (steps_left(f) - 1) as nat));
        lemma_run_settles(n, d0, i0, steps_left(n), (steps_left(f) - 1) as nat);
    }
}

/// The files when a compaction begins: the log records its first step, the
/// data and index files are as they were, and the temporary files, if any,
/// hold anything.
pub open spec fn compaction_begun(
    d0: Seq<u8>,
    i0: Seq<u8>,
    data_temp: Option<Seq<u8>>,
    index_temp: Option<Seq<u8>>,
) -> CompactFiles {
    CompactFiles {
        data: Some(d0),
        index: i0,
        data_temp,
        index_temp,
        wal: wal_at(CompactOperation::CreateData),
    }
}

/// Law: a compaction begun on a data file and an index file that compact
/// without error ends, after the six steps that the log directs, with an
/// empty log, the compacted data file, the index file that maps each key
/// to its new record, and no temporary file.
pub proof fn law_compaction_from_start(
    d0: Seq<u8>,
    i0: Seq<u8>,
    data_temp: Option<Seq<u8>>,
    index_temp: Option<Seq<u8>>,
)
    requires
        compacted(d0, i0) is Ok,
        compacted(d0, i0)->Ok_0.0.len() <= u64::MAX,
    ensures
        ({
            let g = run_compaction(compaction_begun(d0, i0, data_temp, index_temp), 6);
            let (d1, es) = compacted(d0, i0)->Ok_0;
            &&& g.wal.len() == 0
            &&& g.data == Some(d1)
            &&& g.index == pairs_file(es)
            &&& parse_index(g.index) == Ok::<Map<Seq<u8>, u64>, AppError>(pairs_map(es))
            &&& g.data_temp is None
            &&& g.index_temp is None
        }),
{
    let f = compaction_begun(d0, i0, data_temp, index_temp);
    assert(wal_at(CompactOperation::CreateData)[0] == 1u8);
    assert(steps_left(f) == 6);
    law_compaction_completes(f, d0, i0);
}

/// Law: the compaction that the steps carry out over the engine's files is
/// the one that `StorageEngine::compact` makes in memory, so once the log
/// is empty the files hold what the engine then holds.
pub proof fn law_compaction_matches_engine(engine: &StorageEngine)
    requires
        engine.wf(),
    ensures
        compacted(engine.data_bytes(), engine.index_bytes()) == spec_compact(
            engine.data_bytes(),
            engine.key_order(),
            engine.index_map(),
        ),
{
    engine.law_index_file_loads_back();
}

/// Law: the compaction of a data file under an index file that loads, each
/// of whose offsets holds a whole record of the data file, succeeds,
/// whatever the offsets, the lengths of keys and values, or the size of
/// the file.
pub proof fn law_compacted_succeeds(d0: Seq<u8>, i0: Seq<u8>)
    requires
        parse_index(i0) is Ok,
        forall|k: Seq<u8>|
            #[trigger] (parse_index(i0)->Ok_0).contains_key(k) ==> record_whole_at(
                d0,
                (parse_index(i0)->Ok_0)[k] as int,
            ),
    ensures
        compacted(d0, i0) is Ok,
{
    let m = parse_index(i0)->Ok_0;
    let keys = parse_index_order(i0);
    lemma_parse_order_keys(i0, 0, Map::empty(), Seq::empty());
    assert forall|i: int| 0 <= i < keys.len() implies record_whole_at(
        d0,
        #[trigger] m[keys[i]] as int,
    ) by {
        assert(keys.contains(keys[i]));
        assert(m.contains_key(keys[i]));
    }
    law_compaction_succeeds(d0, keys, m);
}

/// Law: a compaction begun on a data file and an index file that loads,
/// each of whose offsets holds a whole record, ends after the six steps
/// that the log directs with an empty log, the compacted data file, the
/// index file that maps each key to its new record, and no temporary file.
/// The one bound is that the compacted file fits the offsets of an index.
pub proof fn law_compaction_from_whole_files(
    d0: Seq<u8>,
    i0: Seq<u8>,
    data_temp: Option<Seq<u8>>,
    index_temp: Option<Seq<u8>>,
)
    requires
        parse_index(i0) is Ok,
        forall|k: Seq<u8>|
            #[trigger] (parse_index(i0)->Ok_0).contains_key(k) ==> record_whole_at(
                d0,
                (parse_index(i0)->Ok_0)[k] as int,
            ),
        compacted(d0, i0)->Ok_0.0.len() <= u64::MAX,
    ensures
        compacted(d0, i0) is Ok,
        ({
            let g = run_compaction(compaction_begun(d0, i0, data_temp, index_temp), 6);
            let (d1, es) = compacted(d0, i0)->Ok_0;
            &&& g.wal.len() == 0
            &&& g.data == Some(d1)
            &&& g.index == pairs_file(es)
            &&& parse_index(g.index) == Ok::<Map<Seq<u8>, u64>, AppError>(pairs_map(es))
            &&& g.data_temp is None
            &&& g.index_temp is None
        }),
{
    law_compacted_succeeds(d0, i0);
    law_compaction_from_start(d0, i0, data_temp, index_temp);
}

/// Once the log is empty, further fuel changes nothing.
proof fn lemma_run_settles(f: CompactFiles, d0: Seq<u8>, i0: Seq<u8>, k: nat, fuel: nat)
    requires
        compacted(d0, i0) is Ok,
        compacted(d0, i0)->Ok_0.0.len() <= u64::MAX,
        compact_inv(f, d0, i0),
        k == steps_left(f),
        k <= fuel,
    ensures
        run_compaction(f, fuel) == run_compaction(f, k),
    decreases k,
{
    if f.wal.len() > 0 {
        law_compaction_step(f, d0, i0);
        let a = spec_next_action(f.wal, f.data, f.index, f.data_temp is Some)->Ok_0;
        let n = apply_action(f, a);
        lemma_run_settles(n, d0, i0, steps_left(n), (fuel - 1) as nat);
        lemma_run_settles(n, d0, i0, steps_left(n), (k - 1) as nat);
    } else if fuel > 0 {
    }
}

impl CompactAction {
    /// The step that the compaction log records once this step is done;
    /// `None` when the log is then empty.
    pub fn wal_after(self) -> (op: Option<CompactOperation>)
        ensures
            forall|f: CompactFiles|
                self != CompactAction::Done ==> #[trigger] apply_action(f, self).wal == match op {
                    Some(o) => wal_at(o),
                    None => Seq::empty(),
                },
            self == CompactAction::Done ==> op is None,
    {
        match self {
            CompactAction::Done => None,
            CompactAction::CreateDataTemp => Some(CompactOperation::CreateIndex),
            CompactAction::CreateIndexTemp => Some(CompactOperation::CopyDataTo),
            CompactAction::WriteDataTemp => Some(CompactOperation::CopyIndexTo),
            CompactAction::WriteIndexTemp => Some(CompactOperation::ReplaceData),
            CompactAction::RenameData => Some(CompactOperation::ReplaceIndex),
            CompactAction::KeepData => Some(CompactOperation::ReplaceIndex),
            CompactAction::ReplaceIndex => None,
        }
    }
}

/// What the replacement of the data file does.
#[derive(Debug, PartialEq, Eq, Structural, Clone, Copy)]
pub enum ReplaceDataAction {
    /// The temporary data file is there: rename it over the data file.
    Rename,
    /// The temporary data file is gone: it was renamed already.
    AlreadyReplaced,
}

/// Decisions of a compaction and of the recovery of an interrupted one.
pub struct CompactRecovery;

impl CompactRecovery {
    /// Reads the step recorded in the compaction log: nothing when it is
    /// empty, else the step its first byte names, or
    /// `UnknownCompactOperation`.
    pub fn read_operation(wal: &[u8]) -> (res: Result<Option<CompactOperation>, AppError>)
        ensures
            wal@.len() == 0 ==> res == Ok::<Option<CompactOperation>, AppError>(None),
            wal@.len() > 0 ==> match compact_from_byte(wal@[0]) {
                Some(op) => res == Ok::<Option<CompactOperation>, AppError>(Some(op)),
                None => res == Err::<Option<CompactOperation>, AppError>(
                    AppError::UnknownCompactOperation,
                ),
            },
    {
        if wal.len() == 0 {
            return Ok(None);
        }
        let op = CompactOperation::from_bytes([wal[0]])?;
        Ok(Some(op))
    }

    /// Decides the next step of a compaction from the compaction log, the
    /// data file (`None` when it does not exist), the index file and
    /// whether the temporary data file exists, with the bytes that the
    /// step writes.
    pub fn recovery(wal: &[u8], data: Option<&[u8]>, index: &[u8], data_temp_exists: bool) -> (res:
        Result<CompactWork, AppError>)
        ensures
            match spec_next_action(wal@, opt_view(data), index@, data_temp_exists) {
                Ok(a) => res matches Ok(w) && w.action == a && w.bytes@ == action_bytes(
                    opt_view(data),
                    index@,
                    a,
                ),
                Err(e) => res matches Err(e2) && e2 == e,
            },
    {
        let op = match Self::read_operation(wal)? {
            None => {
                return Ok(CompactWork { action: CompactAction::Done, bytes: Vec::new() });
            },
            Some(op) => op,
        };
        match op {
            CompactOperation::CreateData => Ok(
                CompactWork { action: CompactAction::CreateDataTemp, bytes: Vec::new() },
            ),
            CompactOperation::CreateIndex => Ok(
                CompactWork { action: CompactAction::CreateIndexTemp, bytes: Vec::new() },
            ),
            CompactOperation::CopyDataTo => {
                let plan = Self::copy_data_to(data, index)?;
                Ok(CompactWork { action: CompactAction::WriteDataTemp, bytes: plan.data })
            },
            CompactOperation::CopyIndexTo => {
                let plan = Self::copy_data_to(data, index)?;
                Ok(CompactWork { action: CompactAction::WriteIndexTemp, bytes: plan.index })
            },
            CompactOperation::ReplaceData => {
                let action = match Self::replace_data(data.is_some(), data_temp_exists)? {
                    ReplaceDataAction::Rename => CompactAction::RenameData,
                    ReplaceDataAction::AlreadyReplaced => CompactAction::KeepData,
                };
                Ok(CompactWork { action, bytes: Vec::new() })
            },
            CompactOperation::ReplaceIndex => {
                let bytes = Self::replace_index(data)?;
                Ok(CompactWork { action: CompactAction::ReplaceIndex, bytes })
            },
        }
    }

    /// Builds the contents of the temporary files from the data file and
    /// the index file: a missing data file is `DbFileNotExist`; then the
    /// index is loaded (its errors are returned) and the data is compacted
    /// with the keys in the order in which each first occurs in the index
    /// file.
    pub fn copy_data_to(data: Option<&[u8]>, index_file: &[u8]) -> (res: Result<CompactPlan, AppError>)
        ensures
            match data {
                None => res matches Err(e) && e == AppError::DbFileNotExist,
                Some(d) => match compacted(d@, index_file@) {
                    Ok((nd, es)) => res matches Ok(plan) && plan.data@ == nd && plan.index@
                        == pairs_file(es),
                    Err(e) => res matches Err(e2) && e2 == e,
                },
            },
    {
        let data = match data {
            None => {
                return Err(AppError::DbFileNotExist);
            },
            Some(d) => d,
        };
        let index = Index::build_index(index_file)?;
        let (new_data, new_index) = compact_data(data, &index)?;
        let plan = CompactPlan { data: new_data, index: new_index.file_contents() };
        Ok(plan)
    }

    /// Decides how the data file is replaced: a missing data file is
    /// `DbFileNotExist`; a missing temporary data file was renamed already.
    pub fn replace_data(data_exists: bool, temp_exists: bool) -> (res: Result<ReplaceDataAction, AppError>)
        ensures
            !data_exists ==> res == Err::<ReplaceDataAction, AppError>(AppError::DbFileNotExist),
            data_exists && temp_exists ==> res == Ok::<ReplaceDataAction, AppError>(
                ReplaceDataAction::Rename,
            ),
            data_exists && !temp_exists ==> res == Ok::<ReplaceDataAction, AppError>(
                ReplaceDataAction::AlreadyReplaced,
            ),
    {
        if !data_exists {
            return Err(AppError::DbFileNotExist);
        }
        if !temp_exists {
            Ok(ReplaceDataAction::AlreadyReplaced)
        } else {
            Ok(ReplaceDataAction::Rename)
        }
    }

    /// The index file that replaces the old one once the data file was
    /// replaced, rebuilt from the data file: a missing data file is
    /// `DbFileNotExist`; see `rebuild_index_file` for the rest.
    pub fn replace_index(data: Option<&[u8]>) -> (res: Result<Vec<u8>, AppError>)
        ensures
            match data {
                None => res matches Err(e) && e == AppError::DbFileNotExist,
                Some(d) => match scan_records(d@) {
                    Ok(es) => res matches Ok(file) && file@ == pairs_file(es),
                    Err(e) => res matches Err(e2) && e2 == e,
                },
            },
    {
        match data {
            None => Err(AppError::DbFileNotExist),
            Some(d) => rebuild_index_file(d),
        }
    }
}

} // verus!
