//! Buffering of records.
//!
//! The [`Buffer`] takes records in any order, keeps a bounded in-memory run
//! and spills it as a sorted run whenever it fills. On demand it merges the
//! runs and writes every record up to a timestamp, earliest first.
//!
//! The buffer does not store the runs itself. A [`Spill`] is a run to store;
//! for a merge the unread bytes of every stored run are handed back in, and
//! checked before anything is done with them.

pub mod in_memory;
pub mod on_disk;

use crate::buffer::in_memory::sorted;
use crate::buffer::on_disk::holds_run;
use crate::buffer::on_disk::is_run;
use crate::buffer::on_disk::lemma_one_run;
use crate::buffer::on_disk::CorruptRun;
use crate::buffer::on_disk::FileStorage;
use crate::buffer::on_disk::FileStorageReader;
use crate::data::Record;
use crate::data::RecordView;
use crate::data::Timestamp;
use crate::output::Writer;
use crate::wire::encodable;
use crate::wire::encoding_of_all;
use vstd::multiset::Multiset;
use vstd::prelude::*;

verus! {

/// [`Buffer`] configuration
pub struct Config {
    /// Number of records is allowed to store in memory
    pub max_in_memory: usize,
    /// Buffer capacity for reading from each file buffer, i.e. merge-sort
    /// buffer capacity
    pub file_read_buf_capacity: usize,
}

/// The number of dumped records
#[derive(Clone, Copy, Debug, PartialEq, Eq)]
pub struct DumpedCount(pub usize);

/// A run that was spilled: the bytes to store as the file that `id` names.
#[derive(Debug, PartialEq, Eq)]
pub struct Spill {
    /// The number that names the file.
    pub id: usize,
    /// What the file is to hold.
    pub bytes: Vec<u8>,
}

/// The records of several runs together, without their order.
pub open spec fn union_of(runs: Seq<Seq<RecordView>>) -> Multiset<RecordView>
    decreases runs.len(),
{
    if runs.len() == 0 {
        Multiset::empty()
    } else {
        union_of(runs.drop_last()).add(runs.last().to_multiset())
    }
}

/// The pending records of each file, file by file.
pub open spec fn runs_of_files(files: Seq<FileStorage>) -> Seq<Seq<RecordView>> {
    Seq::new(files.len(), |i: int| files[i].pending())
}

/// Whether the numbers come in rising order, none twice.
pub open spec fn rising(ids: Seq<usize>) -> bool {
    forall|i: int, j: int| 0 <= i < j < ids.len() ==> ids[i] < ids[j]
}

/// The number that names each file, file by file.
pub open spec fn ids_of_files(files: Seq<FileStorage>) -> Seq<usize> {
    Seq::new(files.len(), |i: int| files[i].id())
}

/// The cursor of each file, file by file.
pub open spec fn positions_of_files(files: Seq<FileStorage>) -> Seq<usize> {
    Seq::new(files.len(), |i: int| files[i].position())
}

/// The bytes of each vector, vector by vector.
pub open spec fn views_of(contents: Seq<Vec<u8>>) -> Seq<Seq<u8>> {
    Seq::new(contents.len(), |i: int| contents[i]@)
}

/// The records that `bytes` are the bytes of. There is one such sequence at
/// most, see [`lemma_one_run`].
pub open spec fn records_in(bytes: Seq<u8>) -> Seq<RecordView> {
    choose|records: Seq<RecordView>|
        encoding_of_all(records) == bytes && forall|i: int|
            0 <= i < records.len() ==> encodable(#[trigger] records[i])
}

/// The records that each of `contents` holds.
pub open spec fn runs_in(contents: Seq<Seq<u8>>) -> Seq<Seq<RecordView>> {
    Seq::new(contents.len(), |i: int| records_in(contents[i]))
}

/// Bytes that hold a run hold the records of that run and no others.
pub proof fn lemma_records_in(bytes: Seq<u8>, records: Seq<RecordView>, count: nat)
    requires
        holds_run(bytes, records, count),
    ensures
        records_in(bytes) == records,
{
    let found = records_in(bytes);
    lemma_one_run(found, records);
}

/// The pending records of each reader, reader by reader.
pub open spec fn runs_of_readers(readers: Seq<FileStorageReader>) -> Seq<Seq<RecordView>> {
    Seq::new(readers.len(), |i: int| readers[i].pending())
}

/// Whether `earliest` is the least timestamp among `records`: none where
/// there is no record.
pub open spec fn is_earliest_of(earliest: Option<Timestamp>, records: Multiset<RecordView>) -> bool {
    match earliest {
        None => records.len() == 0,
        Some(ts) => {
            &&& exists|r: RecordView| #[trigger] records.count(r) > 0 && r.timestamp() == ts.0
            &&& forall|r: RecordView| #[trigger] records.count(r) > 0 ==> ts.0 <= r.timestamp()
        },
    }
}

/// A record of the union stands in one of the runs.
pub proof fn lemma_union_member(runs: Seq<Seq<RecordView>>, r: RecordView)
    requires
        union_of(runs).count(r) > 0,
    ensures
        exists|i: int, j: int|
            0 <= i < runs.len() && 0 <= j < runs[i].len() && (#[trigger] runs[i][j]) == r,
    decreases runs.len(),
{
    if runs.len() > 0 {
        let last = runs.last();
        last.to_multiset_ensures();
        if last.to_multiset().count(r) > 0 {
            assert(last.contains(r));
            let j = choose|j: int| 0 <= j < last.len() && last[j] == r;
            assert(runs[runs.len() - 1][j] == r);
        } else {
            lemma_union_member(runs.drop_last(), r);
            let (i, j) = choose|i: int, j: int|
                0 <= i < runs.drop_last().len() && 0 <= j < runs.drop_last()[i].len() && (
                #[trigger] runs.drop_last()[i][j]) == r;
            assert(runs[i][j] == r);
        }
    }
}

/// A record of one of the runs stands in the union.
pub proof fn lemma_member_of_union(runs: Seq<Seq<RecordView>>, i: int, j: int)
    requires
        0 <= i < runs.len(),
        0 <= j < runs[i].len(),
    ensures
        union_of(runs).count(runs[i][j]) > 0,
    decreases runs.len(),
{
    if i == runs.len() - 1 {
        runs.last().to_multiset_ensures();
        assert(runs.last().contains(runs[i][j]));
    } else {
        lemma_member_of_union(runs.drop_last(), i, j);
    }
}

/// The union grows by the records of a run that is added.
pub proof fn lemma_union_push(runs: Seq<Seq<RecordView>>, run: Seq<RecordView>)
    ensures
        union_of(runs.push(run)) == union_of(runs).add(run.to_multiset()),
{
    assert(runs.push(run).drop_last() =~= runs);
}

/// Consuming the first record of one run takes that record out of the union.
pub proof fn lemma_union_advance(runs: Seq<Seq<RecordView>>, i: int)
    requires
        0 <= i < runs.len(),
        runs[i].len() > 0,
    ensures
        union_of(runs) == union_of(runs.update(i, runs[i].drop_first())).insert(runs[i][0]),
    decreases runs.len(),
{
    let after = runs.update(i, runs[i].drop_first());
    if i == runs.len() - 1 {
        let run = runs[i];
        assert(after.drop_last() =~= runs.drop_last());
        assert(run.drop_first() =~= run.remove(0));
        run.to_multiset_ensures();
        assert(run.contains(run[0]));
        assert(run.to_multiset() =~= run.drop_first().to_multiset().insert(run[0]));
        assert(union_of(runs) =~= union_of(after).insert(run[0]));
    } else {
        lemma_union_advance(runs.drop_last(), i);
        assert(after.drop_last() =~= runs.drop_last().update(i, runs[i].drop_first()));
        assert(union_of(runs) =~= union_of(after).insert(runs[i][0]));
    }
}

/// The union of runs that are all used up is empty.
pub proof fn lemma_union_of_empty_runs(runs: Seq<Seq<RecordView>>)
    requires
        forall|i: int| 0 <= i < runs.len() ==> (#[trigger] runs[i]).len() == 0,
    ensures
        union_of(runs) == Multiset::<RecordView>::empty(),
    decreases runs.len(),
{
    if runs.len() > 0 {
        lemma_union_of_empty_runs(runs.drop_last());
        runs.last().to_multiset_ensures();
        assert(runs.last().to_multiset().len() == 0);
        assert(runs.last().to_multiset() =~= Multiset::empty());
        assert(union_of(runs) =~= Multiset::empty());
    }
}

/// Whether `run` has a record that is not due at `ts`.
pub open spec fn has_later(run: Seq<RecordView>, ts: Timestamp) -> bool {
    exists|k: int| 0 <= k < run.len() && (#[trigger] run[k]).timestamp() > ts.0
}

/// The records that are due at `ts`: those with a timestamp up to it.
pub open spec fn due(records: Multiset<RecordView>, ts: Timestamp) -> Multiset<RecordView> {
    records.filter(|r: RecordView| r.timestamp() <= ts.0)
}

/// The records that are not due at `ts`: those with a later timestamp.
pub open spec fn not_due(records: Multiset<RecordView>, ts: Timestamp) -> Multiset<RecordView> {
    records.filter(|r: RecordView| r.timestamp() > ts.0)
}

/// Records that split into some up to `ts` and others after it split into
/// those that are due and those that are not.
pub proof fn lemma_split_at(
    all: Multiset<RecordView>,
    early: Multiset<RecordView>,
    late: Multiset<RecordView>,
    ts: Timestamp,
)
    requires
        all == early.add(late),
        forall|r: RecordView| #[trigger] early.count(r) > 0 ==> r.timestamp() <= ts.0,
        forall|r: RecordView| #[trigger] late.count(r) > 0 ==> r.timestamp() > ts.0,
    ensures
        early == due(all, ts),
        late == not_due(all, ts),
{
    assert(early =~= due(all, ts));
    assert(late =~= not_due(all, ts));
}

/// A record is dumped at most once for each time it was pushed. Of the
/// records `resident` a first dump writes `first` and leaves `between`; then
/// `pushed` come in; a second dump writes `second` and leaves `left`. A
/// record is then written no more often than it was there or came in, and
/// what was not written is still there.
pub proof fn lemma_dumped_at_most_once(
    resident: Multiset<RecordView>,
    first: Multiset<RecordView>,
    between: Multiset<RecordView>,
    pushed: Multiset<RecordView>,
    second: Multiset<RecordView>,
    left: Multiset<RecordView>,
    r: RecordView,
)
    requires
        resident == first.add(between),
        between.add(pushed) == second.add(left),
    ensures
        first.count(r) + second.count(r) + left.count(r) == resident.count(r) + pushed.count(r),
        first.count(r) + second.count(r) <= resident.count(r) + pushed.count(r),
{
    assert(first.add(between).count(r) == first.count(r) + between.count(r));
    assert(between.add(pushed).count(r) == between.count(r) + pushed.count(r));
    assert(second.add(left).count(r) == second.count(r) + left.count(r));
}

/// The order of the runs does not matter to their union.
proof fn lemma_union_reverse(runs: Seq<Seq<RecordView>>)
    ensures
        union_of(runs.reverse()) == union_of(runs),
    decreases runs.len(),
{
    if runs.len() > 0 {
        let rest = runs.drop_last();
        lemma_union_reverse(rest);
        assert(runs.reverse() =~= seq![runs.last()] + rest.reverse());
        lemma_union_front(rest.reverse(), runs.last());
    } else {
        assert(runs.reverse() =~= runs);
    }
}

/// Records of runs that are as long, run by run, are as many.
proof fn lemma_union_len(first: Seq<Seq<RecordView>>, second: Seq<Seq<RecordView>>)
    requires
        first.len() == second.len(),
        forall|i: int| 0 <= i < first.len() ==> (#[trigger] first[i]).len() == second[i].len(),
    ensures
        union_of(first).len() == union_of(second).len(),
    decreases first.len(),
{
    if first.len() > 0 {
        lemma_union_len(first.drop_last(), second.drop_last());
        first.last().to_multiset_ensures();
        second.last().to_multiset_ensures();
    }
}

/// The union grows by the records of a run that is put in front.
proof fn lemma_union_front(runs: Seq<Seq<RecordView>>, run: Seq<RecordView>)
    ensures
        union_of(seq![run] + runs) == union_of(runs).add(run.to_multiset()),
    decreases runs.len(),
{
    if runs.len() == 0 {
        assert(seq![run] + runs =~= Seq::empty().push(run));
        lemma_union_push(Seq::empty(), run);
        assert(union_of(seq![run] + runs) =~= union_of(runs).add(run.to_multiset()));
    } else {
        lemma_union_front(runs.drop_last(), run);
        assert((seq![run] + runs).drop_last() =~= seq![run] + runs.drop_last());
        assert(union_of(seq![run] + runs) =~= union_of(runs).add(run.to_multiset()));
    }
}

/// Whether the record at the place `first` is written before the record at
/// the place `second` when runs are merged. A place is a run and an index in
/// that run. The earlier record goes first; of two records with one
/// timestamp the one of the run that stands first, and within a run the one
/// that stands first.
pub open spec fn comes_before(runs: Seq<Seq<RecordView>>, first: (int, int), second: (int, int)) -> bool {
    let one = runs[first.0][first.1].timestamp();
    let other = runs[second.0][second.1].timestamp();
    one < other || (one == other && (first.0 < second.0 || (first.0 == second.0 && first.1
        < second.1)))
}

/// Whether `written` are records of `runs` in the order of a merge: record
/// `k` is the one at the place `origin[k]`, and each is written before those
/// behind it, see [`comes_before`].
pub open spec fn merged_from(
    written: Seq<RecordView>,
    origin: Seq<(int, int)>,
    runs: Seq<Seq<RecordView>>,
) -> bool {
    &&& origin.len() == written.len()
    &&& forall|k: int|
        0 <= k < written.len() ==> {
            let place = #[trigger] origin[k];
            &&& 0 <= place.0 < runs.len()
            &&& 0 <= place.1 < runs[place.0].len()
            &&& written[k] == runs[place.0][place.1]
        }
    &&& forall|k: int, l: int|
        0 <= k < l < written.len() ==> comes_before(runs, #[trigger] origin[k], #[trigger] origin[l])
}

/// Whether `written` is what a dump writes of the stored runs `stored` and of
/// the in-memory run: the records at the places `origin`, in the order of a
/// merge of the stored runs, oldest first, and behind them `last_run`, which
/// is the in-memory run in sorted order. Where the in-memory run is handed
/// out to be stored, `handed_out` are its bytes.
pub open spec fn merged_with(
    written: Seq<RecordView>,
    origin: Seq<(int, int)>,
    stored: Seq<Seq<RecordView>>,
    last_run: Seq<RecordView>,
    in_memory: Multiset<RecordView>,
    handed_out: Option<Seq<u8>>,
) -> bool {
    &&& merged_from(written, origin, stored.push(last_run))
    &&& sorted(last_run)
    &&& last_run.to_multiset() == in_memory
    &&& handed_out is Some ==> handed_out.unwrap() == encoding_of_all(last_run)
}

/// The bytes of a run that is handed out, if one is.
pub open spec fn bytes_of(spill: Option<Spill>) -> Option<Seq<u8>> {
    match spill {
        Some(spill) => Some(spill.bytes@),
        None => None,
    }
}

/// How far a merge has come. Reader `r` of `readers` readers is on run
/// `readers - 1 - r` and gave its first `consumed[r]` records; `emitted` are
/// the records given so far, in the order of a merge, and each is written
/// before every record that no reader gave yet.
#[verifier::opaque]
spec fn merging(
    runs: Seq<Seq<RecordView>>,
    readers: int,
    consumed: Seq<int>,
    emitted: Seq<RecordView>,
    origin: Seq<(int, int)>,
) -> bool {
    &&& merged_from(emitted, origin, runs)
    &&& forall|k: int| 0 <= k < origin.len() ==> (#[trigger] origin[k]).0 < readers
    &&& forall|k: int, r: int, j: int|
        0 <= k < origin.len() && 0 <= r < readers && consumed[r] <= j < runs[readers - 1 - r].len()
            ==> #[trigger] comes_before(runs, origin[k], (readers - 1 - r, j))
}

/// A merge starts with nothing given.
proof fn lemma_merging_starts(runs: Seq<Seq<RecordView>>, readers: int, consumed: Seq<int>)
    ensures
        merging(runs, readers, consumed, Seq::empty(), Seq::empty()),
{
    reveal(merging);
}

/// A merge goes on with the earliest record at hand, and among equals with
/// the one of the reader that stands last: it is written behind all that
/// were given and before all that are left.
proof fn lemma_merging_goes_on(
    runs: Seq<Seq<RecordView>>,
    readers: int,
    consumed: Seq<int>,
    emitted: Seq<RecordView>,
    origin: Seq<(int, int)>,
    at: int,
)
    requires
        merging(runs, readers, consumed, emitted, origin),
        0 <= at < readers <= runs.len(),
        consumed.len() == readers,
        forall|i: int| 0 <= i < runs.len() ==> sorted(#[trigger] runs[i]),
        forall|r: int|
            0 <= r < readers ==> 0 <= #[trigger] consumed[r] <= runs[readers - 1 - r].len(),
        consumed[at] < runs[readers - 1 - at].len(),
        forall|r: int|
            0 <= r < readers && (#[trigger] consumed[r]) < runs[readers - 1 - r].len()
                ==> runs[readers - 1 - at][consumed[at]].timestamp() <= runs[readers - 1
                - r][consumed[r]].timestamp(),
        forall|r: int|
            at < r < readers && (#[trigger] consumed[r]) < runs[readers - 1 - r].len()
                ==> runs[readers - 1 - at][consumed[at]].timestamp() < runs[readers - 1
                - r][consumed[r]].timestamp(),
    ensures
        merging(
            runs,
            readers,
            consumed.update(at, consumed[at] + 1),
            emitted.push(runs[readers - 1 - at][consumed[at]]),
            origin.push((readers - 1 - at, consumed[at])),
        ),
{
    reveal(merging);
    let place = (readers - 1 - at, consumed[at]);
    let ts = runs[place.0][place.1].timestamp();
    let consumed2 = consumed.update(at, consumed[at] + 1);
    let emitted2 = emitted.push(runs[place.0][place.1]);
    let origin2 = origin.push(place);
    assert forall|k: int, l: int| 0 <= k < l < emitted2.len() implies comes_before(
        runs,
        #[trigger] origin2[k],
        #[trigger] origin2[l],
    ) by {
        if l == origin.len() {
            assert(comes_before(runs, origin[k], (readers - 1 - at, consumed[at])));
        } else {
            assert(comes_before(runs, origin[k], origin[l]));
        }
    }
    assert forall|k: int, r: int, j: int|
        0 <= k < origin2.len() && 0 <= r < readers && consumed2[r] <= j < runs[readers - 1
            - r].len() implies #[trigger] comes_before(runs, origin2[k], (readers - 1 - r, j)) by {
        let run = runs[readers - 1 - r];
        if k < origin.len() {
            assert(comes_before(runs, origin[k], (readers - 1 - r, j)));
        } else if r == at {
            assert(run[consumed[at]].timestamp() <= run[j].timestamp());
        } else {
            assert(run[consumed[r]].timestamp() <= run[j].timestamp());
            assert(ts <= run[consumed[r]].timestamp());
            if r > at {
                assert(ts < run[consumed[r]].timestamp());
            }
        }
    }
}

/// What a merge gave is in the order of a merge.
proof fn lemma_merging_ends(
    runs: Seq<Seq<RecordView>>,
    readers: int,
    consumed: Seq<int>,
    emitted: Seq<RecordView>,
    origin: Seq<(int, int)>,
    stored: Seq<Seq<RecordView>>,
    last_run: Seq<RecordView>,
    in_memory: Multiset<RecordView>,
    handed_out: Option<Seq<u8>>,
)
    requires
        merging(runs, readers, consumed, emitted, origin),
        runs == stored.push(last_run),
        forall|i: int| 0 <= i < runs.len() ==> sorted(#[trigger] runs[i]),
        last_run.to_multiset() == in_memory,
        handed_out is Some ==> handed_out.unwrap() == encoding_of_all(last_run),
    ensures
        merged_with(emitted, origin, stored, last_run, in_memory, handed_out),
{
    reveal(merging);
    assert(runs[runs.len() - 1] == last_run);
}

/// The number that names the file of each reader, reader by reader.
pub open spec fn ids_of_readers(readers: Seq<FileStorageReader>) -> Seq<usize> {
    Seq::new(readers.len(), |i: int| readers[i].id())
}

/// After a merge the files that are left are those of the runs with a
/// record that is not due. The readers stand in the reverse order of the
/// files, behind `shift` readers of their own; `consumed` tells how many
/// records each gave; `sources` tells the reader that each file left comes
/// from, and `targets` tells the file that is left of each reader.
proof fn lemma_runs_left(
    ids_before: Seq<usize>,
    runs: Seq<Seq<RecordView>>,
    reader_ids: Seq<usize>,
    starts: Seq<Seq<RecordView>>,
    ends: Seq<Seq<RecordView>>,
    consumed: Seq<int>,
    ids: Seq<usize>,
    sources: Seq<int>,
    targets: Seq<int>,
    shift: int,
    ts: Timestamp,
)
    requires
        0 <= shift,
        runs.len() == ids_before.len(),
        reader_ids.len() == ids_before.len() + shift,
        starts.len() == reader_ids.len(),
        ends.len() == reader_ids.len(),
        consumed.len() == reader_ids.len(),
        sources.len() == ids.len(),
        targets.len() == reader_ids.len(),
        forall|k: int|
            0 <= k < reader_ids.len() ==> 0 <= #[trigger] consumed[k] <= starts[k].len() && ends[k]
                == starts[k].skip(consumed[k]),
        forall|k: int, j: int|
            0 <= k < reader_ids.len() && 0 <= j < consumed[k] ==> (
            #[trigger] starts[k][j]).timestamp() <= ts.0,
        forall|k: int|
            0 <= k < reader_ids.len() && (#[trigger] ends[k]).len() > 0 ==> ends[k][0].timestamp()
                > ts.0,
        forall|a: int, b: int|
            0 <= a < b < reader_ids.len() ==> #[trigger] reader_ids[a] > #[trigger] reader_ids[b],
        forall|i: int|
            0 <= i < ids.len() ==> 0 <= #[trigger] sources[i] < reader_ids.len() && ids[i]
                == reader_ids[sources[i]] && ends[sources[i]].len() > 0,
        forall|k: int|
            0 <= k < reader_ids.len() && ends[k].len() > 0 ==> 0 <= #[trigger] targets[k]
                < ids.len() && sources[targets[k]] == k,
        forall|i: int|
            0 <= i < ids_before.len() ==> (#[trigger] reader_ids[ids_before.len() - 1 - i + shift])
                == ids_before[i] && starts[ids_before.len() - 1 - i + shift] == runs[i],
    ensures
        forall|i: int|
            0 <= i < ids_before.len() ==> (ids.contains(#[trigger] ids_before[i]) <==> has_later(
                runs[i],
                ts,
            )),
{
    assert forall|i: int| 0 <= i < ids_before.len() implies (ids.contains(
        #[trigger] ids_before[i],
    ) <==> has_later(runs[i], ts)) by {
        let at = ids_before.len() - 1 - i + shift;
        let run = runs[i];
        assert(reader_ids[at] == ids_before[i]);
        assert(starts[at] == run);
        if ids.contains(ids_before[i]) {
            let j = choose|j: int| 0 <= j < ids.len() && ids[j] == ids_before[i];
            let m = sources[j];
            assert(m == at) by {
                if m < at {
                    assert(reader_ids[m] > reader_ids[at]);
                } else if m > at {
                    assert(reader_ids[at] > reader_ids[m]);
                }
            }
            assert(ends[at][0] == run[consumed[at]]);
            assert(has_later(run, ts));
        }
        if has_later(run, ts) {
            let k = choose|k: int| 0 <= k < run.len() && (#[trigger] run[k]).timestamp() > ts.0;
            assert(k >= consumed[at]);
            assert(ends[at].len() > 0);
            let j = targets[at];
            assert(ids[j] == ids_before[i]);
        }
    }
}

/// Whether `bytes` can be read as what `file` holds from its cursor on.
pub open spec fn readable(file: FileStorage, bytes: Seq<u8>) -> bool {
    is_run(bytes, file.pending().len()) && file.position() + bytes.len() <= usize::MAX
}

/// Opens a reader on every file, last file first, each on its bytes. The
/// bytes of a file are turned down where they are not a run as the file
/// counts it.
fn open_readers(files: &Vec<FileStorage>, contents: Vec<Vec<u8>>, capacity: usize) -> (opened:
    Result<Vec<FileStorageReader>, CorruptRun>)
    requires
        forall|i: int| 0 <= i < files@.len() ==> (#[trigger] files@[i]).wf(),
        contents@.len() == files@.len(),
    ensures
        opened is Ok <==> forall|i: int|
            0 <= i < files@.len() ==> readable(#[trigger] files@[i], contents@[i]@),
        match opened {
            Ok(readers) => {
                &&& readers@.len() == files@.len()
                &&& forall|i: int| 0 <= i < readers@.len() ==> (#[trigger] readers@[i]).wf()
                &&& forall|i: int|
                    0 <= i < readers@.len() ==> {
                        let k = readers@.len() - 1 - i;
                        &&& (#[trigger] readers@[i]).id() == files@[k].id()
                        &&& readers@[i].origin() == files@[k].position()
                        &&& readers@[i].contents() == contents@[k]@
                        &&& readers@[i].pending() == records_in(contents@[k]@)
                        &&& readers@[i].pending().len() == files@[k].pending().len()
                        &&& (contents@[k]@ == files@[k].unread() ==> readers@[i].pending()
                            == files@[k].pending())
                    }
                &&& union_of(runs_of_readers(readers@)) == union_of(runs_in(views_of(contents@)))
            },
            Err(error) => exists|i: int|
                0 <= i < files@.len() && (#[trigger] files@[i]).id() == error.id && !readable(
                    files@[i],
                    contents@[i]@,
                ) && forall|k: int|
                    i < k < files@.len() ==> readable(#[trigger] files@[k], contents@[k]@),
        },
{
    let ghost given = contents@;
    let mut rest = contents;
    let mut readers: Vec<FileStorageReader> = Vec::new();
    let ghost total = files@.len();
    let ghost runs = runs_in(views_of(given));
    let mut at = files.len();
    proof {
        assert(runs_of_readers(readers@) =~= Seq::empty());
        assert(runs.subrange(0, at as int) =~= runs);
        assert(union_of(runs.subrange(0, at as int)).add(union_of(runs_of_readers(readers@)))
            =~= union_of(runs));
    }
    while at > 0
        invariant
            at <= total,
            total == files@.len(),
            given.len() == total,
            runs == runs_in(views_of(given)),
            at + readers@.len() == total,
            given == contents@,
            rest@ == given.subrange(0, at as int),
            forall|i: int| 0 <= i < files@.len() ==> (#[trigger] files@[i]).wf(),
            forall|i: int| at <= i < total ==> readable(#[trigger] files@[i], given[i]@),
            forall|i: int| 0 <= i < readers@.len() ==> (#[trigger] readers@[i]).wf(),
            forall|i: int|
                0 <= i < readers@.len() ==> {
                    let k = total - 1 - i;
                    &&& (#[trigger] readers@[i]).id() == files@[k].id()
                    &&& readers@[i].origin() == files@[k].position()
                    &&& readers@[i].contents() == given[k]@
                    &&& readers@[i].pending() == records_in(given[k]@)
                    &&& readers@[i].pending().len() == files@[k].pending().len()
                    &&& (given[k]@ == files@[k].unread() ==> readers@[i].pending()
                        == files@[k].pending())
                },
            union_of(runs.subrange(0, at as int)).add(union_of(runs_of_readers(readers@)))
                == union_of(runs),
        decreases at,
    {
        let ghost readers_before = readers@;
        at = at - 1;
        let bytes = rest.pop().unwrap();
        assert(bytes == given[at as int]);
        let reader = match files[at].read(capacity, bytes) {
            Ok(reader) => reader,
            Err(error) => {
                assert(!readable(files@[at as int], given[at as int]@));
                return Err(error);
            },
        };
        assert(readable(files@[at as int], given[at as int]@));
        proof {
            lemma_records_in(given[at as int]@, reader.pending(), files@[at as int].pending().len());
        }
        readers.push(reader);
        proof {
            assert(runs.subrange(0, at + 1).drop_last() =~= runs.subrange(0, at as int));
            assert(runs.subrange(0, at + 1).last() == reader.pending());
            assert(runs_of_readers(readers@) =~= runs_of_readers(readers_before).push(
                reader.pending(),
            ));
            lemma_union_push(runs_of_readers(readers_before), reader.pending());
            assert(union_of(runs.subrange(0, at as int)).add(union_of(runs_of_readers(readers@)))
                =~= union_of(runs.subrange(0, at + 1)).add(
                union_of(runs_of_readers(readers_before)),
            ));
        }
    }
    proof {
        assert(runs.subrange(0, 0) =~= Seq::empty());
        assert(union_of(runs_of_readers(readers@)) =~= union_of(runs));
    }
    Ok(readers)
}

/// Finds the reader whose record at hand is the earliest, and that record's
/// timestamp. Among equals the reader of the highest index wins, which is
/// the one on the oldest run; `None` where no reader has a record at hand.
fn select_earliest(readers: &Vec<FileStorageReader>) -> (found: Option<(usize, Timestamp)>)
    requires
        forall|i: int| 0 <= i < readers@.len() ==> (#[trigger] readers@[i]).wf(),
    ensures
        match found {
            None => forall|i: int|
                0 <= i < readers@.len() ==> (#[trigger] readers@[i]).pending().len() == 0,
            Some((at, ts)) => {
                &&& at < readers@.len()
                &&& readers@[at as int].pending().len() > 0
                &&& readers@[at as int].pending()[0].timestamp() == ts.0
                &&& forall|i: int|
                    0 <= i < readers@.len() && (#[trigger] readers@[i]).pending().len() > 0
                        ==> ts.0 <= readers@[i].pending()[0].timestamp()
                &&& forall|i: int|
                    at < i < readers@.len() && (#[trigger] readers@[i]).pending().len() > 0
                        ==> ts.0 < readers@[i].pending()[0].timestamp()
            },
        },
{
    let mut found: Option<(usize, Timestamp)> = None;
    let mut i = readers.len();
    while i > 0
        invariant
            i <= readers@.len(),
            forall|k: int| 0 <= k < readers@.len() ==> (#[trigger] readers@[k]).wf(),
            match found {
                None => forall|k: int|
                    i <= k < readers@.len() ==> (#[trigger] readers@[k]).pending().len() == 0,
                Some((at, ts)) => {
                    &&& i <= at < readers@.len()
                    &&& readers@[at as int].pending().len() > 0
                    &&& readers@[at as int].pending()[0].timestamp() == ts.0
                    &&& forall|k: int|
                        i <= k < readers@.len() && (#[trigger] readers@[k]).pending().len() > 0
                            ==> ts.0 <= readers@[k].pending()[0].timestamp()
                    &&& forall|k: int|
                        at < k < readers@.len() && (#[trigger] readers@[k]).pending().len() > 0
                            ==> ts.0 < readers@[k].pending()[0].timestamp()
                },
            },
        decreases i,
    {
        i = i - 1;
        match readers[i].last() {
            None => {},
            Some(record) => {
                let ts = record.timestamp();
                let earlier = match found {
                    None => true,
                    Some((_, best)) => ts.0 < best.0,
                };
                if earlier {
                    found = Some((i, ts));
                }
            },
        }
    }
    found
}

/// Closes every reader and keeps the files that still have records, in the
/// reverse of the readers' order. Where `fresh`, the first reader is on a run
/// that was not stored yet: its bytes are kept if the run still has records.
fn close_readers(readers: Vec<FileStorageReader>, bound: usize, fresh: bool) -> (closed: (
    Vec<FileStorage>,
    Option<Vec<u8>>,
    Ghost<Seq<int>>,
    Ghost<Seq<int>>,
))
    requires
        forall|i: int| 0 <= i < readers@.len() ==> (#[trigger] readers@[i]).wf(),
        forall|i: int| 0 <= i < readers@.len() ==> (#[trigger] readers@[i]).id() < bound,
        forall|i: int, j: int|
            0 <= i < j < readers@.len() ==> (#[trigger] readers@[i]).id() > (
            #[trigger] readers@[j]).id(),
        fresh ==> readers@.len() > 0,
    ensures
        forall|i: int|
            0 <= i < closed.0@.len() ==> (#[trigger] closed.0@[i]).wf()
                && closed.0@[i].pending().len() > 0 && closed.0@[i].id() < bound,
        rising(ids_of_files(closed.0@)),
        union_of(runs_of_files(closed.0@)) == union_of(runs_of_readers(readers@)),
        closed.1 is Some <==> fresh && readers@[0].pending().len() > 0,
        closed.1 is Some ==> {
            &&& closed.0@.len() > 0
            &&& closed.0@.last().id() == readers@[0].id()
            &&& closed.1.unwrap()@ == readers@[0].contents()
            &&& readers@[0].origin() <= closed.0@.last().position() <= readers@[0].origin()
                + readers@[0].contents().len()
            &&& closed.0@.last().unread() == readers@[0].contents().skip(
                closed.0@.last().position() - readers@[0].origin(),
            )
        },
        closed.3@.len() == readers@.len(),
        forall|j: int|
            0 <= j < readers@.len() && readers@[j].pending().len() > 0 ==> 0 <= (
            #[trigger] closed.3@[j]) < closed.0@.len() && closed.2@[closed.3@[j]] == j,
        closed.2@.len() == closed.0@.len(),
        forall|i: int|
            0 <= i < closed.0@.len() ==> {
                let j = #[trigger] closed.2@[i];
                &&& 0 <= j < readers@.len()
                &&& closed.0@[i].id() == readers@[j].id()
                &&& readers@[j].pending().len() > 0
                &&& closed.0@[i].position() == readers@[j].position()
                &&& closed.0@[i].pending() == readers@[j].pending()
            },
{
    let mut readers = readers;
    let ghost opened = readers@;
    let mut files: Vec<FileStorage> = Vec::new();
    let mut kept: Option<Vec<u8>> = None;
    let ghost mut sources: Seq<int> = Seq::empty();
    let ghost mut targets: Seq<int> = Seq::new(readers@.len(), |j: int| -1int);
    proof {
        assert(runs_of_files(files@) =~= Seq::empty());
        assert(union_of(runs_of_readers(readers@)).add(union_of(runs_of_files(files@)))
            =~= union_of(runs_of_readers(opened)));
    }
    while readers.len() > 0
        invariant
            readers@.len() <= opened.len(),
            readers@ =~= opened.subrange(0, readers@.len() as int),
            forall|i: int| 0 <= i < opened.len() ==> (#[trigger] opened[i]).wf(),
            forall|i: int| 0 <= i < opened.len() ==> (#[trigger] opened[i]).id() < bound,
            forall|i: int, j: int|
                0 <= i < j < opened.len() ==> (#[trigger] opened[i]).id() > (
                #[trigger] opened[j]).id(),
            forall|i: int, j: int|
                0 <= i < readers@.len() && 0 <= j < files@.len() ==> (#[trigger] opened[i]).id()
                    > (#[trigger] files@[j]).id(),
            forall|i: int, j: int|
                0 <= i < j < files@.len() ==> (#[trigger] files@[i]).id() < (
                #[trigger] files@[j]).id(),
            forall|i: int|
                0 <= i < files@.len() ==> (#[trigger] files@[i]).wf() && files@[i].pending().len()
                    > 0 && files@[i].id() < bound,
            targets.len() == opened.len(),
            forall|j: int|
                readers@.len() <= j < opened.len() && opened[j].pending().len() > 0 ==> 0 <= (
                #[trigger] targets[j]) < files@.len() && sources[targets[j]] == j,
            sources.len() == files@.len(),
            forall|i: int|
                0 <= i < files@.len() ==> {
                    let j = #[trigger] sources[i];
                    &&& readers@.len() <= j < opened.len()
                    &&& files@[i].id() == opened[j].id()
                    &&& opened[j].pending().len() > 0
                    &&& files@[i].position() == opened[j].position()
                    &&& files@[i].pending() == opened[j].pending()
                },
            union_of(runs_of_readers(readers@)).add(union_of(runs_of_files(files@))) == union_of(
                runs_of_readers(opened),
            ),
            readers@.len() > 0 ==> kept is None,
            readers@.len() == 0 ==> (kept is Some <==> fresh && opened[0].pending().len() > 0),
            kept is Some ==> {
                &&& files@.len() > 0
                &&& files@.last().id() == opened[0].id()
                &&& kept.unwrap()@ == opened[0].contents()
                &&& opened[0].origin() <= files@.last().position() <= opened[0].origin()
                    + opened[0].contents().len()
                &&& files@.last().unread() == opened[0].contents().skip(
                    files@.last().position() - opened[0].origin(),
                )
            },
        decreases readers@.len(),
    {
        let ghost readers_before = readers@;
        let ghost files_before = files@;
        let reader = readers.pop().unwrap();
        proof {
            assert(reader == opened[readers@.len() as int]);
            reader.lemma_pending();
        }
        let (file, bytes) = reader.close();
        proof {
            assert forall|i: int| 0 <= i < readers@.len() implies (#[trigger] opened[i]).id()
                > file.id() by {}
            assert(runs_of_readers(readers_before).drop_last() =~= runs_of_readers(readers@));
            file.pending().to_multiset_ensures();
        }
        if !file.is_empty() {
            files.push(file);
            proof {
                assert(runs_of_files(files@) =~= runs_of_files(files_before).push(file.pending()));
                lemma_union_push(runs_of_files(files_before), file.pending());
                let before = sources;
                sources = before.push(readers@.len() as int);
                let aims = targets;
                targets = aims.update(readers@.len() as int, files_before.len() as int);
                assert forall|j: int|
                    readers@.len() <= j < opened.len() && opened[j].pending().len() > 0 implies 0
                    <= (#[trigger] targets[j]) < files@.len() && sources[targets[j]] == j by {
                    if j > readers@.len() {
                        assert(targets[j] == aims[j]);
                        assert(sources[aims[j]] == before[aims[j]]);
                    }
                }
                assert forall|i: int| 0 <= i < files@.len() implies {
                    let j = #[trigger] sources[i];
                    &&& readers@.len() <= j < opened.len()
                    &&& files@[i].id() == opened[j].id()
                    &&& opened[j].pending().len() > 0
                    &&& files@[i].position() == opened[j].position()
                    &&& files@[i].pending() == opened[j].pending()
                } by {
                    if i < files_before.len() {
                        assert(sources[i] == before[i]);
                        assert(files@[i] == files_before[i]);
                    }
                }
            }
            if fresh && readers.len() == 0 {
                kept = Some(bytes);
            }
        } else {
            proof {
                assert(file.pending().to_multiset() =~= Multiset::empty());

            }
        }
        assert(union_of(runs_of_readers(readers@)).add(union_of(runs_of_files(files@)))
            =~= union_of(runs_of_readers(readers_before)).add(
            union_of(runs_of_files(files_before)),
        ));
    }
    proof {
        assert(runs_of_readers(readers@) =~= Seq::empty());
        assert(union_of(runs_of_files(files@)) =~= union_of(runs_of_readers(opened)));
    }
    (files, kept, Ghost(sources), Ghost(targets))
}

/// _The_ buffer.
///
/// It accepts records via [`Buffer::push_record`], and dumps them based on
/// the safe timestamp with [`Buffer::dump_safe`].
pub struct Buffer {
    in_memory: in_memory::Buffer,
    files: Vec<FileStorage>,
    files_counter: usize,
    file_read_buf_capacity: usize,
    earliest_buffered_timestamp: Option<Timestamp>,
    resident_count: usize,
    pushed: usize,
    dumped: Ghost<nat>,
}

impl Buffer {
    /// Every record that was pushed and not dumped yet, without their order.
    pub closed spec fn resident(&self) -> Multiset<RecordView> {
        self.in_memory@.add(union_of(runs_of_files(self.files@)))
    }

    /// The records of the in-memory run.
    pub closed spec fn in_memory(&self) -> Multiset<RecordView> {
        self.in_memory@
    }

    /// The pending records of the spilled runs, oldest run first.
    pub closed spec fn spilled(&self) -> Seq<Seq<RecordView>> {
        runs_of_files(self.files@)
    }

    /// The number that names each spilled run, oldest run first.
    pub closed spec fn file_ids(&self) -> Seq<usize> {
        ids_of_files(self.files@)
    }

    /// The cursor of each spilled run: the offset in its file of its first
    /// pending record.
    pub closed spec fn file_positions(&self) -> Seq<usize> {
        positions_of_files(self.files@)
    }

    /// What the file of each spilled run holds from its cursor on: the bytes
    /// of its pending records.
    pub open spec fn stored(&self) -> Seq<Seq<u8>> {
        Seq::new(self.spilled().len(), |i: int| encoding_of_all(self.spilled()[i]))
    }

    /// Whether `bytes` can be read as what the file of the spilled run `i`
    /// holds from its cursor on: they are a sorted run of as many records as
    /// are pending, and end within what an offset can tell.
    pub open spec fn can_read_run(&self, i: int, bytes: Seq<u8>) -> bool {
        &&& is_run(bytes, self.spilled()[i].len())
        &&& self.file_positions()[i] + bytes.len() <= usize::MAX
    }

    /// Whether `contents` can be read as what the files of the spilled runs
    /// hold from their cursors on, run by run.
    pub open spec fn can_read(&self, contents: Seq<Seq<u8>>) -> bool {
        &&& contents.len() == self.spilled().len()
        &&& forall|i: int|
            0 <= i < contents.len() ==> self.can_read_run(i, #[trigger] contents[i])
    }

    /// How many runs were spilled so far: the number that names the next one.
    pub closed spec fn files_counter(&self) -> nat {
        self.files_counter as nat
    }

    /// How many records were pushed since the buffer was made.
    pub closed spec fn total_pushed(&self) -> nat {
        self.pushed as nat
    }

    /// How many records were dumped since the buffer was made.
    pub closed spec fn total_dumped(&self) -> nat {
        self.dumped@
    }

    /// The capacity of the in-memory run.
    pub closed spec fn max_in_memory(&self) -> nat {
        self.in_memory.capacity()
    }

    /// The size of the read buffer that runs are read with for a merge.
    pub closed spec fn file_read_buf_capacity(&self) -> usize {
        self.file_read_buf_capacity
    }

    /// The least timestamp among the resident records, as the buffer caches
    /// it.
    pub closed spec fn earliest_buffered_timestamp(&self) -> Option<Timestamp> {
        self.earliest_buffered_timestamp
    }

    /// Whether a record is due at `ts`, by the cached minimum: whether a
    /// resident record has a timestamp up to `ts`, see
    /// [`Buffer::lemma_is_due`].
    pub open spec fn spec_is_due(&self, ts: Timestamp) -> bool {
        self.earliest_buffered_timestamp() is Some
            && self.earliest_buffered_timestamp().unwrap().0 <= ts.0
    }

    /// The in-memory run has room, no spilled run is used up, and the cached
    /// minimum is the least resident timestamp.
    pub closed spec fn wf(&self) -> bool {
        &&& self.in_memory.wf()
        &&& self.in_memory@.len() < self.in_memory.capacity()
        &&& forall|i: int|
            0 <= i < self.files@.len() ==> (#[trigger] self.files@[i]).wf() && self.files@[i].pending().len()
                > 0 && self.files@[i].id() < self.files_counter
        &&& rising(ids_of_files(self.files@))
        &&& is_earliest_of(self.earliest_buffered_timestamp, self.resident())
        &&& self.resident().len() == self.resident_count
        &&& self.pushed == self.dumped@ + self.resident().len()
        &&& self.files_counter + (if self.in_memory@.len() > 0 {
            1int
        } else {
            0int
        }) <= self.pushed
    }

    /// What holds of every buffer between two calls: the in-memory run is
    /// below its capacity, pushes and dumps account for the resident records,
    /// these are the records in memory and those spilled, and the cached
    /// minimum is their least timestamp. Every spilled run is sorted, has
    /// records left and a number of its own.
    pub proof fn lemma_invariant(&self)
        requires
            self.wf(),
        ensures
            self.in_memory().len() < self.max_in_memory(),
            self.total_pushed() - self.total_dumped() == self.resident().len(),
            self.resident().len() <= self.total_pushed() <= usize::MAX,
            self.files_counter() <= self.total_pushed(),
            self.resident() == self.in_memory().add(union_of(self.spilled())),
            is_earliest_of(self.earliest_buffered_timestamp(), self.resident()),
            forall|i: int|
                0 <= i < self.spilled().len() ==> sorted(#[trigger] self.spilled()[i])
                    && self.spilled()[i].len() > 0,
            self.file_ids().len() == self.spilled().len(),
            self.file_positions().len() == self.spilled().len(),
            rising(self.file_ids()),
            forall|i: int|
                0 <= i < self.file_ids().len() ==> (#[trigger] self.file_ids()[i])
                    < self.files_counter(),
    {
        assert forall|i: int| 0 <= i < self.spilled().len() implies sorted(
            #[trigger] self.spilled()[i],
        ) && self.spilled()[i].len() > 0 by {
            self.files@[i].lemma_pending();
        }
    }

    /// A record is due at `ts` exactly where a resident record has a
    /// timestamp up to `ts`.
    pub proof fn lemma_is_due(&self, ts: Timestamp)
        requires
            self.wf(),
        ensures
            self.is_due(ts) <==> exists|r: RecordView| #[trigger]
                self.resident().count(r) > 0 && r.timestamp() <= ts.0,
            self.is_due(ts) <==> due(self.resident(), ts).len() > 0,
    {
        let records = self.resident();
        let d = due(records, ts);
        if self.is_due(ts) {
            let r = choose|r: RecordView| #[trigger]
                records.count(r) > 0 && r.timestamp()
                    == self.earliest_buffered_timestamp().unwrap().0;
            assert(records.count(r) > 0 && r.timestamp() <= ts.0);
            assert(d.count(r) > 0);
        }
        if d.len() > 0 {
            let r = d.choose();
            assert(d.count(r) > 0);
            assert(records.count(r) > 0 && r.timestamp() <= ts.0);
        }
        if exists|r: RecordView| #[trigger] records.count(r) > 0 && r.timestamp() <= ts.0 {
            let r = choose|r: RecordView| #[trigger] records.count(r) > 0 && r.timestamp() <= ts.0;
            assert(d.count(r) > 0);
            assert(records.len() > 0);
        }
    }

    /// The bytes that were handed out for storing are read back as the runs
    /// that were spilled: where `contents` are what the files hold from their
    /// cursors on, they can be read and hold the pending records.
    pub proof fn lemma_stored(&self, contents: Seq<Seq<u8>>)
        requires
            self.wf(),
            contents == self.stored(),
        ensures
            self.can_read(contents),
            runs_in(contents) == self.spilled(),
            self.stored().len() == self.spilled().len(),
            forall|i: int|
                0 <= i < self.spilled().len() ==> (#[trigger] self.stored()[i]) == encoding_of_all(
                    self.spilled()[i],
                ),
    {
        assert forall|i: int| 0 <= i < contents.len() implies self.can_read_run(
            i,
            #[trigger] contents[i],
        ) && runs_in(contents)[i] == self.spilled()[i] by {
            self.files@[i].lemma_pending();
            lemma_records_in(contents[i], self.files@[i].pending(), self.files@[i].pending().len());
        }
        assert(runs_in(contents) =~= self.spilled());
    }

    /// Makes an empty buffer.
    pub fn new(config: Config) -> (buffer: Buffer)
        requires
            config.max_in_memory > 0,
        ensures
            buffer.wf(),
            buffer.resident() == Multiset::<RecordView>::empty(),
            buffer.in_memory() == Multiset::<RecordView>::empty(),
            buffer.spilled() == Seq::<Seq<RecordView>>::empty(),
            buffer.file_ids() == Seq::<usize>::empty(),
            buffer.files_counter() == 0,
            buffer.total_pushed() == 0,
            buffer.total_dumped() == 0,
            buffer.max_in_memory() == config.max_in_memory,
            buffer.file_read_buf_capacity() == config.file_read_buf_capacity,
            buffer.earliest_buffered_timestamp() is None,
    {
        let buffer = Buffer {
            in_memory: in_memory::Buffer::with_capacity(config.max_in_memory),
            files: Vec::new(),
            files_counter: 0,
            file_read_buf_capacity: config.file_read_buf_capacity,
            earliest_buffered_timestamp: None,
            resident_count: 0,
            pushed: 0,
            dumped: Ghost(0),
        };
        proof {
            assert(runs_of_files(buffer.files@) =~= Seq::empty());
            assert(ids_of_files(buffer.files@) =~= Seq::empty());
            assert(buffer.resident() =~= Multiset::empty());
        }
        buffer
    }

    /// How many records are resident.
    pub fn resident_count(&self) -> (count: usize)
        requires
            self.wf(),
        ensures
            count == self.resident().len(),
    {
        self.resident_count
    }

    /// How many records the in-memory run holds.
    pub fn in_memory_count(&self) -> (count: usize)
        requires
            self.wf(),
        ensures
            count == self.in_memory().len(),
            count < self.max_in_memory(),
    {
        self.in_memory.len()
    }

    /// How many records were pushed since the buffer was made.
    pub fn pushed_count(&self) -> (count: usize)
        ensures
            count == self.total_pushed(),
    {
        self.pushed
    }

    /// How many runs were spilled so far.
    pub fn spill_count(&self) -> (count: usize)
        ensures
            count == self.files_counter(),
    {
        self.files_counter
    }

    /// The least timestamp among the resident records.
    pub fn earliest_timestamp(&self) -> (earliest: Option<Timestamp>)
        ensures
            earliest == self.earliest_buffered_timestamp(),
    {
        self.earliest_buffered_timestamp
    }

    /// The size of the read buffer to read the runs with.
    pub fn read_buf_capacity(&self) -> (capacity: usize)
        ensures
            capacity == self.file_read_buf_capacity(),
    {
        self.file_read_buf_capacity
    }

    /// Whether a record is due at `ts`: whether [`Buffer::dump_safe`] has
    /// anything to dump.
    #[verifier::when_used_as_spec(spec_is_due)]
    pub fn is_due(&self, ts: Timestamp) -> (due: bool)
        ensures
            due == self.spec_is_due(ts),
            due == (self.earliest_buffered_timestamp() is Some
                && self.earliest_buffered_timestamp().unwrap().0 <= ts.0),
    {
        match self.earliest_buffered_timestamp {
            Some(earliest) => earliest.0 <= ts.0,
            None => false,
        }
    }

    /// The files to read for a merge: of each spilled run, oldest first, the
    /// number that names its file and the offset to read it from.
    pub fn files(&self) -> (files: Vec<(usize, usize)>)
        ensures
            files@.len() == self.spilled().len(),
            forall|i: int|
                0 <= i < files@.len() ==> (#[trigger] files@[i]) == (
                    self.file_ids()[i],
                    self.file_positions()[i],
                ),
    {
        let mut files: Vec<(usize, usize)> = Vec::new();
        let mut i: usize = 0;
        while i < self.files.len()
            invariant
                i <= self.files@.len(),
                files@.len() == i,
                forall|k: int|
                    0 <= k < i ==> (#[trigger] files@[k]) == (
                        self.files@[k].id(),
                        self.files@[k].position(),
                    ),
            decreases self.files@.len() - i,
        {
            files.push((self.files[i].id(), self.files[i].position()));
            i = i + 1;
        }
        files
    }

    /// Push a new record into the buffer. Where that fills the in-memory
    /// run, the run is spilled: it is handed out to be stored.
    pub fn push_record(&mut self, record: Record) -> (spill: Option<Spill>)
        requires
            old(self).wf(),
            old(self).total_pushed() < usize::MAX,
        ensures
            final(self).wf(),
            final(self).resident() == old(self).resident().insert(record@),
            final(self).earliest_buffered_timestamp() == Some(
                match old(self).earliest_buffered_timestamp() {
                    Some(earliest) if earliest.0 <= record@.timestamp() => earliest,
                    _ => Timestamp(record@.timestamp()),
                },
            ),
            final(self).max_in_memory() == old(self).max_in_memory(),
            final(self).file_read_buf_capacity() == old(self).file_read_buf_capacity(),
            final(self).in_memory().len() < final(self).max_in_memory(),
            final(self).total_pushed() == old(self).total_pushed() + 1,
            final(self).total_dumped() == old(self).total_dumped(),
            spill is Some <==> old(self).in_memory().len() + 1 == old(self).max_in_memory(),
            spill is None ==> {
                &&& final(self).in_memory() == old(self).in_memory().insert(record@)
                &&& final(self).spilled() == old(self).spilled()
                &&& final(self).file_ids() == old(self).file_ids()
                &&& final(self).file_positions() == old(self).file_positions()
                &&& final(self).files_counter() == old(self).files_counter()
            },
            spill is Some ==> {
                &&& final(self).in_memory().len() == 0
                &&& final(self).spilled().len() == old(self).spilled().len() + 1
                &&& final(self).spilled().drop_last() == old(self).spilled()
                &&& final(self).spilled().last().to_multiset() == old(self).in_memory().insert(
                    record@,
                )
                &&& sorted(final(self).spilled().last())
                &&& final(self).file_ids() == old(self).file_ids().push(spill.unwrap().id)
                &&& final(self).file_positions() == old(self).file_positions().push(0)
                &&& final(self).files_counter() == old(self).files_counter() + 1
                &&& spill.unwrap().id == old(self).files_counter()
                &&& spill.unwrap().bytes@ == encoding_of_all(final(self).spilled().last())
            },
    {
        let ts = record.timestamp();
        let earliest = match self.earliest_buffered_timestamp {
            None => ts,
            Some(prev) => if ts.0 < prev.0 {
                ts
            } else {
                prev
            },
        };
        self.earliest_buffered_timestamp = Some(earliest);
        self.in_memory.push(record);
        self.resident_count = self.resident_count + 1;
        self.pushed = self.pushed + 1;
        proof {
            let before = old(self).resident();
            let after = self.resident();
            assert(after =~= before.insert(record@));
            assert(after.count(record@) > 0);
            assert forall|r: RecordView| #[trigger] after.count(r) > 0 implies earliest.0
                <= r.timestamp() by {
                if r != record@ {
                    assert(before.count(r) > 0);
                }
            }
            if old(self).earliest_buffered_timestamp is Some && earliest
                == old(self).earliest_buffered_timestamp.unwrap() {
                let w = choose|r: RecordView| #[trigger]
                    before.count(r) > 0 && r.timestamp() == earliest.0;
                assert(after.count(w) > 0);
            }
        }
        if self.in_memory.is_full() {
            let ghost files = self.files@;
            let spill = self.dump_in_memory();
            proof {
                assert(positions_of_files(self.files@) =~= positions_of_files(files).push(0));
                assert(ids_of_files(self.files@) =~= ids_of_files(files).push(
                    old(self).files_counter,
                ));
                assert(runs_of_files(self.files@).drop_last() =~= runs_of_files(files));
            }
            spill
        } else {
            None
        }
    }

    /// Spills the in-memory run, unless it is empty.
    fn dump_in_memory(&mut self) -> (spill: Option<Spill>)
        requires
            old(self).in_memory.wf(),
            forall|i: int|
                0 <= i < old(self).files@.len() ==> (#[trigger] old(self).files@[i]).wf() && old(
                    self,
                ).files@[i].pending().len() > 0 && old(self).files@[i].id() < old(
                    self,
                ).files_counter,
            rising(ids_of_files(old(self).files@)),
            old(self).in_memory.capacity() > 0,
            old(self).files_counter < usize::MAX,
        ensures
            final(self).wf() <== (is_earliest_of(
                old(self).earliest_buffered_timestamp,
                old(self).resident(),
            ) && old(self).resident().len() == old(self).resident_count && old(self).pushed
                == old(self).dumped@ + old(self).resident().len() && old(self).files_counter + (
            if old(self).in_memory@.len() > 0 {
                1int
            } else {
                0int
            }) <= old(self).pushed),
            final(self).resident_count == old(self).resident_count,
            final(self).pushed == old(self).pushed,
            final(self).dumped == old(self).dumped,
            final(self).resident() == old(self).resident(),
            final(self).max_in_memory() == old(self).max_in_memory(),
            final(self).earliest_buffered_timestamp == old(self).earliest_buffered_timestamp,
            final(self).file_read_buf_capacity == old(self).file_read_buf_capacity,
            final(self).in_memory@.len() == 0,
            spill is Some <==> old(self).in_memory@.len() > 0,
            spill is None ==> {
                &&& final(self).files@ == old(self).files@
                &&& final(self).files_counter == old(self).files_counter
            },
            spill is Some ==> {
                &&& final(self).files@.len() == old(self).files@.len() + 1
                &&& final(self).files@.drop_last() == old(self).files@
                &&& final(self).files@.last().pending().to_multiset() == old(self).in_memory@
                &&& sorted(final(self).files@.last().pending())
                &&& final(self).files@.last().id() == old(self).files_counter
                &&& final(self).files@.last().position() == 0
                &&& final(self).files_counter == old(self).files_counter + 1
                &&& spill.unwrap().id == old(self).files_counter
                &&& spill.unwrap().bytes@ == final(self).files@.last().unread()
            },
    {
        if self.in_memory.len() == 0 {
            return None;
        }
        let id = self.files_counter;
        self.files_counter = self.files_counter + 1;
        let created = self.in_memory.drain_into_file(id);
        match created {
            Some((file, bytes)) => {
                proof {
                    file.pending().to_multiset_ensures();
                    lemma_union_push(runs_of_files(self.files@), file.pending());
                    assert(runs_of_files(self.files@.push(file)) =~= runs_of_files(
                        self.files@,
                    ).push(file.pending()));
                    assert(self.in_memory@ =~= Multiset::empty());
                }
                self.files.push(file);
                proof {
                    assert(self.files@.drop_last() =~= old(self).files@);
                    assert(self.resident() =~= old(self).resident());
                    assert forall|i: int, j: int|
                        0 <= i < j < self.files@.len() implies ids_of_files(self.files@)[i]
                        < ids_of_files(self.files@)[j] by {
                        if j < old(self).files@.len() {
                            assert(ids_of_files(old(self).files@)[i] < ids_of_files(
                                old(self).files@,
                            )[j]);
                        }
                    }
                }
                Some(Spill { id, bytes })
            },
            None => {
                vstd::pervasive::unreached()
            },
        }
    }

    /// Dump the records that are safe to dump: every resident record with a
    /// timestamp up to `safe_to_dump_timestamp` is written to `output`,
    /// earliest first, and `output` is flushed. Of records with one
    /// timestamp those of the older run go first, the in-memory run counted
    /// as the newest, and those of one run in the order of its file. It could
    /// as well be none! Nothing changes then, and `contents` is not looked
    /// at.
    ///
    /// `contents` is what the file of each spilled run holds from its cursor
    /// on, oldest run first, as [`Buffer::files`] lists them. The dump is an
    /// error, and changes nothing, where one of them cannot be read as its
    /// run. The in-memory run is spilled for the merge; where records of it
    /// are left, it is handed out to be stored.
    #[verifier::rlimit(40)]
    pub fn dump_safe(
        &mut self,
        output: &mut Writer,
        safe_to_dump_timestamp: Timestamp,
        contents: Vec<Vec<u8>>,
    ) -> (dumped: Result<(DumpedCount, Option<Spill>), CorruptRun>)
        requires
            old(self).wf(),
            old(output).wf(),
            old(self).is_due(safe_to_dump_timestamp) ==> contents@.len() == old(
                self,
            ).spilled().len(),
        ensures
            final(self).wf(),
            final(output).wf(),
            final(self).max_in_memory() == old(self).max_in_memory(),
            final(self).file_read_buf_capacity() == old(self).file_read_buf_capacity(),
            final(self).total_pushed() == old(self).total_pushed(),
            final(output).taken() == old(output).taken(),
            !old(self).is_due(safe_to_dump_timestamp) ==> dumped == Ok::<
                (DumpedCount, Option<Spill>),
                CorruptRun,
            >((DumpedCount(0), None)),
            old(self).is_due(safe_to_dump_timestamp) ==> (dumped is Ok <==> old(self).can_read(
                views_of(contents@),
            )),
            match dumped {
                Err(error) => {
                    &&& *final(self) == *old(self)
                    &&& *final(output) == *old(output)
                    &&& exists|i: int|
                        0 <= i < contents@.len() && #[trigger] old(self).file_ids()[i] == error.id
                            && !old(self).can_read_run(i, contents@[i]@) && forall|k: int|
                            i < k < contents@.len() ==> old(self).can_read_run(
                                k,
                                #[trigger] contents@[k]@,
                            )
                },
                Ok((count, spill)) => if old(self).is_due(safe_to_dump_timestamp) {
                    let taken = old(self).in_memory().add(
                        union_of(runs_in(views_of(contents@))),
                    );
                    let written = final(output).records().skip(
                        old(output).records().len() as int,
                    );
                    let ids = final(self).file_ids();
                    let cursors = final(self).file_positions();
                    let ids_before = old(self).file_ids();
                    let cursors_before = old(self).file_positions();
                    &&& old(output).records().is_prefix_of(final(output).records())
                    &&& sorted(written)
                    &&& forall|k: int|
                        0 <= k < written.len() ==> (#[trigger] written[k]).timestamp()
                            <= safe_to_dump_timestamp.0
                    &&& written.to_multiset() == due(taken, safe_to_dump_timestamp)
                    &&& exists|last_run: Seq<RecordView>, origin: Seq<(int, int)>| #[trigger]
                        merged_with(
                            written,
                            origin,
                            runs_in(views_of(contents@)),
                            last_run,
                            old(self).in_memory(),
                            bytes_of(spill),
                        )
                    &&& final(self).resident() == not_due(taken, safe_to_dump_timestamp)
                    &&& forall|r: RecordView| #[trigger]
                        final(self).resident().count(r) > 0 ==> r.timestamp()
                            > safe_to_dump_timestamp.0
                    &&& is_earliest_of(
                        final(self).earliest_buffered_timestamp(),
                        final(self).resident(),
                    )
                    &&& taken == written.to_multiset().add(final(self).resident())
                    &&& taken.len() == old(self).resident().len()
                    &&& count.0 == written.len()
                    &&& final(self).total_dumped() == old(self).total_dumped() + count.0
                    &&& final(output).flushed() == final(output).records().len()
                    &&& final(self).in_memory().len() == 0
                    &&& final(self).files_counter() == old(self).files_counter() + if old(
                        self,
                    ).in_memory().len() > 0 {
                        1nat
                    } else {
                        0nat
                    }
                    &&& forall|j: int|
                        0 <= j < ids.len() && (#[trigger] ids[j]) != old(self).files_counter()
                            ==> exists|i: int|
                            0 <= i < ids_before.len() && (#[trigger] ids_before[i]) == ids[j]
                                && cursors_before[i] <= cursors[j] && final(self).stored()[j]
                                == contents@[i]@.skip(cursors[j] - cursors_before[i])
                    &&& forall|i: int|
                        0 <= i < ids_before.len() ==> (ids.contains(#[trigger] ids_before[i])
                            <==> has_later(
                            runs_in(views_of(contents@))[i],
                            safe_to_dump_timestamp,
                        ))
                    &&& spill is Some <==> exists|r: RecordView| #[trigger]
                        old(self).in_memory().count(r) > 0 && r.timestamp()
                            > safe_to_dump_timestamp.0
                    &&& spill is Some <==> exists|i: int|
                        0 <= i < final(self).file_ids().len() && final(self).file_ids()[i] == old(
                            self,
                        ).files_counter()
                    &&& spill is Some ==> {
                        &&& spill.unwrap().id == old(self).files_counter()
                        &&& final(self).file_ids().last() == spill.unwrap().id
                        &&& final(self).file_positions().last() <= spill.unwrap().bytes@.len()
                        &&& final(self).stored().last() == spill.unwrap().bytes@.skip(
                            final(self).file_positions().last() as int,
                        )
                    }
                } else {
                    &&& count.0 == 0
                    &&& spill is None
                    &&& *final(self) == *old(self)
                    &&& *final(output) == *old(output)
                },
            },
            old(self).is_due(safe_to_dump_timestamp) && views_of(contents@) == old(self).stored()
                ==> dumped is Ok && dumped.unwrap().0.0 > 0 && old(self).in_memory().add(
                union_of(runs_in(views_of(contents@))),
            ) == old(self).resident(),
    {
        let ghost resident = self.resident();
        let ghost written = output.records();
        let ghost given = views_of(contents@);
        proof {
            if given == self.stored() {
                self.lemma_stored(given);
            }
        }
        if !self.is_due(safe_to_dump_timestamp) {
            return Ok((DumpedCount(0), None));
        }
        // the merge works on files only: those that were stored ...
        let mut readers = match open_readers(&self.files, contents, self.file_read_buf_capacity) {
            Ok(readers) => readers,
            Err(error) => {
                proof {
                    let i = choose|i: int|
                        0 <= i < self.files@.len() && (#[trigger] self.files@[i]).id() == error.id
                            && !readable(self.files@[i], contents@[i]@) && forall|k: int|
                            i < k < self.files@.len() ==> readable(
                                #[trigger] self.files@[k],
                                contents@[k]@,
                            );
                    assert(self.file_ids()[i] == error.id);
                    assert(!self.can_read_run(i, contents@[i]@));
                    assert forall|k: int| i < k < contents@.len() implies self.can_read_run(
                        k,
                        #[trigger] contents@[k]@,
                    ) by {
                        assert(readable(self.files@[k], contents@[k]@));
                    }
                    assert(!self.can_read(given)) by {
                        assert(given[i] == contents@[i]@);
                    }
                }
                return Err(error);
            },
        };
        proof {
            assert forall|i: int| 0 <= i < given.len() implies self.can_read_run(
                i,
                #[trigger] given[i],
            ) by {
                assert(readable(self.files@[i], contents@[i]@));
            }
        }
        let ghost stored_runs = runs_of_readers(readers@);
        let ghost stored_readers = readers@;
        // ... and the one that the in-memory run makes
        let id = self.files_counter;
        let fresh = match self.in_memory.drain_into_file(id) {
            Some((file, bytes)) => {
                self.files_counter = self.files_counter + 1;
                let reader = FileStorageReader::new(file, self.file_read_buf_capacity, bytes);
                proof {
                    assert(readers@.insert(0, reader) =~= seq![reader] + readers@);
                    assert(runs_of_readers(seq![reader] + readers@) =~= seq![reader.pending()]
                        + runs_of_readers(readers@));
                    lemma_union_front(runs_of_readers(readers@), reader.pending());
                }
                readers.insert(0, reader);
                true
            },
            None => false,
        };
        let ghost spilled = *self;
        let ghost opened = readers@;
        let ghost taken = old(self).in_memory().add(union_of(runs_in(given)));
        assert(fresh ==> opened[0].origin() == 0);
        // the runs in the order of their files, the one of the in-memory run last
        let ghost last_run: Seq<RecordView> = if fresh {
            opened[0].pending()
        } else {
            Seq::empty()
        };
        let ghost all_runs = runs_in(given).push(last_run);
        let ghost mut origin: Seq<(int, int)> = Seq::empty();
        proof {
            assert forall|r: int| 0 <= r < opened.len() implies (#[trigger] opened[r]).pending()
                == all_runs[opened.len() - 1 - r] by {
                let shift: int = if fresh {
                    1
                } else {
                    0
                };
                if r >= shift {
                    assert(opened[r] == stored_readers[r - shift]);
                }
            }
            assert forall|i: int| 0 <= i < all_runs.len() implies sorted(#[trigger] all_runs[i]) by {
                if i >= opened.len() {
                } else {
                    let r = opened.len() - 1 - i;
                    assert(opened[r].pending() == all_runs[i]);
                    let shift: int = if fresh {
                        1
                    } else {
                        0
                    };
                    if r >= shift {
                        assert(opened[r] == stored_readers[r - shift]);
                    }
                    opened[r].lemma_pending();
                }
            }
        }

        let mut dumped: usize = 0;
        let ghost mut emitted: Seq<RecordView> = Seq::empty();
        let ghost mut consumed: Seq<int> = Seq::new(opened.len(), |i: int| 0int);
        proof {
            lemma_merging_starts(all_runs, opened.len() as int, consumed);
            assert forall|i: int| 0 <= i < opened.len() implies opened[i].pending().skip(0)
                == opened[i].pending() by {
                assert(opened[i].pending().skip(0) =~= opened[i].pending());
            }
            emitted.to_multiset_ensures();
            assert(self.in_memory@ =~= Multiset::empty());
            assert(emitted.to_multiset().add(union_of(runs_of_readers(readers@))) =~= taken);
            assert(written + emitted =~= written);
            // as many records as the buffer counts
            assert(taken.len() == resident.len()) by {
                assert forall|i: int| 0 <= i < stored_runs.len() implies (
                #[trigger] stored_runs[i]).len() == runs_of_files(old(self).files@).reverse()[i].len() by {}
                lemma_union_reverse(runs_of_files(old(self).files@));
                lemma_union_len(stored_runs, runs_of_files(old(self).files@).reverse());
            }
            assert forall|i: int, j: int| 0 <= i < j < opened.len() implies (
            #[trigger] opened[i]).id() > (#[trigger] opened[j]).id() by {
                let shift: int = if fresh {
                    1
                } else {
                    0
                };
                if i >= shift {
                    assert(opened[i] == stored_readers[i - shift]);
                    assert(opened[j] == stored_readers[j - shift]);
                    assert(ids_of_files(old(self).files@)[stored_readers.len() - 1 - (j - shift)]
                        < ids_of_files(old(self).files@)[stored_readers.len() - 1 - (i - shift)]);
                } else {
                    assert(opened[j] == stored_readers[j - 1]);
                }
            }
            assert forall|i: int| 0 <= i < opened.len() implies (#[trigger] opened[i]).id()
                < self.files_counter && opened[i].wf() by {
                let shift: int = if fresh {
                    1
                } else {
                    0
                };
                if i >= shift {
                    assert(opened[i] == stored_readers[i - shift]);
                }
            }
        }
        loop
            invariant
                fresh ==> opened.len() > 0 && opened[0].origin() == 0,
                self.in_memory == spilled.in_memory,
                self.files == spilled.files,
                self.files_counter == spilled.files_counter,
                self.file_read_buf_capacity == spilled.file_read_buf_capacity,
                self.resident_count == spilled.resident_count,
                taken.len() == spilled.resident_count,
                self.pushed == spilled.pushed,
                self.dumped == spilled.dumped,
                output.wf(),
                output.records() == written + emitted,
                output.taken() == old(output).taken(),
                forall|i: int| 0 <= i < readers@.len() ==> (#[trigger] readers@[i]).wf(),
                readers@.len() == opened.len(),
                opened.len() <= all_runs.len(),
                forall|r: int|
                    0 <= r < opened.len() ==> (#[trigger] opened[r]).pending()
                        == all_runs[opened.len() - 1 - r],
                forall|i: int| 0 <= i < all_runs.len() ==> sorted(#[trigger] all_runs[i]),
                merging(all_runs, opened.len() as int, consumed, emitted, origin),
                consumed.len() == opened.len(),
                forall|i: int|
                    0 <= i < readers@.len() ==> 0 <= #[trigger] consumed[i]
                        <= opened[i].pending().len() && readers@[i].pending()
                        == opened[i].pending().skip(consumed[i]),
                forall|i: int, j: int|
                    0 <= i < readers@.len() && 0 <= j < consumed[i] ==> (
                    #[trigger] opened[i].pending()[j]).timestamp() <= safe_to_dump_timestamp.0,
                forall|i: int|
                    0 <= i < readers@.len() ==> (#[trigger] readers@[i]).id() == opened[i].id()
                        && readers@[i].contents() == opened[i].contents() && readers@[i].origin()
                        == opened[i].origin(),
                emitted.to_multiset().add(union_of(runs_of_readers(readers@))) == taken,
                dumped == emitted.len(),
                sorted(emitted),
                forall|k: int|
                    0 <= k < emitted.len() ==> (#[trigger] emitted[k]).timestamp()
                        <= safe_to_dump_timestamp.0,
                forall|k: int, i: int, j: int|
                    0 <= k < emitted.len() && 0 <= i < readers@.len() && 0 <= j
                        < readers@[i].pending().len() ==> (#[trigger] emitted[k]).timestamp() <= (
                    #[trigger] readers@[i].pending()[j]).timestamp(),
            ensures
                is_earliest_of(
                    self.earliest_buffered_timestamp,
                    union_of(runs_of_readers(readers@)),
                ),
                forall|r: RecordView| #[trigger]
                    union_of(runs_of_readers(readers@)).count(r) > 0 ==> r.timestamp()
                        > safe_to_dump_timestamp.0,
            decreases union_of(runs_of_readers(readers@)).len(),
        {
            let ghost runs = runs_of_readers(readers@);
            let reader_with_earliest_timestamp = select_earliest(&readers);
            match reader_with_earliest_timestamp {
                Some((at, ts)) => {
                    proof {
                        lemma_member_of_union(runs, at as int, 0);
                        assert forall|r: RecordView| #[trigger] union_of(runs).count(r) > 0 implies ts.0
                            <= r.timestamp() by {
                            lemma_union_member(runs, r);
                            let (i, j) = choose|i: int, j: int|
                                0 <= i < runs.len() && 0 <= j < runs[i].len() && (
                                #[trigger] runs[i][j]) == r;
                            readers@[i].lemma_pending();
                            assert(readers@[i].pending()[0].timestamp() <= readers@[i].pending()[j].timestamp());
                        }
                    }
                    if ts.0 > safe_to_dump_timestamp.0 {
                        // we can no longer proceed with the merge
                        self.earliest_buffered_timestamp = Some(ts);
                        break ;
                    }
                    let ghost head = readers@[at as int].pending()[0];
                    let ghost readers_before = readers@;
                    // dump the record
                    let record = readers[at].last().unwrap();
                    output.write(record);
                    readers[at].read_next();
                    proof {
                        emitted.to_multiset_ensures();
                        lemma_union_advance(runs, at as int);
                        assert(runs_of_readers(readers@) =~= runs.update(
                            at as int,
                            runs[at as int].drop_first(),
                        ));
                        let readers_count = opened.len() as int;
                        assert forall|r: int| 0 <= r < readers_count implies 0 <= (
                        #[trigger] consumed[r]) <= all_runs[readers_count - 1 - r].len() && (
                        consumed[r] < all_runs[readers_count - 1 - r].len()
                            ==> readers_before[r].pending().len() > 0
                            && readers_before[r].pending()[0] == all_runs[readers_count - 1
                            - r][consumed[r]]) by {
                            assert(opened[r].pending() == all_runs[readers_count - 1 - r]);
                            assert(readers_before[r].pending() == opened[r].pending().skip(
                                consumed[r],
                            ));
                        }
                        lemma_merging_goes_on(
                            all_runs,
                            readers_count,
                            consumed,
                            emitted,
                            origin,
                            at as int,
                        );
                        origin = origin.push((readers_count - 1 - at, consumed[at as int]));
                        let before = emitted;
                        emitted = emitted.push(head);
                        emitted.to_multiset_ensures();
                        let sofar = consumed;
                        consumed = sofar.update(at as int, sofar[at as int] + 1);
                        assert(opened[at as int].pending().skip(sofar[at as int]).drop_first()
                            =~= opened[at as int].pending().skip(sofar[at as int] + 1));
                        assert(opened[at as int].pending().skip(sofar[at as int])[0]
                            == opened[at as int].pending()[sofar[at as int]]);
                        assert forall|i: int, j: int|
                            0 <= i < readers@.len() && 0 <= j < consumed[i] implies (
                        #[trigger] opened[i].pending()[j]).timestamp()
                            <= safe_to_dump_timestamp.0 by {
                            if i == at && j == sofar[at as int] {
                            } else {
                                assert(j < sofar[i]);
                            }
                        }
                        assert(emitted.to_multiset().add(union_of(runs_of_readers(readers@)))
                            =~= taken);
                        assert(written + emitted =~= (written + before).push(head));
                        assert(taken.len() == before.len() + union_of(runs).len());
                        assert forall|k: int, i: int, j: int|
                            0 <= k < emitted.len() && 0 <= i < readers@.len() && 0 <= j
                                < readers@[i].pending().len() implies (
                        #[trigger] emitted[k]).timestamp() <= (
                        #[trigger] readers@[i].pending()[j]).timestamp() by {
                            let jj = if i == at {
                                j + 1
                            } else {
                                j
                            };
                            assert(readers@[i].pending()[j] == readers_before[i].pending()[jj]);
                            if k == before.len() {
                                readers_before[i].lemma_pending();
                                assert(readers_before[i].pending()[0].timestamp()
                                    <= readers_before[i].pending()[jj].timestamp());
                            } else {
                                assert(before[k].timestamp() <= readers_before[i].pending()[jj].timestamp());
                            }
                        }
                        assert forall|a: int, b: int| 0 <= a <= b < emitted.len() implies (
                        #[trigger] emitted[a]).timestamp() <= (
                        #[trigger] emitted[b]).timestamp() by {
                            if b == before.len() && a < b {
                                assert(before[a].timestamp() <= readers_before[at as int].pending()[0].timestamp());
                            }
                        }
                    }
                    dumped = dumped + 1;
                },
                None => {
                    // all readers are empty
                    self.earliest_buffered_timestamp = None;
                    proof {
                        lemma_union_of_empty_runs(runs);
                    }
                    break ;
                },
            }
        }
        output.flush();

        // close the readers
        let ghost left = union_of(runs_of_readers(readers@));
        let ghost merged = readers@;
        let (files, kept, Ghost(sources), Ghost(targets)) = close_readers(
            readers,
            self.files_counter,
            fresh,
        );
        self.files = files;
        proof {
            emitted.to_multiset_ensures();
            assert(taken.len() == emitted.len() + left.len());
        }
        self.resident_count = self.resident_count - dumped;
        self.dumped = Ghost(self.dumped@ + dumped as nat);
        let spill = match kept {
            Some(bytes) => Some(Spill { id, bytes }),
            None => None,
        };
        proof {
            assert(self.in_memory@ =~= Multiset::empty());
            assert(self.resident() =~= left);
            assert((written + emitted).skip(written.len() as int) =~= emitted);
            assert forall|r: RecordView| #[trigger] emitted.to_multiset().count(r) > 0 implies r.timestamp()
                <= safe_to_dump_timestamp.0 by {
                assert(emitted.contains(r));
            }
            lemma_split_at(taken, emitted.to_multiset(), left, safe_to_dump_timestamp);
            assert(written =~= (written + emitted).subrange(0, written.len() as int));
            // a file that the new run's number names is left of that run only
            if exists|i: int|
                0 <= i < self.file_ids().len() && #[trigger] self.file_ids()[i] == id {
                let i = choose|i: int|
                    0 <= i < self.file_ids().len() && #[trigger] self.file_ids()[i] == id;
                let j = sources[i];
                assert(merged[j].id() == opened[j].id());
                if !fresh || j > 0 {
                    let shift: int = if fresh {
                        1
                    } else {
                        0
                    };
                    assert(opened[j] == stored_readers[j - shift]);
                }
            }
            assert forall|j: int|
                0 <= j < self.file_ids().len() && (#[trigger] self.file_ids()[j]) != id implies exists|
                i: int,
            |
                0 <= i < old(self).file_ids().len() && (#[trigger] old(self).file_ids()[i])
                    == self.file_ids()[j] && old(self).file_positions()[i]
                    <= self.file_positions()[j] && self.stored()[j] == contents@[i]@.skip(
                    self.file_positions()[j] - old(self).file_positions()[i],
                ) by {
                let k = sources[j];
                let shift: int = if fresh {
                    1
                } else {
                    0
                };
                assert(merged[k].id() == opened[k].id());
                assert(k >= shift);
                assert(opened[k] == stored_readers[k - shift]);
                let i = stored_readers.len() - 1 - (k - shift);
                merged[k].lemma_pending();
                assert(old(self).file_ids()[i] == self.file_ids()[j]);
            }
            // what was written is in the order of a merge of the runs
            if !fresh {
                last_run.to_multiset_ensures();
                assert(last_run.to_multiset() =~= old(self).in_memory());
            }
            lemma_merging_ends(
                all_runs,
                opened.len() as int,
                consumed,
                emitted,
                origin,
                runs_in(given),
                last_run,
                old(self).in_memory(),
                bytes_of(spill),
            );
            assert(output.records().skip(written.len() as int) == emitted);
            // the runs with a record that is not due are left, and no others
            let shift: int = if fresh {
                1
            } else {
                0
            };
            let ends = runs_of_readers(merged);
            assert forall|k: int| 0 <= k < opened.len() && (#[trigger] ends[k]).len() > 0 implies ends[k][0].timestamp()
                > safe_to_dump_timestamp.0 by {
                lemma_member_of_union(ends, k, 0);
            }
            assert forall|i: int| 0 <= i < old(self).file_ids().len() implies (
            #[trigger] ids_of_readers(opened)[stored_readers.len() - 1 - i + shift]) == old(
                self,
            ).file_ids()[i] && runs_of_readers(opened)[stored_readers.len() - 1 - i + shift]
                == runs_in(given)[i] by {
                assert(opened[stored_readers.len() - 1 - i + shift] == stored_readers[stored_readers.len()
                    - 1 - i]);
            }
            lemma_runs_left(
                old(self).file_ids(),
                runs_in(given),
                ids_of_readers(opened),
                runs_of_readers(opened),
                ends,
                consumed,
                self.file_ids(),
                sources,
                targets,
                shift,
                safe_to_dump_timestamp,
            );
            // of the in-memory run the records that are not due are left
            if fresh {
                let run = opened[0].pending();
                let k = consumed[0];
                run.to_multiset_ensures();
                merged[0].lemma_pending();
                if merged[0].pending().len() > 0 {
                    let r = merged[0].pending()[0];
                    assert(r == run[k]);
                    assert(run.contains(r));
                    lemma_member_of_union(runs_of_readers(merged), 0, 0);
                    assert(old(self).in_memory().count(r) > 0 && r.timestamp()
                        > safe_to_dump_timestamp.0);
                } else {
                    assert forall|r: RecordView| #[trigger]
                        old(self).in_memory().count(r) > 0 implies r.timestamp()
                        <= safe_to_dump_timestamp.0 by {
                        assert(run.contains(r));
                        let j = choose|j: int| 0 <= j < run.len() && run[j] == r;
                        assert(j < k);
                    }
                }
            } else {
                assert(old(self).in_memory().len() == 0);
                assert forall|r: RecordView| old(self).in_memory().count(r) == 0 by {
                    assert(old(self).in_memory() =~= Multiset::empty());
                }
            }
            if kept is Some {
                assert(self.file_ids().last() == self.files@.last().id());
                assert(self.file_positions().last() == self.files@.last().position());
                assert(self.stored().last() == self.files@.last().unread());
                assert(merged[0].origin() == 0);
                merged[0].lemma_pending();
            }
            // where the files hold what was stored, the earliest record was due
            if given == old(self).stored() {
                assert(taken == resident);
                if emitted.len() == 0 {
                    let ts = old(self).earliest_buffered_timestamp.unwrap();
                    let r = choose|r: RecordView| #[trigger]
                        resident.count(r) > 0 && r.timestamp() == ts.0;
                    assert(left.count(r) > 0);
                }
            }
        }
        Ok((DumpedCount(dumped), spill))
    }
}

} // verus!
