//! Sorting sink for timestamped records that arrive out of order.
//!
//! Records of several sources come in, each source out of order within
//! bounds. The sink keeps them in a bounded [`buffer`], and after each
//! record writes to the [`output`] every record that no source can precede
//! any more, earliest first.
//!
//! The library reads and writes no file. It hands out the bytes to store,
//! of the runs that the buffer spills and of the output, and takes the
//! bytes of the stored runs back for each dump. What it takes back it
//! checks: no byte decides anything before it was read as a record.

pub mod buffer;
pub mod data;
pub mod output;
pub mod wire;

pub use buffer::Config as BufferConfig;

use crate::buffer::due;
use crate::buffer::bytes_of;
use crate::buffer::has_later;
use crate::buffer::is_earliest_of;
use crate::buffer::merged_with;
use crate::buffer::in_memory::sorted;
use crate::buffer::not_due;
use crate::buffer::on_disk::CorruptRun;
use crate::buffer::runs_in;
use crate::buffer::union_of;
use crate::buffer::views_of;
use crate::buffer::Buffer;
use crate::buffer::Spill;
use crate::data::Record;
use crate::data::RecordView;
use crate::data::Timestamp;
use crate::data::SOURCES;
use crate::output::Reader;
use crate::output::Writer;
use crate::wire::decoded;
use crate::wire::encodable;
use crate::wire::encoding;
use crate::wire::encoding_of_all;
use crate::wire::lemma_read_back;
use vstd::multiset::Multiset;
use vstd::prelude::*;

verus! {

/// The safe-to-emit watermark over the sources' last timestamps: the least
/// of them, and none while a source has not been heard or there is no source.
pub open spec fn watermark(items: Seq<Option<Timestamp>>) -> Option<Timestamp>
    decreases items.len(),
{
    if items.len() == 0 {
        None
    } else if items.len() == 1 {
        items[0]
    } else {
        match (watermark(items.drop_last()), items.last()) {
            (Some(least), Some(last)) => Some(
                if last.0 < least.0 {
                    last
                } else {
                    least
                },
            ),
            _ => None,
        }
    }
}

/// The watermark is defined exactly where there are sources and each has a
/// timestamp; it is then one of the timestamps, and none is below it.
pub proof fn lemma_watermark(items: Seq<Option<Timestamp>>)
    ensures
        watermark(items) is Some <==> items.len() > 0 && forall|i: int|
            0 <= i < items.len() ==> (#[trigger] items[i]) is Some,
        watermark(items) is Some ==> {
            &&& exists|i: int| 0 <= i < items.len() && #[trigger] items[i] == watermark(items)
            &&& forall|i: int|
                0 <= i < items.len() ==> watermark(items).unwrap().0 <= (
                #[trigger] items[i]).unwrap().0
        },
    decreases items.len(),
{
    if items.len() > 1 {
        let front = items.drop_last();
        lemma_watermark(front);
        if watermark(items) is Some {
            assert forall|i: int| 0 <= i < items.len() implies (#[trigger] items[i]) is Some by {
                if i < front.len() {
                    assert(front[i] is Some);
                }
            }
            let k = choose|i: int| 0 <= i < front.len() && #[trigger] front[i] == watermark(front);
            assert(items[k] == front[k]);
            if watermark(items) == items.last() {
                assert(items[items.len() - 1] == watermark(items));
            } else {
                assert(items[k] == watermark(items));
            }
            assert forall|i: int| 0 <= i < items.len() implies watermark(items).unwrap().0 <= (
            #[trigger] items[i]).unwrap().0 by {
                if i < front.len() {
                    assert(front[i] == items[i]);
                }
            }
        } else {
            if items.last() is Some {
                assert(!(front.len() > 0 && forall|i: int|
                    0 <= i < front.len() ==> (#[trigger] front[i]) is Some));
                let i = choose|i: int| 0 <= i < front.len() && !((#[trigger] front[i]) is Some);
                assert(items[i] == front[i]);
            }
        }
    } else if items.len() == 1 {
        if watermark(items) is Some {
            assert(items[0] == watermark(items));
        }
    }
}

/// Computes the watermark: the earliest of `items`, or `None` where an item
/// is `None` or there is no item.
pub fn find_earliest_timestamp(items: &[Option<Timestamp>]) -> (earliest: Option<Timestamp>)
    ensures
        earliest == watermark(items@),
{
    let mut earliest: Option<Timestamp> = None;
    let mut i: usize = 0;
    while i < items.len()
        invariant
            i <= items@.len(),
            earliest == watermark(items@.subrange(0, i as int)),
            i > 0 ==> earliest is Some,
        decreases items@.len() - i,
    {
        proof {
            assert(items@.subrange(0, i + 1).drop_last() =~= items@.subrange(0, i as int));
            lemma_watermark(items@.subrange(0, i + 1));
            lemma_watermark(items@);
        }
        match items[i] {
            None => {
                return None;
            },
            Some(x) => {
                earliest = Some(
                    match earliest {
                        None => x,
                        Some(y) => if x.0 < y.0 {
                            x
                        } else {
                            y
                        },
                    },
                );
            },
        }
        i = i + 1;
    }
    assert(items@.subrange(0, i as int) =~= items@);
    earliest
}

/// Notice that records were appended to the output: how many, never zero.
#[derive(Clone, Copy, Debug, PartialEq, Eq)]
pub struct NewRecordsAvailable {
    count: usize,
}

impl NewRecordsAvailable {
    #[verifier::type_invariant]
    spec fn positive(self) -> bool {
        self.count > 0
    }

    /// The number of records announced.
    pub closed spec fn view(&self) -> nat {
        self.count as nat
    }

    /// Makes the notice for `count` records; there is none for zero records.
    pub fn new(count: usize) -> (notice: Option<NewRecordsAvailable>)
        ensures
            notice is None <==> count == 0,
            notice is Some ==> notice.unwrap()@ == count,
    {
        if count == 0 {
            None
        } else {
            Some(NewRecordsAvailable { count })
        }
    }

    /// The number of records announced.
    pub fn get(&self) -> (count: usize)
        ensures
            count == self@,
            count > 0,
    {
        proof {
            use_type_invariant(self);
        }
        self.count
    }
}

/// The sink for unsorted data, fed one record at a time.
///
/// It owns the buffer and the output stream, and remembers the timestamp of
/// the record last seen from each source. It stores nothing itself. Whoever
/// runs the sink hands it each record that arrives with
/// [`UnsortedDataSinkLoop::on_record`] and stores the run that this may
/// spill. Where [`UnsortedDataSinkLoop::due`] then names a watermark, they
/// read the files that [`UnsortedDataSinkLoop::files`] lists and hand their
/// contents to [`UnsortedDataSinkLoop::dump`], store what
/// [`UnsortedDataSinkLoop::take_output`] gives behind the output so far, and
/// pass the notice on to the reader of the output.
pub struct UnsortedDataSinkLoop {
    buffer: Buffer,
    writer: Writer,
    last_timestamps: [Option<Timestamp>; 5],
}

impl UnsortedDataSinkLoop {
    /// The buffer behind the sink.
    pub closed spec fn buffer(&self) -> Buffer {
        self.buffer
    }

    /// The output stream behind the sink.
    pub closed spec fn writer(&self) -> Writer {
        self.writer
    }

    /// The timestamp of the record last seen from each source, by source
    /// index.
    pub closed spec fn last_timestamps(&self) -> Seq<Option<Timestamp>> {
        self.last_timestamps@
    }

    /// The watermark, where every source has been heard and a resident
    /// record is due at it.
    pub open spec fn spec_due(&self) -> Option<Timestamp> {
        match watermark(self.last_timestamps()) {
            Some(ts) => if self.buffer().is_due(ts) {
                Some(ts)
            } else {
                None
            },
            None => None,
        }
    }

    /// Buffer and output stream are well formed.
    pub closed spec fn wf(&self) -> bool {
        &&& self.buffer.wf()
        &&& self.writer.wf()
    }

    /// Buffer and output stream of a well-formed sink are well formed.
    pub proof fn lemma_parts(&self)
        requires
            self.wf(),
        ensures
            self.buffer().wf(),
            self.writer().wf(),
    {
    }

    /// Makes a sink that has seen no record.
    pub fn new(buffer_config: BufferConfig) -> (sink: UnsortedDataSinkLoop)
        requires
            buffer_config.max_in_memory > 0,
        ensures
            sink.wf(),
            sink.buffer().resident() == Multiset::<RecordView>::empty(),
            sink.buffer().spilled() == Seq::<Seq<RecordView>>::empty(),
            sink.buffer().files_counter() == 0,
            sink.buffer().total_pushed() == 0,
            sink.buffer().total_dumped() == 0,
            sink.buffer().max_in_memory() == buffer_config.max_in_memory,
            sink.buffer().file_read_buf_capacity() == buffer_config.file_read_buf_capacity,
            sink.writer().records() == Seq::<RecordView>::empty(),
            sink.writer().taken() == 0,
            sink.last_timestamps() == Seq::new(SOURCES as nat, |i: int| None::<Timestamp>),
            sink.due() is None,
    {
        let sink = UnsortedDataSinkLoop {
            buffer: Buffer::new(buffer_config),
            writer: Writer::open(),
            last_timestamps: [None, None, None, None, None],
        };
        assert(sink.last_timestamps@ =~= Seq::new(SOURCES as nat, |i: int| None::<Timestamp>));
        sink
    }

    /// Takes in one record: notes its timestamp for its source and pushes it
    /// into the buffer. Where that spills a run, the run is handed out to be
    /// stored.
    pub fn on_record(&mut self, record: Record) -> (spill: Option<Spill>)
        requires
            old(self).wf(),
            old(self).buffer().total_pushed() < usize::MAX,
        ensures
            final(self).wf(),
            final(self).writer() == old(self).writer(),
            final(self).last_timestamps() == old(self).last_timestamps().update(
                record@.source(),
                Some(Timestamp(record@.timestamp())),
            ),
            final(self).buffer().resident() == old(self).buffer().resident().insert(record@),
            final(self).buffer().max_in_memory() == old(self).buffer().max_in_memory(),
            final(self).buffer().file_read_buf_capacity() == old(
                self,
            ).buffer().file_read_buf_capacity(),
            final(self).buffer().earliest_buffered_timestamp() == Some(
                match old(self).buffer().earliest_buffered_timestamp() {
                    Some(earliest) if earliest.0 <= record@.timestamp() => earliest,
                    _ => Timestamp(record@.timestamp()),
                },
            ),
            final(self).buffer().in_memory().len() < final(self).buffer().max_in_memory(),
            final(self).buffer().total_pushed() == old(self).buffer().total_pushed() + 1,
            final(self).buffer().total_dumped() == old(self).buffer().total_dumped(),
            spill is Some <==> old(self).buffer().in_memory().len() + 1 == old(self).buffer().max_in_memory(),
            spill is None ==> {
                &&& final(self).buffer().spilled() == old(self).buffer().spilled()
                &&& final(self).buffer().file_ids() == old(self).buffer().file_ids()
                &&& final(self).buffer().file_positions() == old(self).buffer().file_positions()
                &&& final(self).buffer().files_counter() == old(self).buffer().files_counter()
            },
            spill is Some ==> {
                &&& final(self).buffer().spilled().drop_last() == old(self).buffer().spilled()
                &&& final(self).buffer().spilled().len() == old(self).buffer().spilled().len() + 1
                &&& final(self).buffer().file_ids() == old(self).buffer().file_ids().push(
                    spill.unwrap().id,
                )
                &&& final(self).buffer().file_positions() == old(self).buffer().file_positions().push(0)
                &&& final(self).buffer().files_counter() == old(self).buffer().files_counter() + 1
                &&& spill.unwrap().id == old(self).buffer().files_counter()
                &&& spill.unwrap().bytes@ == encoding_of_all(final(self).buffer().spilled().last())
            },
    {
        let idx = record.source();
        self.last_timestamps[idx] = Some(record.timestamp());
        self.buffer.push_record(record)
    }

    /// The watermark to dump at, if there is anything to dump: the earliest
    /// of the sources' last timestamps, once every source has been heard
    /// and where a resident record is due at it.
    #[verifier::when_used_as_spec(spec_due)]
    pub fn due(&self) -> (due: Option<Timestamp>)
        ensures
            due == self.spec_due(),
    {
        match find_earliest_timestamp(self.last_timestamps.as_slice()) {
            Some(ts) => if self.buffer.is_due(ts) {
                Some(ts)
            } else {
                None
            },
            None => None,
        }
    }

    /// The files to read for a dump: of each spilled run, oldest first, the
    /// number that names its file and the offset to read it from.
    pub fn files(&self) -> (files: Vec<(usize, usize)>)
        ensures
            files@.len() == self.buffer().spilled().len(),
            forall|i: int|
                0 <= i < files@.len() ==> (#[trigger] files@[i]) == (
                    self.buffer().file_ids()[i],
                    self.buffer().file_positions()[i],
                ),
    {
        self.buffer.files()
    }

    /// The size of the read buffer to read the files with.
    pub fn read_buf_capacity(&self) -> (capacity: usize)
        ensures
            capacity == self.buffer().file_read_buf_capacity(),
    {
        self.buffer.read_buf_capacity()
    }

    /// Dumps what is due at the watermark, which must be defined and have
    /// something due. `contents` is what each file that
    /// [`UnsortedDataSinkLoop::files`] lists holds from its offset on. The
    /// notice tells how many records were appended to the output; there is
    /// none where nothing was appended. Where records of the in-memory run
    /// are left, that run is handed out to be stored.
    pub fn dump(&mut self, contents: Vec<Vec<u8>>) -> (dumped: Result<
        (Option<NewRecordsAvailable>, Option<Spill>),
        CorruptRun,
    >)
        requires
            old(self).wf(),
            old(self).due() is Some,
            contents@.len() == old(self).buffer().spilled().len(),
        ensures
            final(self).wf(),
            final(self).last_timestamps() == old(self).last_timestamps(),
            final(self).buffer().max_in_memory() == old(self).buffer().max_in_memory(),
            final(self).buffer().file_read_buf_capacity() == old(
                self,
            ).buffer().file_read_buf_capacity(),
            final(self).buffer().total_pushed() == old(self).buffer().total_pushed(),
            final(self).writer().taken() == old(self).writer().taken(),
            dumped is Ok <==> old(self).buffer().can_read(views_of(contents@)),
            match dumped {
                Err(error) => {
                    &&& final(self).buffer() == old(self).buffer()
                    &&& final(self).writer() == old(self).writer()
                    &&& exists|i: int|
                        0 <= i < contents@.len() && #[trigger] old(self).buffer().file_ids()[i]
                            == error.id && !old(self).buffer().can_read_run(i, contents@[i]@)
                            && forall|k: int|
                            i < k < contents@.len() ==> old(self).buffer().can_read_run(
                                k,
                                #[trigger] contents@[k]@,
                            )
                },
                Ok((notice, spill)) => {
                    let ts = old(self).due().unwrap();
                    let taken = old(self).buffer().in_memory().add(
                        union_of(runs_in(views_of(contents@))),
                    );
                    let appended = final(self).writer().records().skip(
                        old(self).writer().records().len() as int,
                    );
                    let ids = final(self).buffer().file_ids();
                    let cursors = final(self).buffer().file_positions();
                    let ids_before = old(self).buffer().file_ids();
                    let cursors_before = old(self).buffer().file_positions();
                    let counter_before = old(self).buffer().files_counter();
                    let stored = final(self).buffer().stored();
                    &&& old(self).writer().records().is_prefix_of(final(self).writer().records())
                    &&& sorted(appended)
                    &&& forall|k: int|
                        0 <= k < appended.len() ==> (#[trigger] appended[k]).timestamp() <= ts.0
                    &&& appended.to_multiset() == due(taken, ts)
                    &&& exists|last_run: Seq<RecordView>, origin: Seq<(int, int)>| #[trigger]
                        merged_with(
                            appended,
                            origin,
                            runs_in(views_of(contents@)),
                            last_run,
                            old(self).buffer().in_memory(),
                            bytes_of(spill),
                        )
                    &&& final(self).buffer().resident() == not_due(taken, ts)
                    &&& forall|r: RecordView| #[trigger]
                        final(self).buffer().resident().count(r) > 0 ==> r.timestamp() > ts.0
                    &&& notice is None <==> appended.len() == 0
                    &&& notice is Some ==> notice.unwrap()@ == appended.len()
                    &&& final(self).writer().flushed() == final(self).writer().records().len()
                    &&& final(self).buffer().total_dumped() == old(self).buffer().total_dumped()
                        + appended.len()
                    &&& final(self).buffer().in_memory().len() == 0
                    &&& final(self).buffer().files_counter() == counter_before + if old(
                        self,
                    ).buffer().in_memory().len() > 0 {
                        1nat
                    } else {
                        0nat
                    }
                    &&& is_earliest_of(
                        final(self).buffer().earliest_buffered_timestamp(),
                        final(self).buffer().resident(),
                    )
                    &&& forall|j: int|
                        0 <= j < ids.len() && (#[trigger] ids[j]) != counter_before
                            ==> exists|i: int|
                            0 <= i < ids_before.len() && (#[trigger] ids_before[i]) == ids[j]
                                && cursors_before[i] <= cursors[j] && stored[j]
                                == contents@[i]@.skip(cursors[j] - cursors_before[i])
                    &&& forall|i: int|
                        0 <= i < ids_before.len() ==> (ids.contains(#[trigger] ids_before[i])
                            <==> has_later(runs_in(views_of(contents@))[i], ts))
                    &&& spill is Some <==> exists|r: RecordView| #[trigger]
                        old(self).buffer().in_memory().count(r) > 0 && r.timestamp() > ts.0
                    &&& spill is Some <==> exists|i: int|
                        0 <= i < ids.len() && ids[i] == counter_before
                    &&& spill is Some ==> {
                        &&& spill.unwrap().id == counter_before
                        &&& ids.last() == spill.unwrap().id
                        &&& cursors.last() <= spill.unwrap().bytes@.len()
                        &&& stored.last() == spill.unwrap().bytes@.skip(cursors.last() as int)
                    }
                },
            },
            views_of(contents@) == old(self).buffer().stored() ==> dumped is Ok
                && dumped.unwrap().0 is Some && old(self).buffer().in_memory().add(
                union_of(runs_in(views_of(contents@))),
            ) == old(self).buffer().resident(),
    {
        let ts = match self.due() {
            Some(ts) => ts,
            None => vstd::pervasive::unreached(),
        };
        match self.buffer.dump_safe(&mut self.writer, ts, contents) {
            Ok((count, spill)) => Ok((NewRecordsAvailable::new(count.0), spill)),
            Err(error) => Err(error),
        }
    }

    /// How many records are resident in the buffer.
    pub fn resident_count(&self) -> (count: usize)
        requires
            self.wf(),
        ensures
            count == self.buffer().resident().len(),
    {
        self.buffer.resident_count()
    }

    /// How many records the sink took in since it was made.
    pub fn pushed_count(&self) -> (count: usize)
        ensures
            count == self.buffer().total_pushed(),
    {
        self.buffer.pushed_count()
    }

    /// How many runs the buffer spilled so far.
    pub fn spill_count(&self) -> (count: usize)
        ensures
            count == self.buffer().files_counter(),
    {
        self.buffer.spill_count()
    }

    /// Takes out the bytes that were appended to the output and flushed
    /// since the last call: they are to be stored behind those taken before.
    pub fn take_output(&mut self) -> (bytes: Vec<u8>)
        requires
            old(self).wf(),
        ensures
            final(self).wf(),
            final(self).buffer() == old(self).buffer(),
            final(self).last_timestamps() == old(self).last_timestamps(),
            final(self).writer().records() == old(self).writer().records(),
            final(self).writer().flushed() == old(self).writer().flushed(),
            final(self).writer().taken() == old(self).writer().flushed(),
            old(self).writer().taken() <= old(self).writer().flushed() <= old(self).writer().records().len(),
            bytes@ == encoding_of_all(
                old(self).writer().records().subrange(
                    old(self).writer().taken() as int,
                    old(self).writer().flushed() as int,
                ),
            ),
    {
        self.writer.take_flushed()
    }
}

/// Why a batch of announced records was turned down.
#[derive(Clone, Copy, Debug, PartialEq, Eq)]
pub enum BatchError {
    /// An announced record is not in the output.
    Missing,
    /// A record is earlier than the one read before it, be that in its own
    /// batch or in an earlier one.
    OutOfOrder,
}

/// What reading `count` records from `bytes` comes to, where the record read
/// last before them had the timestamp `prev`: the verdict, the bytes left,
/// and the timestamp of the record read last. Reading stops at the first
/// record that is missing or out of order; the record that is out of order
/// was read.
pub open spec fn batch_outcome(bytes: Seq<u8>, count: nat, prev: Option<u128>) -> (
    Result<(), BatchError>,
    Seq<u8>,
    Option<u128>,
)
    decreases count,
{
    if count == 0 {
        (Ok(()), bytes, prev)
    } else {
        match decoded(bytes) {
            None => (Err(BatchError::Missing), bytes, prev),
            Some(r) => {
                let rest = bytes.skip(encoding(r).len() as int);
                if prev is Some && r.timestamp() < prev.unwrap() {
                    (Err(BatchError::OutOfOrder), rest, Some(r.timestamp()))
                } else {
                    batch_outcome(rest, (count - 1) as nat, Some(r.timestamp()))
                }
            },
        }
    }
}

/// The timestamp of the last of `records`, and `prev` where there is none.
pub open spec fn last_of(records: Seq<RecordView>, prev: Option<u128>) -> Option<u128> {
    if records.len() > 0 {
        Some(records.last().timestamp())
    } else {
        prev
    }
}

/// A batch of sorted records that were written passes the check: where
/// `bytes` are those of `records`, which are sorted and not earlier than
/// `prev`, reading as many records finds them in order, leaves `rest`, and
/// ends at the last of them.
pub proof fn lemma_sorted_batch_passes(
    records: Seq<RecordView>,
    rest: Seq<u8>,
    prev: Option<u128>,
)
    requires
        sorted(records),
        forall|i: int| 0 <= i < records.len() ==> encodable(#[trigger] records[i]),
        prev is Some && records.len() > 0 ==> prev.unwrap() <= records[0].timestamp(),
    ensures
        batch_outcome(encoding_of_all(records) + rest, records.len(), prev) == (
            Ok::<(), BatchError>(()),
            rest,
            last_of(records, prev),
        ),
    decreases records.len(),
{
    if records.len() == 0 {
        assert(encoding_of_all(records) + rest =~= rest);
    } else {
        lemma_read_back(records, rest);
        let tail = records.drop_first();
        assert forall|i: int| 0 <= i < tail.len() implies encodable(#[trigger] tail[i]) by {
            assert(tail[i] == records[i + 1]);
        }
        assert forall|i: int, j: int| 0 <= i <= j < tail.len() implies (
        #[trigger] tail[i]).timestamp() <= (#[trigger] tail[j]).timestamp() by {
            assert(tail[i] == records[i + 1]);
            assert(tail[j] == records[j + 1]);
        }
        if tail.len() > 0 {
            assert(tail[0] == records[1]);
            assert(tail.last() == records.last());
        }
        lemma_sorted_batch_passes(tail, rest, Some(records[0].timestamp()));
    }
}

/// A batch that begins before the record read last is turned down at its
/// first record: the order is checked across batches.
pub proof fn lemma_batch_behind_an_earlier_one(
    first: RecordView,
    rest: Seq<u8>,
    count: nat,
    prev: u128,
)
    requires
        encodable(first),
        count > 0,
        first.timestamp() < prev,
    ensures
        batch_outcome(encoding(first) + rest, count, Some(prev)) == (
            Err::<(), BatchError>(BatchError::OutOfOrder),
            rest,
            Some(first.timestamp()),
        ),
{
    crate::wire::lemma_decoded_of_encoding(first, rest);
    assert((encoding(first) + rest).skip(encoding(first).len() as int) =~= rest);
}

/// The listener to the sorted output, fed one notice at a time.
///
/// Whoever runs it hands it the bytes that were stored in the output with
/// [`SortedOutputListenLoop::feed`], and each notice with
/// [`SortedOutputListenLoop::on_new_records`], which reads the announced
/// records and checks their order. The listener remembers the timestamp of
/// the record it read last, from one notice to the next.
pub struct SortedOutputListenLoop {
    reader: Reader,
    last: Option<Timestamp>,
}

impl SortedOutputListenLoop {
    /// The bytes of the output that were handed in and not read yet.
    pub closed spec fn unread(&self) -> Seq<u8> {
        self.reader.unread()
    }

    /// The timestamp of the record read last, and none before the first
    /// record was read.
    pub closed spec fn last_read(&self) -> Option<u128> {
        match self.last {
            Some(ts) => Some(ts.0),
            None => None,
        }
    }

    /// The reader is well formed.
    pub closed spec fn wf(&self) -> bool {
        self.reader.wf()
    }

    /// Makes a listener on an output of which nothing was handed in yet.
    pub fn new() -> (listener: SortedOutputListenLoop)
        ensures
            listener.wf(),
            listener.unread() == Seq::<u8>::empty(),
            listener.last_read() is None,
    {
        SortedOutputListenLoop { reader: Reader::open(), last: None }
    }

    /// Hands in the bytes of the output that follow those handed in before.
    pub fn feed(&mut self, bytes: Vec<u8>)
        requires
            old(self).wf(),
        ensures
            final(self).wf(),
            final(self).unread() == old(self).unread() + bytes@,
            final(self).last_read() == old(self).last_read(),
    {
        self.reader.feed(bytes);
    }

    /// Reads the records that `notice` announces and checks that none is
    /// earlier than the one read before it, the last record of the notice
    /// before included. Reading stops at the first record that is missing or
    /// out of order.
    pub fn on_new_records(&mut self, notice: &NewRecordsAvailable) -> (verdict: Result<
        (),
        BatchError,
    >)
        requires
            old(self).wf(),
        ensures
            final(self).wf(),
            (verdict, final(self).unread(), final(self).last_read()) == batch_outcome(
                old(self).unread(),
                notice@,
                old(self).last_read(),
            ),
    {
        let count = notice.get();
        let mut read: usize = 0;
        while read < count
            invariant
                self.wf(),
                read <= count,
                count == notice@,
                batch_outcome(old(self).unread(), notice@, old(self).last_read())
                    == batch_outcome(self.unread(), (count - read) as nat, self.last_read()),
            decreases count - read,
        {
            let record = match self.reader.read() {
                Ok(record) => record,
                Err(_) => {
                    return Err(BatchError::Missing);
                },
            };
            let ts = record.timestamp();
            let in_order = match self.last {
                Some(before) => ts.0 >= before.0,
                None => true,
            };
            self.last = Some(ts);
            if !in_order {
                return Err(BatchError::OutOfOrder);
            }
            read = read + 1;
        }
        Ok(())
    }
}

} // verus!
