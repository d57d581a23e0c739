//! Spilled part of buffering: sorted runs in their stored form, read back
//! one record at a time.

use crate::buffer::in_memory::sorted;
use crate::buffer::in_memory::Buffer;
use crate::data::Record;
use crate::data::RecordView;
use crate::wire::decode;
use crate::wire::decoded;
use crate::wire::encodable;
use crate::wire::encode;
use crate::wire::encoding;
use crate::wire::encoding_of_all;
use crate::wire::lemma_encoding_len;
use crate::wire::lemma_encoding_of_all_concat;
use crate::wire::lemma_encoding_of_all_push;
use crate::wire::lemma_read_back;
use vstd::pervasive::unreached;
use vstd::prelude::*;
use vstd::slice::slice_subrange;

verus! {

/// The record at hand in a run with these pending records: the first of
/// them.
pub open spec fn head_of(pending: Seq<RecordView>) -> Option<RecordView> {
    if pending.len() > 0 {
        Some(pending[0])
    } else {
        None
    }
}

/// The pending records once the record at hand was consumed. A run that is
/// used up stays so.
pub open spec fn advanced(pending: Seq<RecordView>) -> Seq<RecordView> {
    if pending.len() > 0 {
        pending.drop_first()
    } else {
        pending
    }
}

/// The pending records once `n` records were consumed, one after the other.
pub open spec fn advanced_by(pending: Seq<RecordView>, n: nat) -> Seq<RecordView>
    decreases n,
{
    if n == 0 {
        pending
    } else {
        advanced(advanced_by(pending, (n - 1) as nat))
    }
}

/// Consuming `n` records leaves those from the `n`-th on.
pub proof fn lemma_advanced_by(pending: Seq<RecordView>, n: nat)
    ensures
        advanced_by(pending, n) == if n <= pending.len() {
            pending.skip(n as int)
        } else {
            Seq::empty()
        },
    decreases n,
{
    if n == 0 {
        assert(pending.skip(0) =~= pending);
    } else {
        lemma_advanced_by(pending, (n - 1) as nat);
        if n <= pending.len() {
            assert(pending.skip(n - 1).drop_first() =~= pending.skip(n as int));
        } else if n - 1 == pending.len() {
            assert(pending.skip(n - 1) =~= Seq::empty());
        }
    }
}

/// Reading a run is resumable and in order: the records at hand across
/// successive advances are the run's records in file order, and none once
/// they are used up. Opening and closing a run in between changes nothing,
/// since neither touches the pending records.
pub proof fn lemma_heads_in_file_order(pending: Seq<RecordView>, n: nat)
    ensures
        head_of(advanced_by(pending, n)) == if n < pending.len() {
            Some(pending[n as int])
        } else {
            None
        },
        n < pending.len() && sorted(pending) ==> forall|k: nat|
            k <= n ==> pending[k as int].timestamp() <= pending[n as int].timestamp(),
{
    lemma_advanced_by(pending, n);
}

/// Whether `bytes` are the bytes of the sorted run `records` of `count`
/// records.
pub open spec fn holds_run(bytes: Seq<u8>, records: Seq<RecordView>, count: nat) -> bool {
    &&& encoding_of_all(records) == bytes
    &&& records.len() == count
    &&& sorted(records)
    &&& forall|i: int| 0 <= i < records.len() ==> encodable(#[trigger] records[i])
}

/// Whether `bytes` are the bytes of some sorted run of `count` records.
pub open spec fn is_run(bytes: Seq<u8>, count: nat) -> bool {
    exists|records: Seq<RecordView>| holds_run(bytes, records, count)
}

/// The bytes of a run behind its first `k` records are those of the other
/// records.
pub proof fn lemma_encoding_of_all_skip(records: Seq<RecordView>, k: int)
    requires
        0 <= k <= records.len(),
    ensures
        encoding_of_all(records) == encoding_of_all(records.subrange(0, k)) + encoding_of_all(
            records.skip(k),
        ),
{
    assert(records.subrange(0, k) + records.skip(k) =~= records);
    lemma_encoding_of_all_concat(records.subrange(0, k), records.skip(k));
}

/// Bytes are the bytes of one run at most: the records can be told from
/// their bytes.
pub proof fn lemma_one_run(first: Seq<RecordView>, second: Seq<RecordView>)
    requires
        encoding_of_all(first) == encoding_of_all(second),
        forall|i: int| 0 <= i < first.len() ==> encodable(#[trigger] first[i]),
        forall|i: int| 0 <= i < second.len() ==> encodable(#[trigger] second[i]),
    ensures
        first == second,
    decreases first.len(),
{
    if first.len() > 0 {
        lemma_encoding_len(first[0]);
    }
    if second.len() > 0 {
        lemma_encoding_len(second[0]);
    }
    if first.len() == 0 || second.len() == 0 {
        assert(encoding_of_all(first).len() == 0 ==> first.len() == 0);
        assert(encoding_of_all(second).len() == 0 ==> second.len() == 0);
        assert(first =~= second);
    } else {
        lemma_read_back(first, Seq::empty());
        lemma_read_back(second, Seq::empty());
        assert(encoding_of_all(first) + Seq::<u8>::empty() =~= encoding_of_all(first));
        assert(encoding_of_all(second) + Seq::<u8>::empty() =~= encoding_of_all(second));
        assert(first[0] == second[0]);
        assert(encoding_of_all(first.drop_first()) + Seq::<u8>::empty() =~= encoding_of_all(
            first.drop_first(),
        ));
        assert(encoding_of_all(second.drop_first()) + Seq::<u8>::empty() =~= encoding_of_all(
            second.drop_first(),
        ));
        assert forall|i: int| 0 <= i < first.drop_first().len() implies encodable(
            #[trigger] first.drop_first()[i],
        ) by {
            assert(first.drop_first()[i] == first[i + 1]);
        }
        assert forall|i: int| 0 <= i < second.drop_first().len() implies encodable(
            #[trigger] second.drop_first()[i],
        ) by {
            assert(second.drop_first()[i] == second[i + 1]);
        }
        lemma_one_run(first.drop_first(), second.drop_first());
        assert(first =~= seq![first[0]] + first.drop_first());
        assert(second =~= seq![second[0]] + second.drop_first());
    }
}

/// Why the bytes handed in for a run were turned down.
#[derive(Clone, Copy, Debug, PartialEq, Eq)]
pub struct CorruptRun {
    /// The number that names the run's file.
    pub id: usize,
}

/// Reads `bytes` as a sorted run of `count` records, and gives the records
/// where they are one.
fn check_run(bytes: &Vec<u8>, count: usize) -> (found: Option<Ghost<Seq<RecordView>>>)
    ensures
        match found {
            Some(records) => holds_run(bytes@, records@, count as nat),
            None => !is_run(bytes@, count as nat),
        },
{
    let len = bytes.len();
    let mut at: usize = 0;
    let mut seen: usize = 0;
    let mut floor: u128 = 0;
    let ghost mut records: Seq<RecordView> = Seq::empty();
    proof {
        assert(bytes@.subrange(0, 0) =~= encoding_of_all(records));
        assert forall|other: Seq<RecordView>| #[trigger]
            holds_run(bytes@, other, count as nat) implies other.subrange(0, 0) == records by {
            assert(other.subrange(0, 0) =~= records);
        }
    }
    while seen < count
        invariant
            len == bytes@.len(),
            at <= len,
            seen <= count,
            seen == records.len(),
            bytes@.subrange(0, at as int) == encoding_of_all(records),
            sorted(records),
            forall|i: int| 0 <= i < records.len() ==> encodable(#[trigger] records[i]),
            seen > 0 ==> floor == records.last().timestamp(),
            forall|other: Seq<RecordView>| #[trigger]
                holds_run(bytes@, other, count as nat) ==> other.subrange(0, seen as int)
                    == records,
        decreases count - seen,
    {
        let rest = slice_subrange(bytes.as_slice(), at, len);
        proof {
            // whatever run the bytes hold goes on with its next record here
            assert forall|other: Seq<RecordView>| #[trigger]
                holds_run(bytes@, other, count as nat) implies decoded(rest@) == Some(
                other[seen as int],
            ) && rest@.skip(encoding(other[seen as int]).len() as int) == encoding_of_all(
                other.skip(seen + 1),
            ) by {
                lemma_encoding_of_all_skip(other, seen as int);
                let tail = other.skip(seen as int);
                assert(rest@ =~= encoding_of_all(tail));
                lemma_read_back(tail, Seq::empty());
                assert(encoding_of_all(tail) + Seq::<u8>::empty() =~= encoding_of_all(tail));
                assert(tail.drop_first() =~= other.skip(seen + 1));
                assert(encoding_of_all(tail.drop_first()) + Seq::<u8>::empty()
                    =~= encoding_of_all(tail.drop_first()));
            }
        }
        match decode(rest) {
            None => {
                return None;
            },
            Some((record, used)) => {
                let ts = record.timestamp().0;
                if seen > 0 && ts < floor {
                    proof {
                        assert forall|other: Seq<RecordView>| #[trigger]
                            holds_run(bytes@, other, count as nat) implies false by {
                            assert(other.subrange(0, seen as int)[seen - 1] == other[seen - 1]);
                            assert(other[seen - 1].timestamp() <= other[seen as int].timestamp());
                        }
                    }
                    return None;
                }
                proof {
                    let before = records;
                    records = before.push(record@);
                    lemma_encoding_of_all_push(before, record@);
                    assert(bytes@.subrange(0, at + used) =~= bytes@.subrange(0, at as int)
                        + rest@.subrange(0, used as int));
                    assert forall|other: Seq<RecordView>| #[trigger]
                        holds_run(bytes@, other, count as nat) implies other.subrange(
                        0,
                        seen + 1,
                    ) == records by {
                        assert(other.subrange(0, seen + 1) =~= other.subrange(0, seen as int).push(
                            other[seen as int],
                        ));
                    }
                    assert forall|i: int, j: int| 0 <= i <= j < records.len() implies (
                    #[trigger] records[i]).timestamp() <= (#[trigger] records[j]).timestamp() by {
                        if j == before.len() && i < j {
                            assert(before[i].timestamp() <= before.last().timestamp());
                        }
                    }
                }
                floor = ts;
                at = at + used;
                seen = seen + 1;
            },
        }
    }
    if at != len {
        proof {
            assert forall|other: Seq<RecordView>| #[trigger]
                holds_run(bytes@, other, count as nat) implies false by {
                assert(other.subrange(0, seen as int) =~= other);
                assert(bytes@.subrange(0, at as int).len() == at);
            }
        }
        return None;
    }
    proof {
        assert(bytes@.subrange(0, at as int) =~= bytes@);
    }
    Some(Ghost(records))
}

/// The file of a sorted run, as the buffer keeps track of it.
///
/// The file holds the bytes of the run's records, earliest first. It is
/// stored by whoever owns the buffer; what is kept here is its number and a
/// cursor: the offset of the first record that was not consumed yet, and how
/// many records follow. To read the run, hand the bytes from the cursor on
/// to [`FileStorage::read`].
pub struct FileStorage {
    id: usize,
    position: usize,
    remaining: usize,
    pending: Ghost<Seq<RecordView>>,
}

impl FileStorage {
    /// The number that names the file among the runs of one buffer.
    pub closed spec fn spec_id(&self) -> usize {
        self.id
    }

    /// The records that were not consumed yet, earliest first, as they were
    /// when the file was last written or read.
    pub closed spec fn pending(&self) -> Seq<RecordView> {
        self.pending@
    }

    /// The cursor: the offset in the file of the first pending record.
    pub closed spec fn spec_position(&self) -> usize {
        self.position
    }

    /// The bytes that the file holds from the cursor on.
    pub open spec fn unread(&self) -> Seq<u8> {
        encoding_of_all(self.pending())
    }

    /// The pending records are sorted and as many as the run counts, and the
    /// file ends within what an offset can tell.
    pub closed spec fn wf(&self) -> bool {
        &&& self.remaining == self.pending@.len()
        &&& sorted(self.pending@)
        &&& forall|i: int| 0 <= i < self.pending@.len() ==> encodable(#[trigger] self.pending@[i])
        &&& self.position + encoding_of_all(self.pending@).len() <= usize::MAX
    }

    /// The pending records of a run are sorted and few enough to count, and
    /// their bytes make a run.
    pub proof fn lemma_pending(&self)
        requires
            self.wf(),
        ensures
            sorted(self.pending()),
            self.pending().len() <= usize::MAX,
            self.position() + self.unread().len() <= usize::MAX,
            holds_run(self.unread(), self.pending(), self.pending().len()),
    {
    }

    /// Create by draining the heap into a file, earliest record first: the
    /// run's handle and the bytes that the file is to hold.
    ///
    /// Returns [`None`] if the heap is empty.
    pub fn new(heap: &mut Buffer, id: usize) -> (created: Option<(FileStorage, Vec<u8>)>)
        requires
            old(heap).wf(),
        ensures
            final(heap).wf(),
            final(heap).capacity() == old(heap).capacity(),
            final(heap)@.len() == 0,
            created is None <==> old(heap)@.len() == 0,
            created is Some ==> {
                let (storage, bytes) = created.unwrap();
                &&& storage.wf()
                &&& storage.id() == id
                &&& storage.pending().to_multiset() == old(heap)@
                &&& sorted(storage.pending())
                &&& storage.position() == 0
                &&& bytes@ == storage.unread()
            },
    {
        if heap.len() == 0 {
            return None;
        }
        let mut bytes: Vec<u8> = Vec::new();
        let mut count: usize = 0;
        let ghost mut drained: Seq<RecordView> = Seq::empty();
        proof {
            heap.lemma_bounded();
            drained.to_multiset_ensures();
            assert(drained.to_multiset().add(heap@) =~= old(heap)@);
        }
        loop
            invariant
                heap.wf(),
                heap.capacity() == old(heap).capacity(),
                old(heap)@.len() <= usize::MAX,
                drained.to_multiset().add(heap@) == old(heap)@,
                sorted(drained),
                forall|i: int, other: RecordView|
                    0 <= i < drained.len() && #[trigger] heap@.count(other) > 0 ==> (
                    #[trigger] drained[i]).timestamp() <= other.timestamp(),
                forall|i: int| 0 <= i < drained.len() ==> encodable(#[trigger] drained[i]),
                bytes@ == encoding_of_all(drained),
                count == drained.len(),
            ensures
                heap@.len() == 0,
            decreases heap@.len(),
        {
            let ghost held = heap@;
            let next = heap.pop();
            match next {
                None => {
                    break ;
                },
                Some(record) => {
                    let ghost before = drained;
                    proof {
                        before.to_multiset_ensures();
                        drained = before.push(record@);
                        drained.to_multiset_ensures();
                        assert forall|i: int, other: RecordView|
                            0 <= i < drained.len() && #[trigger] heap@.count(other) > 0 implies (
                        #[trigger] drained[i]).timestamp() <= other.timestamp() by {
                            assert(held.count(other) > 0);
                            assert(held.contains(other));
                            if i < before.len() {
                                assert(before[i].timestamp() <= other.timestamp());
                            }
                        }
                        assert(drained.to_multiset().add(heap@) =~= old(heap)@);
                        assert(drained.len() <= old(heap)@.len());
                        lemma_encoding_of_all_push(before, record@);
                    }
                    encode(&record, &mut bytes);
                    count = count + 1;
                },
            }
        }
        proof {
            drained.to_multiset_ensures();
            assert(drained.to_multiset() =~= old(heap)@);
            vstd::std_specs::vec::axiom_spec_len(&bytes);
        }
        Some((FileStorage { id, position: 0, remaining: count, pending: Ghost(drained) }, bytes))
    }

    /// Create a reader on `bytes`, which are to be what the file holds from
    /// the cursor on. They are turned down where they are not the bytes of a
    /// sorted run of as many records as are pending. `capacity` is the size
    /// of the read buffer that the bytes were read with.
    pub fn read(&self, capacity: usize, bytes: Vec<u8>) -> (opened: Result<
        FileStorageReader,
        CorruptRun,
    >)
        requires
            self.wf(),
        ensures
            opened is Ok <==> is_run(bytes@, self.pending().len()) && self.position() + bytes@.len()
                <= usize::MAX,
            match opened {
                Ok(reader) => {
                    &&& reader.wf()
                    &&& reader.id() == self.id()
                    &&& reader.capacity() == capacity
                    &&& reader.contents() == bytes@
                    &&& reader.origin() == self.position()
                    &&& reader.position() == self.position()
                    &&& holds_run(bytes@, reader.pending(), self.pending().len())
                },
                Err(error) => error.id == self.id(),
            },
            bytes@ == self.unread() ==> opened is Ok && opened.unwrap().pending() == self.pending(),
    {
        proof {
            if bytes@ == self.unread() {
                assert(holds_run(bytes@, self.pending(), self.pending().len()));
            }
        }
        if bytes.len() > usize::MAX - self.position {
            return Err(CorruptRun { id: self.id });
        }
        match check_run(&bytes, self.remaining) {
            None => Err(CorruptRun { id: self.id }),
            Some(records) => {
                proof {
                    if bytes@ == self.unread() {
                        lemma_one_run(records@, self.pending());
                    }
                }
                let storage = FileStorage {
                    id: self.id,
                    position: self.position,
                    remaining: self.remaining,
                    pending: records,
                };
                Ok(FileStorageReader::new(storage, capacity, bytes))
            },
        }
    }

    /// Whether every record of the run was consumed.
    pub fn is_empty(&self) -> (empty: bool)
        requires
            self.wf(),
        ensures
            empty == (self.pending().len() == 0),
    {
        self.remaining == 0
    }

    /// The number that names the file among the runs of one buffer.
    #[verifier::when_used_as_spec(spec_id)]
    pub fn id(&self) -> (id: usize)
        ensures
            id == self.spec_id(),
    {
        self.id
    }

    /// The cursor: the offset in the file of the first pending record.
    #[verifier::when_used_as_spec(spec_position)]
    pub fn position(&self) -> (position: usize)
        ensures
            position == self.spec_position(),
    {
        self.position
    }
}

/// The record that a reader has read ahead, and how many bytes it took.
struct LastRead {
    record: Record,
    bytes_read: usize,
}

/// Performs reading from a run's file in merge-sort-friendly way: the
/// earliest pending record is at hand, and the reader moves on to the next
/// one on demand.
pub struct FileStorageReader {
    storage: FileStorage,
    capacity: usize,
    bytes: Vec<u8>,
    bytes_read: usize,
    last: Option<LastRead>,
}

impl FileStorageReader {
    /// The number that names the file being read.
    pub closed spec fn id(&self) -> usize {
        self.storage.id
    }

    /// The bytes that the reader was opened on: what the file holds from
    /// [`Self::origin`] on.
    pub closed spec fn contents(&self) -> Seq<u8> {
        self.bytes@
    }

    /// The offset in the file where the reader was opened.
    pub closed spec fn origin(&self) -> usize {
        self.storage.position
    }

    /// The offset in the file of the record at hand, and the end of the
    /// file where none is at hand.
    pub closed spec fn position(&self) -> nat {
        match self.last {
            Some(last) => (self.storage.position + self.bytes_read - last.bytes_read) as nat,
            None => (self.storage.position + self.bytes_read) as nat,
        }
    }

    /// The size of the read buffer that the reader was opened with.
    pub closed spec fn capacity(&self) -> usize {
        self.capacity
    }

    /// The records that were not consumed yet, earliest first. The first of
    /// them is the one at hand.
    pub closed spec fn pending(&self) -> Seq<RecordView> {
        self.storage.pending@
    }

    /// The reader stands right behind the record at hand, or at the first
    /// pending record where none is at hand.
    spec fn positioned(&self) -> bool {
        let bytes = self.bytes@;
        let pending = self.storage.pending@;
        &&& self.bytes_read <= bytes.len()
        &&& self.storage.position + bytes.len() <= usize::MAX
        &&& self.storage.remaining == pending.len()
        &&& sorted(pending)
        &&& forall|i: int| 0 <= i < pending.len() ==> encodable(#[trigger] pending[i])
        &&& match self.last {
            Some(last) => {
                &&& pending.len() > 0
                &&& last.record@ == pending[0]
                &&& last.bytes_read == encoding(pending[0]).len()
                &&& last.bytes_read <= self.bytes_read
                &&& bytes.subrange(self.bytes_read - last.bytes_read, bytes.len() as int)
                    == encoding_of_all(pending)
            },
            None => bytes.subrange(self.bytes_read as int, bytes.len() as int) == encoding_of_all(
                pending,
            ),
        }
    }

    /// The reader is positioned, and has a record at hand unless the run is
    /// used up.
    pub closed spec fn wf(&self) -> bool {
        &&& self.positioned()
        &&& self.last is None ==> self.storage.pending@.len() == 0
    }

    /// The pending records of a reader are sorted, and their bytes are what
    /// the file holds from the record at hand on.
    pub proof fn lemma_pending(&self)
        requires
            self.wf(),
        ensures
            sorted(self.pending()),
            self.pending().len() <= usize::MAX,
            self.origin() <= self.position() <= self.origin() + self.contents().len(),
            self.contents().skip(self.position() - self.origin()) == encoding_of_all(
                self.pending(),
            ),
    {
    }

    /// Opens a reader on the bytes that the file is known to hold from the
    /// cursor on.
    pub(crate) fn new(storage: FileStorage, capacity: usize, bytes: Vec<u8>) -> (reader:
        FileStorageReader)
        requires
            storage.wf(),
            bytes@ == storage.unread(),
        ensures
            reader.wf(),
            reader.pending() == storage.pending(),
            reader.id() == storage.id(),
            reader.capacity() == capacity,
            reader.contents() == bytes@,
            reader.origin() == storage.position(),
            reader.position() == storage.position(),
    {
        let mut reader = FileStorageReader { storage, capacity, bytes, bytes_read: 0, last: None };
        assert(reader.bytes@.subrange(0, reader.bytes@.len() as int) =~= reader.bytes@);
        reader.fetch();
        reader
    }

    /// Reads the first pending record, if there is one, and keeps it at hand.
    fn fetch(&mut self)
        requires
            old(self).positioned(),
            old(self).last is None,
        ensures
            final(self).wf(),
            final(self).pending() == old(self).pending(),
            final(self).id() == old(self).id(),
            final(self).capacity() == old(self).capacity(),
            final(self).contents() == old(self).contents(),
            final(self).origin() == old(self).origin(),
            final(self).position() == old(self).storage.position + old(self).bytes_read,
    {
        if self.storage.remaining != 0 {
            let len = self.bytes.len();
            let unread = slice_subrange(self.bytes.as_slice(), self.bytes_read, len);
            proof {
                let pending = self.storage.pending@;
                lemma_read_back(pending, Seq::empty());
                assert(encoding_of_all(pending) + Seq::<u8>::empty() =~= encoding_of_all(pending));
            }
            match decode(unread) {
                Some((record, bytes_read)) => {
                    self.bytes_read = self.bytes_read + bytes_read;
                    self.last = Some(LastRead { record, bytes_read });
                },
                None => {
                    unreached()
                },
            }
        }
    }

    /// Last record read from the file, i.e. the earliest pending in this file
    /// so far.
    ///
    /// [`Self::read_next`] moves to the next one (if there is).
    pub fn last(&self) -> (head: Option<&Record>)
        requires
            self.wf(),
        ensures
            match head {
                Some(record) => head_of(self.pending()) == Some(record@),
                None => head_of(self.pending()) is None,
            },
    {
        match &self.last {
            Some(last) => Some(&last.record),
            None => None,
        }
    }

    /// Read the next record (if there is), changing the result of
    /// [`Self::last`]: the record at hand is consumed.
    pub fn read_next(&mut self)
        requires
            old(self).wf(),
        ensures
            final(self).wf(),
            final(self).id() == old(self).id(),
            final(self).pending() == advanced(old(self).pending()),
            final(self).capacity() == old(self).capacity(),
            final(self).contents() == old(self).contents(),
            final(self).origin() == old(self).origin(),
            final(self).position() == old(self).position() + match head_of(old(self).pending()) {
                Some(head) => encoding(head).len(),
                None => 0,
            },
    {
        if self.last.is_some() {
            let ghost pending = self.storage.pending@;
            proof {
                lemma_read_back(pending, Seq::empty());
                assert(encoding_of_all(pending) + Seq::<u8>::empty() =~= encoding_of_all(pending));
                assert(encoding_of_all(pending.drop_first()) + Seq::<u8>::empty()
                    =~= encoding_of_all(pending.drop_first()));
                let bytes = self.bytes@;
                let at = self.bytes_read - self.last.unwrap().bytes_read;
                assert(bytes.subrange(at, bytes.len() as int).skip(
                    encoding(pending[0]).len() as int,
                ) =~= bytes.subrange(self.bytes_read as int, bytes.len() as int));
            }
            self.storage.remaining = self.storage.remaining - 1;
            self.storage.pending = Ghost(pending.drop_first());
            self.last = None;
        }
        self.fetch();
    }

    /// Close the reader: the run's handle, with the cursor at the record
    /// that is at hand now, and the bytes that the reader was opened on.
    /// Reading the file again from the cursor on resumes at that record.
    pub fn close(self) -> (closed: (FileStorage, Vec<u8>))
        requires
            self.wf(),
        ensures
            closed.0.wf(),
            closed.0.pending() == self.pending(),
            closed.0.id() == self.id(),
            closed.0.position() == self.position(),
            closed.1@ == self.contents(),
            closed.0.unread() == self.contents().skip(self.position() - self.origin()),
    {
        let rewind = match &self.last {
            Some(last) => last.bytes_read,
            None => 0,
        };
        let mut storage = self.storage;
        storage.position = storage.position + (self.bytes_read - rewind);
        (storage, self.bytes)
    }
}

} // verus!
