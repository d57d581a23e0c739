//! In-memory part of buffering: a bounded min-heap of records, keyed by
//! timestamp.

use crate::buffer::on_disk::FileStorage;
use crate::data::Record;
use crate::data::RecordView;
use vstd::multiset::Multiset;
use vstd::prelude::*;
use vstd::seq_lib::to_multiset_update;

verus! {

/// `<[T]>::swap`: exchanges the items at `a` and `b`. It panics where an
/// index is out of bounds, which the precondition rules out.
pub assume_specification<T>[ <[T]>::swap ](slice: &mut [T], a: usize, b: usize)
    requires
        a < old(slice)@.len(),
        b < old(slice)@.len(),
    ensures
        final(slice)@ == old(slice)@.update(a as int, old(slice)@[b as int]).update(
            b as int,
            old(slice)@[a as int],
        ),
;

/// The values of a sequence of records, item by item.
pub open spec fn views(records: Seq<Record>) -> Seq<RecordView> {
    Seq::new(records.len(), |i: int| records[i]@)
}

/// Whether no item comes before the one that stands before it.
pub open spec fn sorted(records: Seq<RecordView>) -> bool {
    forall|i: int, j: int|
        0 <= i <= j < records.len() ==> (#[trigger] records[i]).timestamp() <= (
        #[trigger] records[j]).timestamp()
}

/// Where the parent of heap slot `i` stands.
spec fn parent(i: int) -> int {
    (i - 1) / 2
}

/// The heap order: no slot holds an earlier record than its parent.
spec fn is_heap(s: Seq<RecordView>) -> bool {
    forall|i: int| 0 < i < s.len() ==> s[parent(i)].timestamp() <= (#[trigger] s[i]).timestamp()
}

/// The heap order with slot `k` left out as a child, while its own children
/// already respect its parent.
spec fn heap_but_above(s: Seq<RecordView>, k: int) -> bool {
    &&& forall|i: int|
        0 < i < s.len() && i != k ==> s[parent(i)].timestamp() <= (#[trigger] s[i]).timestamp()
    &&& forall|i: int|
        0 < i < s.len() && parent(i) == k && k > 0 ==> s[parent(k)].timestamp() <= (
        #[trigger] s[i]).timestamp()
}

/// The heap order with slot `k` left out as a parent, while its children
/// already respect its parent.
spec fn heap_but_below(s: Seq<RecordView>, k: int) -> bool {
    &&& forall|i: int|
        0 < i < s.len() && parent(i) != k ==> s[parent(i)].timestamp() <= (
        #[trigger] s[i]).timestamp()
    &&& forall|i: int|
        0 < i < s.len() && parent(i) == k && k > 0 ==> s[parent(k)].timestamp() <= (
        #[trigger] s[i]).timestamp()
}

/// In a heap the root is the earliest record.
proof fn lemma_root_is_earliest(s: Seq<RecordView>, i: int)
    requires
        is_heap(s),
        0 <= i < s.len(),
    ensures
        s[0].timestamp() <= s[i].timestamp(),
    decreases i,
{
    if i > 0 {
        lemma_root_is_earliest(s, parent(i));
    }
}

/// Exchanging two items keeps the records the same.
proof fn lemma_swap_keeps_records(s: Seq<RecordView>, a: int, b: int)
    requires
        0 <= a < s.len(),
        0 <= b < s.len(),
    ensures
        s.update(a, s[b]).update(b, s[a]).to_multiset() == s.to_multiset(),
{
    to_multiset_update(s, a, s[b]);
    to_multiset_update(s.update(a, s[b]), b, s[a]);
    s.to_multiset_ensures();
    assert(s.contains(s[a]));
    assert(s.contains(s[b]));
    assert(s.update(a, s[b]).update(b, s[a]).to_multiset() =~= s.to_multiset());
}

/// The two slots exchanged.
spec fn exchanged(s: Seq<RecordView>, a: int, b: int) -> Seq<RecordView> {
    s.update(a, s[b]).update(b, s[a])
}

/// A record that is earlier than its parent may move up: the heap order is
/// then broken at the parent's slot at most.
proof fn lemma_move_up(s: Seq<RecordView>, k: int)
    requires
        0 < k < s.len(),
        heap_but_above(s, k),
        s[k].timestamp() < s[parent(k)].timestamp(),
    ensures
        heap_but_above(exchanged(s, parent(k), k), parent(k)),
{
    let p = parent(k);
    let t = exchanged(s, p, k);
    assert forall|i: int| 0 < i < t.len() && i != p implies t[parent(i)].timestamp() <= (
    #[trigger] t[i]).timestamp() by {
        if i == k {
        } else if parent(i) == k {
            assert(s[p].timestamp() <= s[i].timestamp());
        } else if parent(i) == p {
            assert(s[p].timestamp() <= s[i].timestamp());
        } else {
            assert(s[parent(i)].timestamp() <= s[i].timestamp());
        }
    }
    assert forall|i: int| 0 < i < t.len() && parent(i) == p && p > 0 implies t[parent(
        p,
    )].timestamp() <= (#[trigger] t[i]).timestamp() by {
        assert(s[parent(p)].timestamp() <= s[p].timestamp());
        if i != k {
            assert(s[p].timestamp() <= s[i].timestamp());
        }
    }
}

/// Where the record in slot `k` is no earlier than its parent, or has none,
/// the heap order holds throughout.
proof fn lemma_settled_above(s: Seq<RecordView>, k: int)
    requires
        0 <= k < s.len(),
        heap_but_above(s, k),
        k > 0 ==> s[parent(k)].timestamp() <= s[k].timestamp(),
    ensures
        is_heap(s),
{
    assert forall|i: int| 0 < i < s.len() implies s[parent(i)].timestamp() <= (
    #[trigger] s[i]).timestamp() by {
        if i != k {
            assert(s[parent(i)].timestamp() <= s[i].timestamp());
        }
    }
}

/// A record that is later than its earliest child may move down: the heap
/// order is then broken at that child's slot at most.
proof fn lemma_move_down(s: Seq<RecordView>, k: int, least: int)
    requires
        0 <= k < s.len(),
        0 < least < s.len(),
        parent(least) == k,
        heap_but_below(s, k),
        s[least].timestamp() < s[k].timestamp(),
        forall|i: int|
            0 < i < s.len() && parent(i) == k ==> s[least].timestamp() <= (
            #[trigger] s[i]).timestamp(),
    ensures
        heap_but_below(exchanged(s, k, least), least),
{
    let t = exchanged(s, k, least);
    assert forall|i: int| 0 < i < t.len() && parent(i) != least implies t[parent(
        i,
    )].timestamp() <= (#[trigger] t[i]).timestamp() by {
        if i == least {
        } else if parent(i) == k {
            assert(s[least].timestamp() <= s[i].timestamp());
        } else if i == k {
            assert(s[parent(k)].timestamp() <= s[least].timestamp());
        } else {
            assert(s[parent(i)].timestamp() <= s[i].timestamp());
        }
    }
    assert forall|i: int| 0 < i < t.len() && parent(i) == least && least > 0 implies t[parent(
        least,
    )].timestamp() <= (#[trigger] t[i]).timestamp() by {
        assert(s[parent(i)].timestamp() <= s[i].timestamp());
    }
}

/// Where the record in slot `k` is no later than its children, the heap
/// order holds throughout.
proof fn lemma_settled_below(s: Seq<RecordView>, k: int)
    requires
        0 <= k < s.len(),
        heap_but_below(s, k),
        forall|i: int|
            0 < i < s.len() && parent(i) == k ==> s[k].timestamp() <= (
            #[trigger] s[i]).timestamp(),
    ensures
        is_heap(s),
{
    assert forall|i: int| 0 < i < s.len() implies s[parent(i)].timestamp() <= (
    #[trigger] s[i]).timestamp() by {
        if parent(i) != k {
            assert(s[parent(i)].timestamp() <= s[i].timestamp());
        }
    }
}

/// The children of slot `k` are the slots `2 * k + 1` and `2 * k + 2`.
proof fn lemma_children(k: int, i: int)
    requires
        0 <= k,
        0 < i,
    ensures
        parent(i) == k <==> (i == 2 * k + 1 || i == 2 * k + 2),
{
}

/// Exchanges slots `a` and `b` of the heap's storage.
fn exchange(heap: &mut Vec<Record>, a: usize, b: usize)
    requires
        a < old(heap)@.len(),
        b < old(heap)@.len(),
    ensures
        views(final(heap)@) == exchanged(views(old(heap)@), a as int, b as int),
        views(final(heap)@).to_multiset() == views(old(heap)@).to_multiset(),
        final(heap)@.len() == old(heap)@.len(),
{
    heap.swap(a, b);
    proof {
        let s = views(old(heap)@);
        assert(views(heap@) =~= exchanged(s, a as int, b as int));
        lemma_swap_keeps_records(s, a as int, b as int);
    }
}

/// Moves the record in slot `k` up until its parent is no later than it.
fn sift_up(heap: &mut Vec<Record>, k: usize)
    requires
        k < old(heap)@.len(),
        heap_but_above(views(old(heap)@), k as int),
    ensures
        is_heap(views(final(heap)@)),
        views(final(heap)@).to_multiset() == views(old(heap)@).to_multiset(),
        final(heap)@.len() == old(heap)@.len(),
{
    let mut k = k;
    loop
        invariant
            k < heap@.len(),
            heap@.len() == old(heap)@.len(),
            heap_but_above(views(heap@), k as int),
            views(heap@).to_multiset() == views(old(heap)@).to_multiset(),
        ensures
            is_heap(views(heap@)),
            views(heap@).to_multiset() == views(old(heap)@).to_multiset(),
            heap@.len() == old(heap)@.len(),
        decreases k,
    {
        if k == 0 {
            proof {
                lemma_settled_above(views(heap@), 0);
            }
            break ;
        }
        let p = (k - 1) / 2;
        if heap[p].timestamp().0 <= heap[k].timestamp().0 {
            proof {
                lemma_settled_above(views(heap@), k as int);
            }
            break ;
        }
        proof {
            lemma_move_up(views(heap@), k as int);
        }
        exchange(heap, p, k);
        k = p;
    }
}

/// Moves the record in slot `k` down until no child is earlier than it.
fn sift_down(heap: &mut Vec<Record>, k: usize)
    requires
        k < old(heap)@.len(),
        heap_but_below(views(old(heap)@), k as int),
    ensures
        is_heap(views(final(heap)@)),
        views(final(heap)@).to_multiset() == views(old(heap)@).to_multiset(),
        final(heap)@.len() == old(heap)@.len(),
{
    let len = heap.len();
    let mut k = k;
    loop
        invariant
            len == heap@.len(),
            k < len,
            heap@.len() == old(heap)@.len(),
            heap_but_below(views(heap@), k as int),
            views(heap@).to_multiset() == views(old(heap)@).to_multiset(),
        ensures
            is_heap(views(heap@)),
            views(heap@).to_multiset() == views(old(heap)@).to_multiset(),
            heap@.len() == old(heap)@.len(),
        decreases len - k,
    {
        let ghost s = views(heap@);
        if len < 2 || k > (len - 2) / 2 {
            proof {
                assert forall|i: int| 0 < i < s.len() && parent(i) == k implies s[k as int].timestamp()
                    <= (#[trigger] s[i]).timestamp() by {
                    lemma_children(k as int, i);
                }
                lemma_settled_below(s, k as int);
            }
            break ;
        }
        let left = 2 * k + 1;
        let mut least = left;
        if left + 1 < len && heap[left + 1].timestamp().0 < heap[left].timestamp().0 {
            least = left + 1;
        }
        proof {
            assert forall|i: int| 0 < i < s.len() && parent(i) == k implies s[least as int].timestamp()
                <= (#[trigger] s[i]).timestamp() by {
                lemma_children(k as int, i);
            }
            lemma_children(k as int, least as int);
        }
        if heap[k].timestamp().0 <= heap[least].timestamp().0 {
            proof {
                lemma_settled_below(s, k as int);
            }
            break ;
        }
        proof {
            lemma_move_down(s, k as int, least as int);
        }
        exchange(heap, k, least);
        k = least;
    }
}

/// In-memory heap of records, bounded by a capacity.
///
/// Records are pushed in any order and leave earliest first.
#[derive(Debug)]
pub struct Buffer {
    heap: Vec<Record>,
    capacity: usize,
}

impl View for Buffer {
    type V = Multiset<RecordView>;

    /// The records held, without their order.
    closed spec fn view(&self) -> Multiset<RecordView> {
        views(self.heap@).to_multiset()
    }
}

impl Buffer {
    /// How many records the buffer may hold.
    pub closed spec fn capacity(&self) -> nat {
        self.capacity as nat
    }

    /// The buffer holds no more records than its capacity, in heap order.
    pub closed spec fn wf(&self) -> bool {
        &&& self.heap@.len() <= self.capacity
        &&& is_heap(views(self.heap@))
    }

    /// The number of records is bounded by the capacity.
    pub proof fn lemma_bounded(&self)
        requires
            self.wf(),
        ensures
            self@.len() <= self.capacity() <= usize::MAX,
    {
        views(self.heap@).to_multiset_ensures();
    }

    /// Create with capacity.
    pub fn with_capacity(capacity: usize) -> (buffer: Buffer)
        ensures
            buffer.wf(),
            buffer@ == Multiset::<RecordView>::empty(),
            buffer.capacity() == capacity,
    {
        let buffer = Buffer { heap: Vec::with_capacity(capacity), capacity };
        proof {
            assert(views(buffer.heap@) =~= Seq::empty());
            views(buffer.heap@).to_multiset_ensures();
            assert(buffer@.len() == 0);
            assert(buffer@ =~= Multiset::empty());
        }
        buffer
    }

    /// Get the current number of records in memory.
    pub fn len(&self) -> (len: usize)
        ensures
            len == self@.len(),
    {
        proof {
            views(self.heap@).to_multiset_ensures();
        }
        self.heap.len()
    }

    /// Whether the buffer holds as many records as its capacity allows.
    pub fn is_full(&self) -> (full: bool)
        ensures
            full == (self@.len() == self.capacity()),
    {
        proof {
            views(self.heap@).to_multiset_ensures();
        }
        self.heap.len() == self.capacity
    }

    /// Push a record. The buffer must not be full.
    pub fn push(&mut self, record: Record)
        requires
            old(self).wf(),
            old(self)@.len() < old(self).capacity(),
        ensures
            final(self).wf(),
            final(self)@ == old(self)@.insert(record@),
            final(self).capacity() == old(self).capacity(),
    {
        proof {
            views(self.heap@).to_multiset_ensures();
        }
        let last = self.heap.len();
        self.heap.push(record);
        proof {
            assert(views(self.heap@) =~= views(old(self).heap@).push(record@));
        }
        sift_up(&mut self.heap, last);
    }

    /// Takes out the earliest record, if there is any.
    pub fn pop(&mut self) -> (earliest: Option<Record>)
        requires
            old(self).wf(),
        ensures
            final(self).wf(),
            final(self).capacity() == old(self).capacity(),
            match earliest {
                Some(record) => {
                    &&& old(self)@.contains(record@)
                    &&& final(self)@ == old(self)@.remove(record@)
                    &&& forall|other: RecordView|
                        old(self)@.contains(other) ==> record@.timestamp() <= other.timestamp()
                },
                None => old(self)@.len() == 0 && final(self)@ == old(self)@,
            },
    {
        let ghost before = views(self.heap@);
        proof {
            before.to_multiset_ensures();
        }
        let len = self.heap.len();
        if len == 0 {
            return None;
        }
        exchange(&mut self.heap, 0, len - 1);
        let ghost swapped = views(self.heap@);
        let earliest = self.heap.pop();
        let ghost rest = views(self.heap@);
        proof {
            assert(rest =~= swapped.drop_last());
            assert(swapped =~= rest.push(swapped.last()));
            rest.to_multiset_ensures();
            assert(rest.to_multiset() =~= before.to_multiset().remove(before[0]));
            assert(before.contains(before[0]));
            assert forall|other: RecordView| before.to_multiset().contains(other) implies before[0].timestamp()
                <= other.timestamp() by {
                let i = choose|i: int| 0 <= i < before.len() && before[i] == other;
                lemma_root_is_earliest(before, i);
            }
        }
        if len > 1 {
            sift_down(&mut self.heap, 0);
        } else {
            assert(is_heap(views(self.heap@)));
        }
        earliest
    }

    /// Write all records from memory into a run's file, in sorted order:
    /// the run's handle and the bytes that the file is to hold. The file is
    /// named by `id`.
    ///
    /// Returns [`None`] if there are no records.
    ///
    /// Empties the in-memory buffer.
    pub fn drain_into_file(&mut self, id: usize) -> (created: Option<(FileStorage, Vec<u8>)>)
        requires
            old(self).wf(),
        ensures
            final(self).wf(),
            final(self).capacity() == old(self).capacity(),
            final(self)@.len() == 0,
            created is None <==> old(self)@.len() == 0,
            created is Some ==> {
                let (storage, bytes) = created.unwrap();
                &&& storage.wf()
                &&& storage.id() == id
                &&& storage.pending().to_multiset() == old(self)@
                &&& sorted(storage.pending())
                &&& storage.position() == 0
                &&& bytes@ == storage.unread()
            },
    {
        FileStorage::new(self, id)
    }
}

} // verus!
