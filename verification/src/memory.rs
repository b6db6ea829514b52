//! A first-in first-out memory of past embeddings and their labels, used to
//! widen the pool of negatives beyond the current batch.
use vstd::prelude::*;
use vstd::slice::slice_to_vec;

verus! {

/// The last `capacity` items of `s`, or all of `s` when it holds no more.
pub open spec fn keep_last<A>(s: Seq<A>, capacity: nat) -> Seq<A> {
    if s.len() <= capacity {
        s
    } else {
        s.subrange(s.len() - capacity, s.len() as int)
    }
}

/// The contents of each slice of `s`.
pub open spec fn slice_views<T>(s: Seq<&[T]>) -> Seq<Seq<T>> {
    s.map_values(|e: &[T]| e@)
}

/// The contents of each vector of `s`.
pub open spec fn vec_views<T>(s: Seq<Vec<T>>) -> Seq<Seq<T>> {
    s.map_values(|e: Vec<T>| e@)
}

/// Keeping the last `capacity` items after one more arrives: below capacity
/// the item is appended, at capacity the oldest item leaves first.
proof fn lemma_keep_last_push<A>(s: Seq<A>, x: A, capacity: nat)
    requires
        capacity > 0,
    ensures
        keep_last(s, capacity).len() < capacity ==> keep_last(s.push(x), capacity) == keep_last(
            s,
            capacity,
        ).push(x),
        keep_last(s, capacity).len() >= capacity ==> keep_last(s.push(x), capacity)
            == keep_last(s, capacity).remove(0).push(x),
        keep_last(s, capacity).len() <= capacity,
{
    let k = keep_last(s, capacity);
    if s.len() < capacity {
        assert(keep_last(s.push(x), capacity) =~= k.push(x));
    } else {
        assert(k.len() == capacity);
        assert(keep_last(s.push(x), capacity) =~= k.remove(0).push(x));
    }
}

/// Enqueueing two batches one after the other leaves the memory that
/// enqueueing them as a single batch would: keeping the last `capacity` items
/// twice keeps the same items as keeping them once at the end.
pub proof fn law_enqueue_in_two_batches<A>(
    held: Seq<A>,
    first: Seq<A>,
    second: Seq<A>,
    capacity: nat,
)
    ensures
        keep_last(keep_last(held + first, capacity) + second, capacity) == keep_last(
            held + first + second,
            capacity,
        ),
{
    let s = held + first;
    let k = keep_last(s, capacity);
    let left = keep_last(k + second, capacity);
    let right = keep_last(s + second, capacity);
    assert(s + second =~= held + first + second);
    if s.len() <= capacity {
        assert(k == s);
    } else {
        assert(k.len() == capacity);
        if second.len() >= capacity {
            assert(left =~= second.subrange(second.len() - capacity, second.len() as int));
            assert(right =~= second.subrange(second.len() - capacity, second.len() as int));
        } else {
            assert forall|i: int| 0 <= i < left.len() implies left[i] == right[i] by {
                if second.len() + i < capacity {
                    assert(left[i] == k[second.len() + i]);
                    assert(right[i] == s[s.len() - capacity + second.len() + i]);
                } else {
                    assert(left[i] == second[second.len() + i - capacity]);
                    assert(right[i] == second[second.len() + i - capacity]);
                }
            }
            assert(left =~= right);
        }
    }
}

/// Cross-batch memory buffer for expanding the negative pool.
///
/// Maintains a FIFO queue of past embeddings. Call [`enqueue`](CrossBatchMemory::enqueue)
/// after each batch to add the current batch's embeddings. Use [`embeddings`](CrossBatchMemory::embeddings)
/// to get the full memory bank as negative candidates for any pair-based loss.
#[derive(Debug, Clone)]
pub struct CrossBatchMemory<T> {
    buffer: Vec<Vec<T>>,
    labels: Vec<usize>,
    capacity: usize,
    dim: usize,
}

impl<T: Copy> CrossBatchMemory<T> {
    /// The stored embeddings, oldest first.
    pub closed spec fn entries(&self) -> Seq<Seq<T>> {
        vec_views(self.buffer@)
    }

    /// The stored labels, oldest first; label `i` belongs to embedding `i`.
    pub closed spec fn stored_labels(&self) -> Seq<usize> {
        self.labels@
    }

    /// The most embeddings the memory holds.
    pub closed spec fn capacity(&self) -> nat {
        self.capacity as nat
    }

    /// The length of every stored embedding.
    pub closed spec fn dim(&self) -> nat {
        self.dim as nat
    }

    /// One label per embedding, no more embeddings than the capacity, and each
    /// of length `dim`.
    pub closed spec fn wf(&self) -> bool {
        &&& self.buffer@.len() == self.labels@.len()
        &&& self.buffer@.len() <= self.capacity
        &&& forall|i: int| 0 <= i < self.buffer@.len() ==> (#[trigger] self.buffer@[i])@.len()
            == self.dim
    }

    /// A well-formed memory never holds more embeddings than its capacity,
    /// holds exactly one label per embedding, and every embedding has length
    /// `dim`.
    pub proof fn law_memory_within_capacity(&self)
        requires
            self.wf(),
        ensures
            self.entries().len() <= self.capacity(),
            self.stored_labels().len() == self.entries().len(),
            forall|i: int| 0 <= i < self.entries().len() ==> (#[trigger] self.entries()[i]).len()
                == self.dim(),
    {
    }

    /// Create a new memory buffer.
    pub fn new(capacity: usize, dim: usize) -> (memory: Self)
        ensures
            memory.wf(),
            memory.entries() == Seq::<Seq<T>>::empty(),
            memory.stored_labels() == Seq::<usize>::empty(),
            memory.capacity() == capacity,
            memory.dim() == dim,
    {
        let memory = CrossBatchMemory {
            buffer: Vec::with_capacity(capacity),
            labels: Vec::with_capacity(capacity),
            capacity,
            dim,
        };
        assert(memory.entries() =~= Seq::<Seq<T>>::empty());
        memory
    }

    /// Add a batch of embeddings to the memory. Oldest entries are evicted when full.
    ///
    /// The memory then holds the last `capacity` of its former embeddings
    /// followed by the new ones, and the same for the labels.
    pub fn enqueue(&mut self, embeddings: &[&[T]], labels: &[usize])
        requires
            old(self).wf(),
            embeddings@.len() == labels@.len(),
            forall|i: int| 0 <= i < embeddings@.len() ==> (#[trigger] embeddings@[i])@.len()
                == old(self).dim(),
            embeddings@.len() > 0 ==> old(self).capacity() > 0,
        ensures
            final(self).wf(),
            final(self).capacity() == old(self).capacity(),
            final(self).dim() == old(self).dim(),
            final(self).entries() == keep_last(
                old(self).entries() + slice_views(embeddings@),
                old(self).capacity(),
            ),
            final(self).stored_labels() == keep_last(
                old(self).stored_labels() + labels@,
                old(self).capacity(),
            ),            final(self).entries().len() == if old(self).entries().len() + embeddings@.len()
                <= old(self).capacity() {
                old(self).entries().len() + embeddings@.len()
            } else {
                old(self).capacity()
            },
            final(self).stored_labels().len() == final(self).entries().len(),
            forall|i: int| 0 <= i < final(self).entries().len() ==> {
                let idx = old(self).entries().len() + embeddings@.len() - final(self).entries().len() + i;
                #[trigger] final(self).entries()[i] == if idx < old(self).entries().len() {
                    old(self).entries()[idx]
                } else {
                    embeddings@[idx - old(self).entries().len()]@
                }
            },
            forall|i: int| 0 <= i < final(self).stored_labels().len() ==> {
                let idx = old(self).stored_labels().len() + labels@.len() - final(self).stored_labels().len() + i;
                #[trigger] final(self).stored_labels()[i] == if idx < old(self).stored_labels().len() {
                    old(self).stored_labels()[idx]
                } else {
                    labels@[idx - old(self).stored_labels().len()]
                }
            },
    {
        let ghost old_entries = self.entries();
        let ghost old_labels = self.stored_labels();
        let ghost cap = self.capacity as nat;
        assert(keep_last(old_entries + slice_views(embeddings@).take(0), cap) =~= old_entries);
        assert(keep_last(old_labels + labels@.take(0), cap) =~= old_labels);
        let n = embeddings.len();
        let mut t: usize = 0;
        while t < n
            invariant
                t <= n,
                n == embeddings@.len(),
                n == labels@.len(),
                self.wf(),
                self.capacity == cap,
                self.dim == old(self).dim(),
                n > 0 ==> cap > 0,
                forall|i: int| 0 <= i < embeddings@.len() ==> (#[trigger] embeddings@[i])@.len()
                    == self.dim,
                self.entries() == keep_last(
                    old_entries + slice_views(embeddings@).take(t as int),
                    cap,
                ),
                self.stored_labels() == keep_last(old_labels + labels@.take(t as int), cap),
            decreases n - t,
        {
            let emb: &[T] = embeddings[t];
            let label = labels[t];
            let ghost before_entries = old_entries + slice_views(embeddings@).take(t as int);
            let ghost before_labels = old_labels + labels@.take(t as int);
            proof {
                lemma_keep_last_push(before_entries, emb@, cap);
                lemma_keep_last_push(before_labels, label, cap);
                assert(before_entries.push(emb@) =~= old_entries + slice_views(embeddings@).take(
                    t + 1,
                ));
                assert(before_labels.push(label) =~= old_labels + labels@.take(t + 1));
            }
            if self.buffer.len() >= self.capacity {
                let ghost b = self.buffer@;
                self.buffer.remove(0);
                self.labels.remove(0);
                assert(vec_views(self.buffer@) =~= vec_views(b).remove(0));
            }
            let ghost b = self.buffer@;
            let copy = slice_to_vec(emb);
            self.buffer.push(copy);
            self.labels.push(label);
            assert(vec_views(self.buffer@) =~= vec_views(b).push(emb@));
            t = t + 1;
        }
        assert(slice_views(embeddings@).take(n as int) =~= slice_views(embeddings@));
        assert(labels@.take(n as int) =~= labels@);
        let ghost all_entries = old_entries + slice_views(embeddings@);
        let ghost all_labels = old_labels + labels@;
        assert forall|i: int| 0 <= i < self.entries().len() implies #[trigger] self.entries()[i]
            == all_entries[all_entries.len() - self.entries().len() + i] by {}
        assert forall|i: int| 0 <= i < self.stored_labels().len() implies #[trigger] self.stored_labels()[i]
            == all_labels[all_labels.len() - self.stored_labels().len() + i] by {}
    }

    /// Get all stored embeddings as slice references, oldest first.
    pub fn embeddings(&self) -> (stored: Vec<&[T]>)
        ensures
            slice_views(stored@) == self.entries(),
            stored@.len() == self.entries().len(),
            forall|i: int| 0 <= i < stored@.len() ==> (#[trigger] stored@[i])@ == self.entries()[i],
    {
        let mut stored: Vec<&[T]> = Vec::new();
        let mut i: usize = 0;
        while i < self.buffer.len()
            invariant
                i <= self.buffer@.len(),
                slice_views(stored@) =~= self.entries().take(i as int),
            decreases self.buffer@.len() - i,
        {
            let ghost before = stored@;
            let entry: &[T] = self.buffer[i].as_slice();
            stored.push(entry);
            assert(slice_views(stored@) =~= slice_views(before).push(entry@));
            assert(self.entries().take(i + 1) =~= self.entries().take(i as int).push(entry@));
            i = i + 1;
        }
        assert(self.entries().take(i as int) =~= self.entries());
        stored
    }

    /// Get all stored labels, oldest first.
    pub fn memory_labels(&self) -> (stored: &[usize])
        ensures
            stored@ == self.stored_labels(),
    {
        self.labels.as_slice()
    }

    /// Number of embeddings currently stored.
    pub fn len(&self) -> (count: usize)
        ensures
            count == self.entries().len(),
    {
        self.buffer.len()
    }

    /// Whether the buffer is empty.
    pub fn is_empty(&self) -> (empty: bool)
        ensures
            empty == (self.entries().len() == 0),
    {
        self.buffer.len() == 0
    }
}

} // verus!
