//! The newest batches of a partition, kept in memory within a budget of
//! bytes.

use crate::batch::{total_size, BatchView, RetainedMessageBatch};
use crate::chain::batch_views;
use std::sync::Arc;
use vstd::prelude::*;

verus! {

/// Batches in the order in which they were appended, oldest first, and the
/// bytes that they take, held against a budget.
pub struct BatchCache {
    batches: Vec<Arc<RetainedMessageBatch>>,
    current_size: u64,
    capacity_bytes: u64,
}

/// The number of batches that leave the head of `bs`, which may hold
/// `capacity` bytes, to make room for `size` more bytes: as few as it takes,
/// and all where even the empty cache has no room.
pub open spec fn evictions(bs: Seq<BatchView>, capacity: int, size: int) -> nat
    decreases bs.len(),
{
    if bs.len() == 0 || total_size(bs) + size <= capacity {
        0
    } else {
        1 + evictions(bs.drop_first(), capacity, size)
    }
}

/// The number of batches that leave the head of `bs` to free `size` bytes:
/// as few as it takes, and all where `bs` does not take that many.
pub open spec fn evictions_to_free(bs: Seq<BatchView>, size: int) -> nat
    decreases bs.len(),
{
    if bs.len() == 0 || size <= 0 {
        0
    } else {
        1 + evictions_to_free(bs.drop_first(), size - bs[0].size_bytes())
    }
}

/// The size of batches is that of the first and of the others.
pub proof fn lemma_total_size_first(bs: Seq<BatchView>)
    requires
        bs.len() > 0,
    ensures
        total_size(bs) == bs[0].size_bytes() + total_size(bs.drop_first()),
    decreases bs.len(),
{
    if bs.len() == 1 {
        assert(bs.drop_last() =~= Seq::<BatchView>::empty());
        assert(bs.drop_first() =~= Seq::<BatchView>::empty());
    } else {
        lemma_total_size_first(bs.drop_last());
        assert(bs.drop_first().drop_last() =~= bs.drop_last().drop_first());
        assert(bs.drop_first().last() == bs.last());
        assert(bs.drop_last()[0] == bs[0]);
    }
}

/// No size is negative.
pub proof fn lemma_total_size_nonnegative(bs: Seq<BatchView>)
    ensures
        total_size(bs) >= 0,
    decreases bs.len(),
{
    if bs.len() > 0 {
        lemma_total_size_nonnegative(bs.drop_last());
    }
}

impl View for BatchCache {
    type V = Seq<BatchView>;

    closed spec fn view(&self) -> Seq<BatchView> {
        batch_views(self.batches@)
    }
}

impl BatchCache {
    /// The bytes that the cache may hold.
    pub closed spec fn capacity(&self) -> int {
        self.capacity_bytes as int
    }

    /// The bytes that the cache is accounted for.
    pub closed spec fn used(&self) -> int {
        self.current_size as int
    }

    /// The cache is accounted for the bytes that its batches take.
    pub closed spec fn wf(&self) -> bool {
        self.current_size == total_size(batch_views(self.batches@))
    }

    /// What `wf` says of the cache.
    pub proof fn lemma_wf(&self)
        requires
            self.wf(),
        ensures
            self.used() == total_size(self@),
    {
    }

    /// The bytes that the cache is accounted for are a number of bytes.
    pub proof fn lemma_used(&self)
        ensures
            0 <= self.used() <= u64::MAX,
    {
    }

    /// An empty cache that may hold `capacity_bytes` bytes.
    pub fn new(capacity_bytes: u64) -> (cache: BatchCache)
        ensures
            cache.wf(),
            cache@ == Seq::<BatchView>::empty(),
            cache.capacity() == capacity_bytes,
    {
        let cache = BatchCache { batches: Vec::new(), current_size: 0, capacity_bytes };
        assert(cache@ =~= Seq::<BatchView>::empty());
        cache
    }

    /// Whether the cache holds no batch.
    pub fn is_empty(&self) -> (empty: bool)
        ensures
            empty == (self@.len() == 0),
    {
        self.batches.len() == 0
    }

    /// The number of batches in the cache.
    pub fn len(&self) -> (len: usize)
        ensures
            len == self@.len(),
    {
        self.batches.len()
    }

    /// The batch at the place `index`, counted from the oldest.
    pub fn get(&self, index: usize) -> (batch: &Arc<RetainedMessageBatch>)
        requires
            index < self@.len(),
        ensures
            batch@ == self@[index as int],
    {
        &self.batches[index]
    }

    /// The batches of the cache, oldest first.
    pub fn batches(&self) -> (batches: &Vec<Arc<RetainedMessageBatch>>)
        ensures
            batch_views(batches@) == self@,
    {
        &self.batches
    }

    /// The bytes that the batches of the cache take.
    pub fn current_size(&self) -> (size: u64)
        ensures
            size == self.used(),
    {
        self.current_size
    }

    /// Whether `size_bytes` more bytes fit into the budget.
    pub fn will_fit_into_cache(&self, size_bytes: u64) -> (fits: bool)
        ensures
            fits == (self.used() + size_bytes <= self.capacity()),
    {
        size_bytes <= self.capacity_bytes && self.current_size <= self.capacity_bytes - size_bytes
    }

    /// Takes the oldest batch out of the cache.
    fn evict_oldest(&mut self)
        requires
            old(self).wf(),
            old(self)@.len() > 0,
        ensures
            final(self).wf(),
            final(self)@ == old(self)@.drop_first(),
            final(self).capacity() == old(self).capacity(),
            final(self).used() == old(self).used() - old(self)@[0].size_bytes(),
    {
        proof {
            lemma_total_size_first(self@);
            lemma_total_size_nonnegative(self@.drop_first());
        }
        let oldest = self.batches.remove(0);
        assert(oldest@ == old(self)@[0]);
        self.current_size = self.current_size - oldest.get_size_bytes();
        assert(self@ =~= old(self)@.drop_first());
    }

    /// Adds `batch` behind the newest batch. Where it does not fit, the
    /// oldest batches leave first, until it fits or the cache is empty.
    pub fn append(&mut self, batch: Arc<RetainedMessageBatch>)
        requires
            old(self).wf(),
        ensures
            final(self).wf(),
            final(self).capacity() == old(self).capacity(),
            final(self)@ == old(self)@.subrange(
                evictions(old(self)@, old(self).capacity(), batch@.size_bytes()) as int,
                old(self)@.len() as int,
            ).push(batch@),
    {
        let size = batch.get_size_bytes();
        let ghost before = self@;
        let ghost mut evicted: int = 0;
        assert(before.subrange(0, before.len() as int) =~= before);
        while !self.will_fit_into_cache(size) && !self.is_empty()
            invariant
                self.wf(),
                self.capacity() == old(self).capacity(),
                before == old(self)@,
                size == batch@.size_bytes(),
                0 <= evicted <= before.len(),
                self@ == before.subrange(evicted, before.len() as int),
                evictions(before, self.capacity(), size as int) == evicted + evictions(
                    self@,
                    self.capacity(),
                    size as int,
                ),
            decreases self@.len(),
        {
            proof {
                self.lemma_wf();
                assert(before.subrange(evicted, before.len() as int).drop_first()
                    =~= before.subrange(evicted + 1, before.len() as int));
            }
            self.evict_oldest();
            proof {
                evicted = evicted + 1;
            }
        }
        proof {
            self.lemma_wf();
            lemma_total_size_nonnegative(self@);
            assert(self@.push(batch@).drop_last() =~= self@);
        }
        let ghost mid = self@;
        self.current_size = self.current_size + size;
        self.batches.push(batch);
        assert(self@ =~= mid.push(batch@));
    }

    /// Takes the oldest batches out of the cache until `size_bytes` bytes are
    /// free of them, or the cache is empty. Gives the bytes that were freed.
    pub fn evict_by_size(&mut self, size_bytes: u64) -> (freed: u64)
        requires
            old(self).wf(),
        ensures
            final(self).wf(),
            final(self).capacity() == old(self).capacity(),
            final(self)@ == old(self)@.subrange(
                evictions_to_free(old(self)@, size_bytes as int) as int,
                old(self)@.len() as int,
            ),
            freed == old(self).used() - final(self).used(),
            freed >= size_bytes || final(self)@.len() == 0,
    {
        let ghost before = self@;
        let ghost mut evicted: int = 0;
        let mut freed: u64 = 0;
        let initial_size = self.current_size;
        proof {
            self.lemma_wf();
            lemma_total_size_nonnegative(self@);
        }
        assert(before.subrange(0, before.len() as int) =~= before);
        while freed < size_bytes && !self.is_empty()
            invariant
                self.wf(),
                self.capacity() == old(self).capacity(),
                before == old(self)@,
                0 <= evicted <= before.len(),
                self@ == before.subrange(evicted, before.len() as int),
                freed == old(self).used() - self.used(),
                initial_size == old(self).used(),
                self.used() >= 0,
                evictions_to_free(before, size_bytes as int) == evicted + evictions_to_free(
                    self@,
                    size_bytes - freed,
                ),
            decreases self@.len(),
        {
            proof {
                assert(before.subrange(evicted, before.len() as int).drop_first()
                    =~= before.subrange(evicted + 1, before.len() as int));
            }
            let ghost used = self.used();
            self.evict_oldest();
            proof {
                evicted = evicted + 1;
                self.lemma_wf();
                lemma_total_size_nonnegative(self@);
            }
            freed = initial_size - self.current_size;
        }
        freed
    }
}

} // verus!
