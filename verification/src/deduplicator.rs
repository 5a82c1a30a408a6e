//! A bounded window of message ids that were seen lately.

use vstd::prelude::*;

verus! {

/// The ids that were accepted lately, oldest first, up to a fixed number. A
/// window of capacity zero keeps nothing and accepts every id.
pub struct MessageDeduplicator {
    capacity: usize,
    ids: Vec<u128>,
}

/// The window `window` of capacity `capacity` after `id` was tried: left as
/// it is where it holds `id` or keeps nothing; else `id` is added at the
/// end, and the oldest id leaves where the window was full.
pub open spec fn window_after(window: Seq<u128>, capacity: int, id: u128) -> Seq<u128> {
    if capacity <= 0 || window.contains(id) {
        window
    } else if window.len() >= capacity {
        window.drop_first().push(id)
    } else {
        window.push(id)
    }
}

/// The window after each of `ids` was tried, in their order.
pub open spec fn window_after_all(window: Seq<u128>, capacity: int, ids: Seq<u128>) -> Seq<u128>
    decreases ids.len(),
{
    if ids.len() == 0 {
        window
    } else {
        window_after(window_after_all(window, capacity, ids.drop_last()), capacity, ids.last())
    }
}

/// No id stands twice in `window`.
pub open spec fn distinct(window: Seq<u128>) -> bool {
    forall|i: int, j: int|
        0 <= i < j < window.len() ==> #[trigger] window[i] != #[trigger] window[j]
}

impl View for MessageDeduplicator {
    type V = Seq<u128>;

    closed spec fn view(&self) -> Seq<u128> {
        self.ids@
    }
}

impl MessageDeduplicator {
    /// The greatest number of ids that the window keeps.
    pub closed spec fn cap(&self) -> int {
        self.capacity as int
    }

    /// The window keeps no id twice, and no more ids than its capacity.
    pub closed spec fn wf(&self) -> bool {
        &&& distinct(self.ids@)
        &&& self.ids.len() <= self.capacity
    }

    /// What `wf` says of the window.
    pub proof fn lemma_wf(&self)
        requires
            self.wf(),
        ensures
            distinct(self@),
            self@.len() <= self.cap(),
    {
    }

    /// An empty window of the given capacity.
    pub fn new(capacity: usize) -> (deduplicator: MessageDeduplicator)
        ensures
            deduplicator.wf(),
            deduplicator@ == Seq::<u128>::empty(),
            deduplicator.cap() == capacity,
    {
        MessageDeduplicator { capacity, ids: Vec::new() }
    }

    /// The greatest number of ids that the window keeps.
    pub fn capacity(&self) -> (capacity: usize)
        ensures
            capacity == self.cap(),
    {
        self.capacity
    }

    /// The number of ids in the window.
    pub fn len(&self) -> (len: usize)
        ensures
            len == self@.len(),
    {
        self.ids.len()
    }

    /// Whether the window holds `id`.
    pub fn contains(&self, id: u128) -> (found: bool)
        ensures
            found == self@.contains(id),
    {
        let mut i: usize = 0;
        while i < self.ids.len()
            invariant
                i <= self.ids.len(),
                forall|j: int| 0 <= j < i ==> self.ids[j] != id,
            decreases self.ids.len() - i,
        {
            if self.ids[i] == id {
                return true;
            }
            i = i + 1;
        }
        false
    }

    /// Tries `id`: true where the window did not hold it, and now holds it
    /// (unless the window keeps nothing); false where the window held it
    /// already. Where the window was full, its oldest id has left.
    pub fn try_insert(&mut self, id: u128) -> (inserted: bool)
        requires
            old(self).wf(),
        ensures
            final(self).wf(),
            final(self).cap() == old(self).cap(),
            inserted == !old(self)@.contains(id),
            final(self)@ == window_after(old(self)@, old(self).cap(), id),
    {
        if self.contains(id) {
            return false;
        }
        if self.capacity == 0 {
            return true;
        }
        if self.ids.len() >= self.capacity {
            self.ids.remove(0);
            assert(self.ids@ =~= old(self).ids@.drop_first());
        }
        let ghost mid = self.ids@;
        self.ids.push(id);
        proof {
            assert forall|i: int, j: int| 0 <= i < j < self.ids@.len() implies #[trigger] self.ids@[i]
                != #[trigger] self.ids@[j] by {
                if j == mid.len() {
                    assert(old(self).ids@.contains(mid[i]));
                }
            }
        }
        true
    }
}

} // verus!
