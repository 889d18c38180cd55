//! Allocation of entity ids.

use vstd::prelude::*;

verus! {

/// Hands out node and edge ids in rising order. Id 0 stands for no entity and is
/// never handed out.
#[derive(Debug)]
pub struct IdAllocator {
    next_id: u64,
}

/// The id behind `id`; behind the largest one it starts again at 1.
pub open spec fn id_after(id: u64) -> u64 {
    if id == u64::MAX {
        1
    } else {
        (id + 1) as u64
    }
}

impl IdAllocator {
    /// The id that is handed out next.
    pub closed spec fn next(&self) -> u64 {
        self.next_id
    }

    /// Is the next id one that can be handed out?
    pub open spec fn wf(&self) -> bool {
        self.next() >= 1
    }

    /// An allocator that starts at `start`, or at 1.
    pub fn new(start: u64) -> (r: Self)
        ensures
            r.wf(),
            r.next() == (if start == 0 {
                1
            } else {
                start
            }),
    {
        if start == 0 {
            IdAllocator { next_id: 1 }
        } else {
            IdAllocator { next_id: start }
        }
    }

    /// Hands out the next id.
    pub fn allocate(&mut self) -> (id: u64)
        requires
            old(self).wf(),
        ensures
            final(self).wf(),
            id == old(self).next(),
            final(self).next() == id_after(old(self).next()),
    {
        let id: u64 = self.next_id;
        if id == u64::MAX {
            self.next_id = 1;
        } else {
            self.next_id = id + 1;
        }
        id
    }

    /// Makes all ids that are handed out from now on larger than `observed`.
    pub fn observe(&mut self, observed: u64)
        requires
            old(self).wf(),
        ensures
            final(self).wf(),
            final(self).next() == observed_next(old(self).next(), observed),
    {
        if observed < self.next_id {
            return;
        }
        if observed == u64::MAX {
            self.next_id = 1;
        } else {
            self.next_id = observed + 1;
        }
    }

    /// The id that is handed out next.
    pub fn peek(&self) -> (id: u64)
        ensures
            id == self.next(),
    {
        self.next_id
    }
}

/// The next id once `observed` has been seen.
pub open spec fn observed_next(next: u64, observed: u64) -> u64 {
    if observed < next {
        next
    } else {
        id_after(observed)
    }
}

/// The ids that follow are larger than one that was seen, unless that was the
/// largest there is.
pub proof fn law_observed_ids_are_passed(next: u64, observed: u64)
    requires
        observed < u64::MAX,
    ensures
        observed_next(next, observed) > observed,
        observed_next(next, observed) >= next,
        observed_next(next, observed) == next || observed_next(next, observed) == observed + 1,
{
}

/// No id is skipped: ids are handed out one by one, and seeing an id that was passed changes
/// nothing. Behind the largest id comes 1.
pub proof fn law_no_id_is_skipped(id: u64, next: u64)
    ensures
        id < u64::MAX ==> id_after(id) == id + 1,
        id_after(u64::MAX) == 1,
        id < next ==> observed_next(next, id) == next,
        id >= next ==> observed_next(next, id) == id_after(id),
{
}

/// Two ids that are handed out one after the other are different, and the later
/// one is larger until the ids start again.
pub proof fn law_ids_rise(id: u64)
    ensures
        id_after(id) >= 1,
        id < u64::MAX ==> id_after(id) > id,
        id_after(id) != id,
{
}

/// The number under which a node is locked.
pub fn node_resource_id(node_id: u64) -> (r: u64)
    ensures
        r == node_id % 0x1_0000_0000_0000,
{
    node_id % 0x1_0000_0000_0000
}

/// The number under which an edge is locked.
pub fn edge_resource_id(edge_id: u64) -> (r: u64)
    ensures
        r == 0x1_0000_0000_0000 + edge_id % 0x1_0000_0000_0000,
{
    0x1_0000_0000_0000 + edge_id % 0x1_0000_0000_0000
}

/// No node and no edge are locked under the same number, and different nodes under
/// different ones as long as their ids stay below 2 to the power of 48.
pub proof fn law_resources_apart(node_id: u64, other: u64, edge_id: u64)
    ensures
        node_id % 0x1_0000_0000_0000 != 0x1_0000_0000_0000 + edge_id % 0x1_0000_0000_0000,
        node_id < 0x1_0000_0000_0000 && other < 0x1_0000_0000_0000 && node_id != other ==> node_id
            % 0x1_0000_0000_0000 != other % 0x1_0000_0000_0000,
{
}

} // verus!
