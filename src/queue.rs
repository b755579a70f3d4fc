use vstd::prelude::*;
use crate::bitset::MAX_SUBSETS;

verus! {

/// Worklist of subsets awaiting propagation, stored in a fixed-capacity array.
pub struct Queue {
    pub data: [usize; MAX_SUBSETS],
    pub len: usize,
}

impl Queue {
    /// An empty worklist.
    pub fn new() -> (r: Queue)
        ensures
            r.len == 0,
    {
        Queue { data: [0usize; MAX_SUBSETS], len: 0 }
    }

    /// Empties the worklist.
    pub fn clear(&mut self)
        ensures
            final(self).len == 0,
            final(self).data == old(self).data,
    {
        self.len = 0;
    }

    /// Appends `x` at the end.
    pub fn push(&mut self, x: usize)
        requires
            old(self).len < MAX_SUBSETS,
        ensures
            final(self).len == old(self).len + 1,
            final(self).data@ == old(self).data@.update(old(self).len as int, x),
    {
        self.data[self.len] = x;
        self.len = self.len + 1;
    }
}

} // verus!
