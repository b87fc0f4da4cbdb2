//! The nesting depth reached while reading a tree.
use crate::nbt::codec::descend;
use crate::nbt::error::NbtError;
use vstd::prelude::*;

verus! {

/// Counts how deep the reader is inside lists and compounds, against a limit
/// (0 means no limit).
#[derive(Debug, Clone)]
pub struct ReaderTracker {
    max_depth: usize,
    current_depth: usize,
}

impl ReaderTracker {
    /// The limit; 0 means none.
    pub closed spec fn max(&self) -> nat {
        self.max_depth as nat
    }

    /// The current depth.
    pub closed spec fn depth(&self) -> nat {
        self.current_depth as nat
    }

    pub fn new(max_depth: usize) -> (r: Self)
        ensures
            r.max() == max_depth,
            r.depth() == 0,
    {
        ReaderTracker { max_depth, current_depth: 0 }
    }

    /// Enters a list or compound.
    pub(crate) fn increase_depth(&mut self) -> (r: Result<(), NbtError>)
        ensures
            match descend(old(self).depth(), old(self).max()) {
                Ok(d) => r is Ok && final(self).depth() == d && final(self).max() == old(self).max(),
                Err(k) => (r matches Err(e) && e.kind() == k) && *final(self) == *old(self),
            },
    {
        if self.max_depth > 0 {
            if self.current_depth == usize::MAX {
                return Err(NbtError::new_data_error("Depth overflow during increase"));
            }
            if self.current_depth + 1 > self.max_depth {
                return Err(NbtError::new_depth_limit_exceeded("Nesting level exceeds max depth"));
            }
            self.current_depth = self.current_depth + 1;
        }
        Ok(())
    }

    /// Leaves a list or compound.
    pub(crate) fn decrease_depth(&mut self)
        requires
            old(self).max() > 0 ==> old(self).depth() > 0,
        ensures
            final(self).max() == old(self).max(),
            final(self).depth() == if old(self).max() > 0 {
                (old(self).depth() - 1) as nat
            } else {
                old(self).depth()
            },
    {
        if self.max_depth > 0 {
            self.current_depth = self.current_depth - 1;
        }
    }
}

} // verus!
