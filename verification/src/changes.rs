//! Counts of inserted and removed lines.

use vstd::prelude::*;

verus! {

/// `n` brought into the range of `u64`: counts that would pass the largest
/// number stay at it.
pub open spec fn clip(n: int) -> u64 {
    if n <= 0 {
        0u64
    } else if n >= u64::MAX {
        u64::MAX
    } else {
        n as u64
    }
}

/// `n` brought into the range of `usize`.
pub open spec fn clip_size(n: int) -> usize {
    if n <= 0 {
        0usize
    } else if n >= usize::MAX {
        usize::MAX
    } else {
        n as usize
    }
}

/// How many lines a file, or everything below a directory, gained and lost.
#[derive(Clone, Copy, PartialEq, Eq, Debug, Structural)]
pub struct Changes {
    pub added: u64,
    pub removed: u64,
}

impl Default for Changes {
    fn default() -> (zero: Self)
        ensures
            zero == (Changes { added: 0, removed: 0 }),
    {
        Changes { added: 0, removed: 0 }
    }
}

impl core::ops::Add for Changes {
    type Output = Self;

    fn add(self, rhs: Self) -> (sum: Self) {
        Changes {
            added: self.added.saturating_add(rhs.added),
            removed: self.removed.saturating_add(rhs.removed),
        }
    }
}

impl vstd::std_specs::ops::AddSpecImpl for Changes {
    open spec fn obeys_add_spec() -> bool {
        true
    }

    open spec fn add_req(self, rhs: Changes) -> bool {
        true
    }

    open spec fn add_spec(self, rhs: Changes) -> Changes {
        self.plus(rhs)
    }
}

impl Changes {
    /// No line was inserted or removed.
    pub open spec fn zero() -> Changes {
        Changes { added: 0, removed: 0 }
    }

    /// The sum of two counts, each part held at the largest `u64` where it
    /// would pass it.
    pub open spec fn plus(self, rhs: Changes) -> Changes {
        Changes {
            added: clip(self.added + rhs.added),
            removed: clip(self.removed + rhs.removed),
        }
    }

    /// Is any line counted?
    pub fn any(&self) -> (any: bool)
        ensures
            any == (*self != Changes::zero()),
    {
        self.added != 0 || self.removed != 0
    }
}

} // verus!
