use vstd::prelude::*;

verus! {

/// Type of access a query may have to an archetype.
///
/// The levels are ordered: `Iterate < Read < Write`.
#[derive(Debug, Copy, Clone, PartialEq, Eq, Structural, PartialOrd, Ord, Hash)]
pub enum Access {
    /// Read entity ids only, no components
    Iterate,
    /// Read components
    Read,
    /// Read and write components
    Write,
}

impl Access {
    /// Position of the level in the order `Iterate < Read < Write`.
    pub open spec fn rank(self) -> nat {
        match self {
            Access::Iterate => 0,
            Access::Read => 1,
            Access::Write => 2,
        }
    }

    /// The stronger of two access levels.
    pub fn max(self, other: Access) -> (r: Access)
        ensures
            r == (if self.rank() >= other.rank() { self } else { other }),
    {
        match (self, other) {
            (Access::Write, _) => Access::Write,
            (_, Access::Write) => Access::Write,
            (Access::Read, _) => Access::Read,
            (_, Access::Read) => Access::Read,
            _ => Access::Iterate,
        }
    }
}

/// Rank of an optional access level, `None` standing below every level.
pub open spec fn opt_rank(a: Option<Access>) -> nat {
    match a {
        None => 0,
        Some(x) => x.rank() + 1,
    }
}

/// The stronger of two optional access levels, where `None` is below every level.
pub open spec fn spec_max_access(a: Option<Access>, b: Option<Access>) -> Option<Access> {
    if opt_rank(a) >= opt_rank(b) {
        a
    } else {
        b
    }
}

/// The stronger of two optional access levels, where `None` is below every level.
pub fn max_access(a: Option<Access>, b: Option<Access>) -> (r: Option<Access>)
    ensures
        r == spec_max_access(a, b),
{
    match (a, b) {
        (None, _) => b,
        (_, None) => a,
        (Some(x), Some(y)) => Some(x.max(y)),
    }
}

} // verus!
