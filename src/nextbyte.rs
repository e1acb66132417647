use vstd::prelude::*;

verus! {

/// What can happen on the next input byte, or at the end of input.
#[derive(Clone, Copy, Debug, PartialEq, Eq, Structural)]
pub enum NextByte {
    /// Only this byte can continue a match; any other byte, or the end of input, is dead.
    ForcedByte(u8),
    /// No byte can continue a match, but the end of input is accepted.
    ForcedEOI,
    /// Some bytes may continue a match.
    SomeBytes,
    /// No continuation at all.
    Dead,
}

/// Combination of two simultaneous requirements.
pub open spec fn meet_spec(a: NextByte, b: NextByte) -> NextByte {
    if a == b {
        a
    } else if a == NextByte::SomeBytes {
        b
    } else if b == NextByte::SomeBytes {
        a
    } else {
        NextByte::Dead
    }
}

/// Combination of two alternative possibilities.
pub open spec fn join_spec(a: NextByte, b: NextByte) -> NextByte {
    if a == b {
        a
    } else if a == NextByte::Dead {
        b
    } else if b == NextByte::Dead {
        a
    } else {
        NextByte::SomeBytes
    }
}

impl NextByte {
    /// Meet: the more specific of two facts, or `Dead` when they contradict.
    pub fn meet(self, other: Self) -> (r: Self)
        ensures
            r == meet_spec(self, other),
    {
        if self == other {
            self
        } else if self == NextByte::SomeBytes {
            other
        } else if other == NextByte::SomeBytes {
            self
        } else {
            NextByte::Dead
        }
    }

    /// Join: either fact, or `SomeBytes` when they differ and neither is `Dead`.
    pub fn join(self, other: Self) -> (r: Self)
        ensures
            r == join_spec(self, other),
    {
        if self == other {
            self
        } else if self == NextByte::Dead {
            other
        } else if other == NextByte::Dead {
            self
        } else {
            NextByte::SomeBytes
        }
    }
}

impl core::ops::BitAnd for NextByte {
    type Output = Self;

    fn bitand(self, other: Self) -> (r: Self)
        ensures
            r == meet_spec(self, other),
    {
        self.meet(other)
    }
}

impl core::ops::BitOr for NextByte {
    type Output = Self;

    fn bitor(self, other: Self) -> (r: Self)
        ensures
            r == join_spec(self, other),
    {
        self.join(other)
    }
}

impl vstd::std_specs::ops::BitAndSpecImpl for NextByte {
    open spec fn obeys_bitand_spec() -> bool {
        true
    }

    open spec fn bitand_req(self, rhs: NextByte) -> bool {
        true
    }

    open spec fn bitand_spec(self, rhs: NextByte) -> NextByte {
        meet_spec(self, rhs)
    }
}

impl vstd::std_specs::ops::BitOrSpecImpl for NextByte {
    open spec fn obeys_bitor_spec() -> bool {
        true
    }

    open spec fn bitor_req(self, rhs: NextByte) -> bool {
        true
    }

    open spec fn bitor_spec(self, rhs: NextByte) -> NextByte {
        join_spec(self, rhs)
    }
}

/// Meet and join are commutative and idempotent; `Dead` is the identity of
/// join and absorbs under meet; `SomeBytes` is the identity of meet.
pub proof fn lemma_next_byte_lattice(x: NextByte, y: NextByte)
    ensures
        meet_spec(x, y) == meet_spec(y, x),
        join_spec(x, y) == join_spec(y, x),
        meet_spec(x, x) == x,
        join_spec(x, x) == x,
        join_spec(NextByte::Dead, x) == x,
        join_spec(x, NextByte::Dead) == x,
        meet_spec(NextByte::Dead, x) == NextByte::Dead,
        meet_spec(x, NextByte::Dead) == NextByte::Dead,
        meet_spec(NextByte::SomeBytes, x) == x,
        meet_spec(x, NextByte::SomeBytes) == x,
{
}

} // verus!
