//! Log sequence numbers: the address of a record in the write-ahead log.

use vstd::prelude::*;

verus! {

/// The position of a record's first byte: the segment that holds it and the
/// byte offset inside that segment.
#[derive(Copy, Clone, Debug, PartialEq, Eq, Structural)]
pub struct Lsn {
    pub segment: u64,
    pub offset: u64,
}

impl Lsn {
    /// The start of the log, as a value of specifications.
    pub open spec fn zero_spec() -> Lsn {
        Lsn { segment: 0, offset: 0 }
    }

    /// The start of the log.
    #[verifier::when_used_as_spec(zero_spec)]
    pub fn zero() -> (lsn: Self)
        ensures
            lsn == Lsn::zero_spec(),
    {
        Self { segment: 0, offset: 0 }
    }

    pub fn new(segment: u64, offset: u64) -> (lsn: Self)
        ensures
            lsn.segment == segment,
            lsn.offset == offset,
    {
        Self { segment, offset }
    }

    /// The lexicographic order on `(segment, offset)`, strict.
    pub open spec fn lt(self, other: Lsn) -> bool {
        self.segment < other.segment || (self.segment == other.segment && self.offset
            < other.offset)
    }

    /// The lexicographic order on `(segment, offset)`.
    pub open spec fn le(self, other: Lsn) -> bool {
        self.lt(other) || self == other
    }

    /// Whether `self` addresses an earlier position than `other`.
    pub fn precedes(&self, other: &Lsn) -> (b: bool)
        ensures
            b == self.lt(*other),
    {
        self.segment < other.segment || (self.segment == other.segment && self.offset
            < other.offset)
    }

    /// Whether `self` addresses `other`'s position or an earlier one.
    pub fn at_or_before(&self, other: &Lsn) -> (b: bool)
        ensures
            b == self.le(*other),
    {
        self.precedes(other) || (self.segment == other.segment && self.offset == other.offset)
    }
}

/// The order on log sequence numbers is total: of two addresses exactly one
/// of "earlier", "equal" and "later" holds.
pub proof fn lemma_lsn_order_total(a: Lsn, b: Lsn)
    ensures
        a.lt(b) || a == b || b.lt(a),
        !(a.lt(b) && b.lt(a)),
        !(a.lt(b) && a == b),
{
}

/// The strict order on log sequence numbers is transitive.
pub proof fn lemma_lsn_order_transitive(a: Lsn, b: Lsn, c: Lsn)
    requires
        a.lt(b),
        b.lt(c),
    ensures
        a.lt(c),
{
}

/// Nothing precedes the start of the log.
pub proof fn lemma_lsn_zero_least(a: Lsn)
    ensures
        Lsn::zero().le(a),
{
}

} // verus!
