//! Semantic versions: ordered triples (major, minor, patch).

use vstd::prelude::*;

verus! {

/// A semantic version, ordered lexicographically on (major, minor, patch).
#[derive(Clone, Copy, PartialEq, Eq, Structural, Hash, Debug)]
pub struct Version {
    pub major: u64,
    pub minor: u64,
    pub patch: u64,
}

/// The spec-level minimum version (0, 0, 0).
pub open spec fn zero_version() -> Version {
    Version { major: 0u64, minor: 0u64, patch: 0u64 }
}

impl Version {
    /// Strict lexicographic order on the triple.
    pub open spec fn spec_lt(self, other: Version) -> bool {
        ||| self.major < other.major
        ||| (self.major == other.major && self.minor < other.minor)
        ||| (self.major == other.major && self.minor == other.minor && self.patch < other.patch)
    }

    pub open spec fn spec_le(self, other: Version) -> bool {
        self.spec_lt(other) || self == other
    }

    pub fn new(major: u64, minor: u64, patch: u64) -> (r: Version)
        ensures
            r == (Version { major, minor, patch }),
    {
        Version { major, minor, patch }
    }

    /// The distinguished minimum version (0, 0, 0).
    pub fn zero() -> (r: Version)
        ensures
            r == (Version { major: 0u64, minor: 0u64, patch: 0u64 }),
            forall|w: Version| r.spec_le(w),
    {
        Version { major: 0, minor: 0, patch: 0 }
    }

    pub fn lt(&self, other: &Version) -> (r: bool)
        ensures
            r == self.spec_lt(*other),
    {
        if self.major != other.major {
            self.major < other.major
        } else if self.minor != other.minor {
            self.minor < other.minor
        } else {
            self.patch < other.patch
        }
    }

    pub fn le(&self, other: &Version) -> (r: bool)
        ensures
            r == self.spec_le(*other),
    {
        !other.lt(self)
    }

    pub fn eq_version(&self, other: &Version) -> (r: bool)
        ensures
            r == (*self == *other),
    {
        self.major == other.major && self.minor == other.minor && self.patch == other.patch
    }

    /// Increment the major component and zero the rest: the "next breaking
    /// change" bound derived from an exact pinned version.
    pub fn bump_major(&self) -> (r: Version)
        requires
            self.major < u64::MAX,
        ensures
            r == (Version { major: (self.major + 1) as u64, minor: 0u64, patch: 0u64 }),
            self.spec_lt(r),
    {
        Version { major: self.major + 1, minor: 0, patch: 0 }
    }

    /// The immediate successor of this version in the total order.
    pub fn next_patch(&self) -> (r: Version)
        requires
            self.patch < u64::MAX,
        ensures
            r == (Version { major: self.major, minor: self.minor, patch: (self.patch + 1) as u64 }),
            self.spec_lt(r),
            forall|w: Version| self.spec_lt(w) ==> r.spec_le(w),
    {
        Version { major: self.major, minor: self.minor, patch: self.patch + 1 }
    }
}

/// The order on versions is total: exactly one of `a < b`, `a == b`, `b < a`.
pub proof fn lemma_version_order_total(a: Version, b: Version)
    ensures
        a.spec_lt(b) || a == b || b.spec_lt(a),
        a.spec_lt(b) ==> !(b.spec_lt(a) || a == b),
        a == b ==> !(a.spec_lt(b) || b.spec_lt(a)),
{
}

/// The order on versions is transitive.
pub proof fn lemma_version_order_trans(a: Version, b: Version, c: Version)
    requires
        a.spec_lt(b),
        b.spec_lt(c),
    ensures
        a.spec_lt(c),
{
}

} // verus!
