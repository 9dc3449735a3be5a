//! Terms of incompatibilities: a positive term requires a package to be
//! selected inside a range, a negative term forbids selecting it there
//! (absence satisfies any negative term).

use vstd::prelude::*;
use crate::range::{Interval, Range, sem_seq};
use crate::version::Version;

verus! {

/// A statement about one package: selected inside `range` (positive), or
/// not selected inside `range` (negative).
#[derive(Debug, Clone, PartialEq, Eq)]
pub struct Term {
    pub positive: bool,
    pub range: Range,
}

impl View for Term {
    type V = (bool, Seq<Interval>);

    open spec fn view(&self) -> (bool, Seq<Interval>) {
        (self.positive, self.range@)
    }
}

/// Does assignment `val` (the selected version, or `None` for absence)
/// satisfy the term `(positive, range)`?
pub open spec fn term_allows(positive: bool, range: Seq<Interval>, val: Option<Version>) -> bool {
    match val {
        None => !positive,
        Some(v) => if positive {
            sem_seq(range, v)
        } else {
            !sem_seq(range, v)
        },
    }
}

impl Term {
    pub open spec fn wf(self) -> bool {
        self.range.wf()
    }

    /// `val` satisfies this term.
    pub open spec fn allows(self, val: Option<Version>) -> bool {
        term_allows(self.positive, self.range@, val)
    }

    pub fn positive(range: Range) -> (r: Term)
        ensures
            r == (Term { positive: true, range }),
    {
        Term { positive: true, range }
    }

    pub fn negative(range: Range) -> (r: Term)
        ensures
            r == (Term { positive: false, range }),
    {
        Term { positive: false, range }
    }

    /// The negation: satisfied by exactly the assignments this term refuses.
    pub fn negate(&self) -> (r: Term)
        requires
            self.wf(),
        ensures
            r.wf(),
            forall|val: Option<Version>| #[trigger] r.allows(val) == !self.allows(val),
    {
        Term { positive: !self.positive, range: self.range.duplicate() }
    }

    /// Conjunction: satisfied exactly when both terms are.
    pub fn intersect(&self, other: &Term) -> (r: Term)
        requires
            self.wf(),
            other.wf(),
        ensures
            r.wf(),
            forall|val: Option<Version>|
                #[trigger] r.allows(val) == (self.allows(val) && other.allows(val)),
    {
        if self.positive && other.positive {
            let rr = self.range.intersection(&other.range);
            let res = Term { positive: true, range: rr };
            proof {
                assert forall|val: Option<Version>|
                    #[trigger] res.allows(val) == (self.allows(val) && other.allows(val)) by {
                    if val is Some {
                        let v = val->0;
                        assert(rr.sem(v) == (self.range.sem(v) && other.range.sem(v)));
                    }
                }
            }
            res
        } else if self.positive && !other.positive {
            let oc = other.range.complement();
            let rr = self.range.intersection(&oc);
            let res = Term { positive: true, range: rr };
            proof {
                assert forall|val: Option<Version>|
                    #[trigger] res.allows(val) == (self.allows(val) && other.allows(val)) by {
                    if val is Some {
                        let v = val->0;
                        assert(rr.sem(v) == (self.range.sem(v) && oc.sem(v)));
                        assert(oc.sem(v) == !other.range.sem(v));
                    }
                }
            }
            res
        } else if !self.positive && other.positive {
            let sc = self.range.complement();
            let rr = other.range.intersection(&sc);
            let res = Term { positive: true, range: rr };
            proof {
                assert forall|val: Option<Version>|
                    #[trigger] res.allows(val) == (self.allows(val) && other.allows(val)) by {
                    if val is Some {
                        let v = val->0;
                        assert(rr.sem(v) == (other.range.sem(v) && sc.sem(v)));
                        assert(sc.sem(v) == !self.range.sem(v));
                    }
                }
            }
            res
        } else {
            let rr = self.range.union(&other.range);
            let res = Term { positive: false, range: rr };
            proof {
                assert forall|val: Option<Version>|
                    #[trigger] res.allows(val) == (self.allows(val) && other.allows(val)) by {
                    if val is Some {
                        let v = val->0;
                        assert(rr.sem(v) == (self.range.sem(v) || other.range.sem(v)));
                    }
                }
            }
            res
        }
    }

    /// Disjunction: satisfied exactly when either term is.
    pub fn union(&self, other: &Term) -> (r: Term)
        requires
            self.wf(),
            other.wf(),
        ensures
            r.wf(),
            forall|val: Option<Version>|
                #[trigger] r.allows(val) == (self.allows(val) || other.allows(val)),
    {
        if self.positive && other.positive {
            let rr = self.range.union(&other.range);
            let res = Term { positive: true, range: rr };
            proof {
                assert forall|val: Option<Version>|
                    #[trigger] res.allows(val) == (self.allows(val) || other.allows(val)) by {
                    if val is Some {
                        let v = val->0;
                        assert(rr.sem(v) == (self.range.sem(v) || other.range.sem(v)));
                    }
                }
            }
            res
        } else if self.positive && !other.positive {
            let sc = self.range.complement();
            let rr = other.range.intersection(&sc);
            let res = Term { positive: false, range: rr };
            proof {
                assert forall|val: Option<Version>|
                    #[trigger] res.allows(val) == (self.allows(val) || other.allows(val)) by {
                    if val is Some {
                        let v = val->0;
                        assert(rr.sem(v) == (other.range.sem(v) && sc.sem(v)));
                        assert(sc.sem(v) == !self.range.sem(v));
                    }
                }
            }
            res
        } else if !self.positive && other.positive {
            let oc = other.range.complement();
            let rr = self.range.intersection(&oc);
            let res = Term { positive: false, range: rr };
            proof {
                assert forall|val: Option<Version>|
                    #[trigger] res.allows(val) == (self.allows(val) || other.allows(val)) by {
                    if val is Some {
                        let v = val->0;
                        assert(rr.sem(v) == (self.range.sem(v) && oc.sem(v)));
                        assert(oc.sem(v) == !other.range.sem(v));
                    }
                }
            }
            res
        } else {
            let rr = self.range.intersection(&other.range);
            let res = Term { positive: false, range: rr };
            proof {
                assert forall|val: Option<Version>|
                    #[trigger] res.allows(val) == (self.allows(val) || other.allows(val)) by {
                    if val is Some {
                        let v = val->0;
                        assert(rr.sem(v) == (self.range.sem(v) && other.range.sem(v)));
                    }
                }
            }
            res
        }
    }

    /// Every assignment satisfying `self` satisfies `other`.
    pub fn subset_of(&self, other: &Term) -> (r: bool)
        requires
            self.wf(),
            other.wf(),
        ensures
            r == (forall|val: Option<Version>| #[trigger] self.allows(val) ==> other.allows(val)),
    {
        if self.positive && other.positive {
            let r = self.range.subset_of(&other.range);
            proof {
                if r {
                    assert forall|val: Option<Version>| #[trigger] self.allows(val) implies
                        other.allows(val) by {
                        if val is Some {
                            let v = val->0;
                            assert(self.range.sem(v) ==> other.range.sem(v));
                        }
                    }
                } else {
                    let v = choose|v: Version| #[trigger] self.range.sem(v) && !other.range.sem(v);
                    assert(self.allows(Some(v)) && !other.allows(Some(v)));
                }
            }
            r
        } else if self.positive && !other.positive {
            let both = self.range.intersection(&other.range);
            let r = both.is_empty();
            proof {
                if r {
                    assert forall|val: Option<Version>| #[trigger] self.allows(val) implies
                        other.allows(val) by {
                        if val is Some {
                            let v = val->0;
                            assert(!both.sem(v));
                        }
                    }
                } else {
                    assert(exists|v: Version| #[trigger] both.sem(v));
                    let v = choose|v: Version| #[trigger] both.sem(v);
                    assert(self.allows(Some(v)) && !other.allows(Some(v)));
                }
            }
            r
        } else if !self.positive && other.positive {
            proof {
                assert(self.allows(None) && !other.allows(None));
            }
            false
        } else {
            let r = other.range.subset_of(&self.range);
            proof {
                if r {
                    assert forall|val: Option<Version>| #[trigger] self.allows(val) implies
                        other.allows(val) by {
                        if val is Some {
                            let v = val->0;
                            assert(other.range.sem(v) ==> self.range.sem(v));
                        }
                    }
                } else {
                    let v = choose|v: Version| #[trigger] other.range.sem(v) && !self.range.sem(v);
                    assert(self.allows(Some(v)) && !other.allows(Some(v)));
                }
            }
            r
        }
    }

    /// No assignment satisfies both terms.
    pub fn disjoint_from(&self, other: &Term) -> (r: bool)
        requires
            self.wf(),
            other.wf(),
        ensures
            r == (forall|val: Option<Version>|
                !(#[trigger] self.allows(val) && other.allows(val))),
    {
        if self.positive && other.positive {
            let both = self.range.intersection(&other.range);
            let r = both.is_empty();
            proof {
                if r {
                    assert forall|val: Option<Version>|
                        !(#[trigger] self.allows(val) && other.allows(val)) by {
                        if val is Some {
                            let v = val->0;
                            assert(!both.sem(v));
                        }
                    }
                } else {
                    assert(exists|v: Version| #[trigger] both.sem(v));
                    let v = choose|v: Version| #[trigger] both.sem(v);
                    assert(self.allows(Some(v)) && other.allows(Some(v)));
                }
            }
            r
        } else if self.positive && !other.positive {
            let r = self.range.subset_of(&other.range);
            proof {
                if r {
                    assert forall|val: Option<Version>|
                        !(#[trigger] self.allows(val) && other.allows(val)) by {
                        if val is Some {
                            let v = val->0;
                            assert(self.range.sem(v) ==> other.range.sem(v));
                        }
                    }
                } else {
                    let v = choose|v: Version| #[trigger] self.range.sem(v) && !other.range.sem(v);
                    assert(self.allows(Some(v)) && other.allows(Some(v)));
                }
            }
            r
        } else if !self.positive && other.positive {
            let r = other.range.subset_of(&self.range);
            proof {
                if r {
                    assert forall|val: Option<Version>|
                        !(#[trigger] self.allows(val) && other.allows(val)) by {
                        if val is Some {
                            let v = val->0;
                            assert(other.range.sem(v) ==> self.range.sem(v));
                        }
                    }
                } else {
                    let v = choose|v: Version| #[trigger] other.range.sem(v) && !self.range.sem(v);
                    assert(self.allows(Some(v)) && other.allows(Some(v)));
                }
            }
            r
        } else {
            proof {
                assert(self.allows(None) && other.allows(None));
            }
            false
        }
    }

    /// A copy with the same content.
    pub fn duplicate(&self) -> (r: Term)
        ensures
            r@ == self@,
            r.positive == self.positive,
            r.range@ == self.range@,
    {
        Term { positive: self.positive, range: self.range.duplicate() }
    }
}

} // verus!
