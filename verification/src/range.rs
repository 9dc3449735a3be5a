//! Version ranges: finite unions of disjoint half-open intervals
//! `[lo, hi)`, kept sorted and separated (canonical form).

use vstd::prelude::*;
use crate::version::Version;

verus! {

/// One half-open interval `[lo, hi)`; `hi == None` means unbounded above.
#[derive(Clone, Copy, PartialEq, Eq, Debug)]
pub struct Interval {
    pub lo: Version,
    pub hi: Option<Version>,
}

/// `v` is strictly below the (possibly absent) upper bound `hi`.
pub open spec fn below(v: Version, hi: Option<Version>) -> bool {
    match hi {
        Some(h) => v.spec_lt(h),
        None => true,
    }
}

/// `v` lies inside the half-open interval `iv`.
pub open spec fn in_interval(iv: Interval, v: Version) -> bool {
    iv.lo.spec_le(v) && below(v, iv.hi)
}

/// The interval contains at least one version.
pub open spec fn iv_nonempty(iv: Interval) -> bool {
    below(iv.lo, iv.hi)
}

/// Canonical form: every interval is nonempty, and consecutive intervals
/// are separated by a nonempty gap (so only the last may be unbounded).
pub open spec fn wf_seq(s: Seq<Interval>) -> bool {
    &&& forall|i: int| 0 <= i < s.len() ==> iv_nonempty(#[trigger] s[i])
    &&& forall|i: int|
        0 <= i < s.len() - 1 ==> (#[trigger] s[i]).hi is Some && s[i].hi->0.spec_lt(s[i + 1].lo)
}

/// Membership of `v` in the union of the intervals of `s`.
pub open spec fn sem_seq(s: Seq<Interval>, v: Version) -> bool {
    exists|i: int| 0 <= i < s.len() && in_interval(#[trigger] s[i], v)
}

/// Membership of `v` in the union of the first `k` intervals of `s`.
pub open spec fn sem_pre(s: Seq<Interval>, k: int, v: Version) -> bool {
    exists|i: int| 0 <= i < k && i < s.len() && in_interval(#[trigger] s[i], v)
}

/// Extending the prefix by one interval adds exactly that interval's versions.
pub proof fn lemma_sem_pre_step(s: Seq<Interval>, k: int, v: Version)
    requires
        0 <= k < s.len(),
    ensures
        sem_pre(s, k + 1, v) == (sem_pre(s, k, v) || in_interval(s[k], v)),
{
    if sem_pre(s, k + 1, v) {
        let i = choose|i: int| 0 <= i < k + 1 && i < s.len() && in_interval(#[trigger] s[i], v);
        if i < k {
            assert(sem_pre(s, k, v));
        }
    }
    if in_interval(s[k], v) {
        assert(sem_pre(s, k + 1, v));
    }
}

/// The full prefix is the whole sequence.
pub proof fn lemma_sem_pre_full(s: Seq<Interval>, v: Version)
    ensures
        sem_pre(s, s.len() as int, v) == sem_seq(s, v),
{
}

/// `h` is at or below the (possibly absent) upper bound `hi`.
pub open spec fn le_hi(h: Version, hi: Option<Version>) -> bool {
    match hi {
        Some(x) => h.spec_le(x),
        None => true,
    }
}

/// A set of versions, as a sorted union of disjoint half-open intervals.
#[derive(Clone, PartialEq, Eq, Debug)]
pub struct Range {
    pub intervals: Vec<Interval>,
}

impl View for Range {
    type V = Seq<Interval>;

    open spec fn view(&self) -> Seq<Interval> {
        self.intervals@
    }
}

/// In a canonical sequence the interval lower bounds are increasing.
pub proof fn lemma_lo_le(s: Seq<Interval>, i: int, j: int)
    requires
        wf_seq(s),
        0 <= i <= j < s.len(),
    ensures
        s[i].lo.spec_le(s[j].lo),
    decreases j - i,
{
    if i < j {
        lemma_lo_le(s, i + 1, j);
    }
}

/// In a canonical sequence the interval upper bounds are increasing, and
/// every upper bound before the last is below every later lower bound.
pub proof fn lemma_hi_below(s: Seq<Interval>, i: int, j: int)
    requires
        wf_seq(s),
        0 <= i < j < s.len(),
    ensures
        s[i].hi is Some,
        s[i].hi->0.spec_lt(s[j].lo),
    decreases j - i,
{
    if i + 1 < j {
        lemma_hi_below(s, i, j - 1);
        lemma_hi_below(s, j - 1, j);
    }
}

/// Every version falls in exactly one region of a canonical sequence:
/// inside some interval, before the first, in a gap, or past the last bound.
pub proof fn lemma_locate(s: Seq<Interval>, v: Version)
    requires
        wf_seq(s),
        s.len() > 0,
    ensures
        sem_seq(s, v) || v.spec_lt(s[0].lo) || (exists|k: int|
            0 <= k < s.len() - 1 && (#[trigger] s[k]).hi is Some && s[k].hi->0.spec_le(v)
                && v.spec_lt(s[k + 1].lo)) || (s[s.len() - 1].hi is Some && s[s.len()
            - 1].hi->0.spec_le(v)),
    decreases s.len(),
{
    let n = s.len() as int;
    if v.spec_lt(s[0].lo) {
    } else if in_interval(s[0], v) {
        assert(sem_seq(s, v));
    } else {
        assert(s[0].hi is Some && s[0].hi->0.spec_le(v));
        if n > 1 {
            let t = s.subrange(1, n);
            assert forall|i: int| 0 <= i < t.len() implies iv_nonempty(#[trigger] t[i]) by {
                assert(t[i] == s[i + 1]);
            }
            assert forall|i: int| 0 <= i < t.len() - 1 implies (#[trigger] t[i]).hi is Some
                && t[i].hi->0.spec_lt(t[i + 1].lo) by {
                assert(t[i] == s[i + 1]);
                assert(t[i + 1] == s[i + 2]);
            }
            lemma_locate(t, v);
            if sem_seq(t, v) {
                let idx = choose|idx: int| 0 <= idx < t.len() && in_interval(#[trigger] t[idx], v);
                assert(in_interval(s[idx + 1], v));
                assert(sem_seq(s, v));
            } else if v.spec_lt(t[0].lo) {
                assert(s[0].hi is Some && s[0].hi->0.spec_le(v) && v.spec_lt(s[1].lo));
            } else if exists|k: int|
                0 <= k < t.len() - 1 && (#[trigger] t[k]).hi is Some && t[k].hi->0.spec_le(v)
                    && v.spec_lt(t[k + 1].lo) {
                let k = choose|k: int|
                    0 <= k < t.len() - 1 && (#[trigger] t[k]).hi is Some && t[k].hi->0.spec_le(v)
                        && v.spec_lt(t[k + 1].lo);
                assert(t[k] == s[k + 1]);
                assert(t[k + 1] == s[k + 2]);
                assert((s[k + 1]).hi is Some && s[k + 1].hi->0.spec_le(v) && v.spec_lt(
                    s[k + 2].lo,
                ));
            } else {
                assert(t[t.len() - 1] == s[n - 1]);
            }
        }
    }
}

/// The shape of the complement of a nonempty canonical sequence `s`:
/// an optional leading interval below `s`, one interval per gap of `s`,
/// and an optional unbounded interval past the last upper bound.
pub open spec fn comp_shape(s: Seq<Interval>, o: Seq<Interval>, base: int, gaps: int) -> bool {
    &&& s.len() > 0
    &&& wf_seq(s)
    &&& base == if crate::version::zero_version().spec_lt(s[0].lo) {
        1int
    } else {
        0int
    }
    &&& gaps == base + s.len() - 1
    &&& o.len() == gaps + if s[s.len() - 1].hi is Some {
        1int
    } else {
        0int
    }
    &&& (base == 1 ==> o[0] == (Interval {
        lo: crate::version::zero_version(),
        hi: Some(s[0].lo),
    }))
    &&& forall|t: int|
        0 <= t < s.len() - 1 ==> #[trigger] o[base + t] == (Interval {
            lo: s[t].hi->0,
            hi: Some(s[t + 1].lo),
        })
    &&& (s[s.len() - 1].hi is Some ==> o[gaps] == (Interval {
        lo: s[s.len() - 1].hi->0,
        hi: None,
    }))
}

/// The complement shape is itself canonical.
#[verifier::spinoff_prover]
pub proof fn lemma_comp_wf(s: Seq<Interval>, o: Seq<Interval>, base: int, gaps: int)
    requires
        comp_shape(s, o, base, gaps),
    ensures
        wf_seq(o),
{
    let nn = s.len() as int;
    assert forall|t: int| 0 <= t < o.len() implies iv_nonempty(#[trigger] o[t]) by {
        if base == 1 && t == 0 {
        } else if t < gaps {
            let g = t - base;
            assert(o[base + g] == (Interval { lo: s[g].hi->0, hi: Some(s[g + 1].lo) }));
        } else {
            assert(o[t].hi is None);
        }
    }
    assert forall|t: int| 0 <= t < o.len() - 1 implies (#[trigger] o[t]).hi is Some
        && o[t].hi->0.spec_lt(o[t + 1].lo) by {
        if base == 1 && t == 0 {
            assert(iv_nonempty(s[0]));
            if 0 < nn - 1 {
                assert(o[base + 0] == (Interval { lo: s[0].hi->0, hi: Some(s[1].lo) }));
            }
        } else if t < gaps {
            let g = t - base;
            assert(o[base + g] == (Interval { lo: s[g].hi->0, hi: Some(s[g + 1].lo) }));
            assert(iv_nonempty(s[g + 1]));
            if g + 1 < nn - 1 {
                assert(o[base + (g + 1)] == (Interval {
                    lo: s[g + 1].hi->0,
                    hi: Some(s[g + 2].lo),
                }));
            }
        }
    }
}

/// The complement shape contains exactly the versions outside `s`.
#[verifier::spinoff_prover]
#[verifier::rlimit(30)]
pub proof fn lemma_comp_sem(s: Seq<Interval>, o: Seq<Interval>, base: int, gaps: int, v: Version)
    requires
        comp_shape(s, o, base, gaps),
    ensures
        sem_seq(o, v) == !sem_seq(s, v),
{
    let nn = s.len() as int;
    let zero = crate::version::zero_version();
    if sem_seq(o, v) {
        let t = choose|t: int| 0 <= t < o.len() && in_interval(#[trigger] o[t], v);
        if sem_seq(s, v) {
            let idx = choose|idx: int| 0 <= idx < s.len() && in_interval(#[trigger] s[idx], v);
            if base == 1 && t == 0 {
                lemma_lo_le(s, 0, idx);
                assert(false);
            } else if t < gaps {
                let g = t - base;
                assert(o[base + g] == (Interval { lo: s[g].hi->0, hi: Some(s[g + 1].lo) }));
                if idx < g {
                    lemma_hi_below(s, idx, g);
                    assert(false);
                } else if idx == g {
                    assert(false);
                } else {
                    lemma_lo_le(s, g + 1, idx);
                    assert(false);
                }
            } else {
                assert(o[t].lo == s[nn - 1].hi->0);
                if idx < nn - 1 {
                    lemma_hi_below(s, idx, nn - 1);
                    assert(false);
                } else {
                    assert(false);
                }
            }
        }
    } else {
        if !sem_seq(s, v) {
            lemma_locate(s, v);
            if v.spec_lt(s[0].lo) {
                assert(zero.spec_le(v));
                assert(in_interval(o[0], v));
                assert(sem_seq(o, v));
            } else if exists|g: int|
                0 <= g < s.len() - 1 && (#[trigger] s[g]).hi is Some && s[g].hi->0.spec_le(v)
                    && v.spec_lt(s[g + 1].lo) {
                let g = choose|g: int|
                    0 <= g < s.len() - 1 && (#[trigger] s[g]).hi is Some && s[g].hi->0.spec_le(v)
                        && v.spec_lt(s[g + 1].lo);
                assert(o[base + g] == (Interval { lo: s[g].hi->0, hi: Some(s[g + 1].lo) }));
                assert(in_interval(o[base + g], v));
                assert(sem_seq(o, v));
            } else {
                assert(s[nn - 1].hi is Some && s[nn - 1].hi->0.spec_le(v));
                assert(in_interval(o[gaps], v));
                assert(sem_seq(o, v));
            }
            assert(false);
        }
    }
}

/// The first upper bound strictly below the second (absent means unbounded).
pub open spec fn hi_lt(a: Option<Version>, b: Option<Version>) -> bool {
    a is Some && (b is None || a->0.spec_lt(b->0))
}

/// Two canonical sequences with the same members and equal first lower
/// bounds cannot have their first upper bounds strictly ordered.
proof fn lemma_hi_not_lt(s1: Seq<Interval>, s2: Seq<Interval>)
    requires
        wf_seq(s1),
        wf_seq(s2),
        s1.len() > 0,
        s2.len() > 0,
        forall|v: Version| sem_seq(s1, v) == sem_seq(s2, v),
        s1[0].lo == s2[0].lo,
    ensures
        !hi_lt(s1[0].hi, s2[0].hi),
{
    if hi_lt(s1[0].hi, s2[0].hi) {
        let h1 = s1[0].hi->0;
        assert(iv_nonempty(s1[0]));
        assert(in_interval(s2[0], h1));
        assert(sem_seq(s2, h1));
        assert(sem_seq(s1, h1));
        let idx = choose|idx: int| 0 <= idx < s1.len() && in_interval(#[trigger] s1[idx], h1);
        if idx == 0 {
            assert(false);
        } else {
            lemma_lo_le(s1, 1, idx);
            assert(false);
        }
    }
}

/// Two canonical sequences with the same members have the same first interval.
proof fn lemma_first_eq(s1: Seq<Interval>, s2: Seq<Interval>)
    requires
        wf_seq(s1),
        wf_seq(s2),
        s1.len() > 0,
        s2.len() > 0,
        forall|v: Version| sem_seq(s1, v) == sem_seq(s2, v),
    ensures
        s1[0] == s2[0],
{
    // equal lower bounds
    assert(iv_nonempty(s1[0]));
    assert(in_interval(s1[0], s1[0].lo));
    assert(sem_seq(s1, s1[0].lo));
    let j = choose|j: int| 0 <= j < s2.len() && in_interval(#[trigger] s2[j], s1[0].lo);
    lemma_lo_le(s2, 0, j);
    assert(iv_nonempty(s2[0]));
    assert(in_interval(s2[0], s2[0].lo));
    assert(sem_seq(s2, s2[0].lo));
    let i = choose|i: int| 0 <= i < s1.len() && in_interval(#[trigger] s1[i], s2[0].lo);
    lemma_lo_le(s1, 0, i);
    assert(s1[0].lo == s2[0].lo);
    // equal upper bounds
    lemma_hi_not_lt(s1, s2);
    lemma_hi_not_lt(s2, s1);
    assert(s1[0].hi == s2[0].hi);
}

/// Membership in the tail of a canonical sequence is membership in the
/// whole outside the first interval.
proof fn lemma_sem_tail(s: Seq<Interval>, v: Version)
    requires
        wf_seq(s),
        s.len() > 0,
    ensures
        sem_seq(s.subrange(1, s.len() as int), v) == (sem_seq(s, v) && !in_interval(s[0], v)),
{
    let n = s.len() as int;
    let t = s.subrange(1, n);
    if sem_seq(t, v) {
        let i = choose|i: int| 0 <= i < t.len() && in_interval(#[trigger] t[i], v);
        assert(t[i] == s[i + 1]);
        assert(sem_seq(s, v));
        lemma_lo_le(s, 1, i + 1);
        assert(!in_interval(s[0], v));
    }
    if sem_seq(s, v) && !in_interval(s[0], v) {
        let i = choose|i: int| 0 <= i < s.len() && in_interval(#[trigger] s[i], v);
        assert(i >= 1);
        assert(t[i - 1] == s[i]);
        assert(sem_seq(t, v));
    }
}

/// Canonical sequences are unique: equal membership means equal sequences.
pub proof fn lemma_canonical_seq(s1: Seq<Interval>, s2: Seq<Interval>)
    requires
        wf_seq(s1),
        wf_seq(s2),
        forall|v: Version| sem_seq(s1, v) == sem_seq(s2, v),
    ensures
        s1 =~= s2,
    decreases s1.len(),
{
    if s1.len() == 0 {
        if s2.len() > 0 {
            assert(iv_nonempty(s2[0]));
            assert(in_interval(s2[0], s2[0].lo));
            assert(sem_seq(s2, s2[0].lo));
            assert(false);
        }
    } else if s2.len() == 0 {
        assert(iv_nonempty(s1[0]));
        assert(in_interval(s1[0], s1[0].lo));
        assert(sem_seq(s1, s1[0].lo));
        assert(false);
    } else {
        lemma_first_eq(s1, s2);
        let t1 = s1.subrange(1, s1.len() as int);
        let t2 = s2.subrange(1, s2.len() as int);
        assert forall|i: int| 0 <= i < t1.len() implies iv_nonempty(#[trigger] t1[i]) by {
            assert(t1[i] == s1[i + 1]);
        }
        assert forall|i: int| 0 <= i < t1.len() - 1 implies (#[trigger] t1[i]).hi is Some
            && t1[i].hi->0.spec_lt(t1[i + 1].lo) by {
            assert(t1[i] == s1[i + 1]);
            assert(t1[i + 1] == s1[i + 2]);
        }
        assert forall|i: int| 0 <= i < t2.len() implies iv_nonempty(#[trigger] t2[i]) by {
            assert(t2[i] == s2[i + 1]);
        }
        assert forall|i: int| 0 <= i < t2.len() - 1 implies (#[trigger] t2[i]).hi is Some
            && t2[i].hi->0.spec_lt(t2[i + 1].lo) by {
            assert(t2[i] == s2[i + 1]);
            assert(t2[i + 1] == s2[i + 2]);
        }
        assert forall|v: Version| sem_seq(t1, v) == sem_seq(t2, v) by {
            lemma_sem_tail(s1, v);
            lemma_sem_tail(s2, v);
        }
        lemma_canonical_seq(t1, t2);
        assert(s1.len() == s2.len());
        assert forall|i: int| 0 <= i < s1.len() implies s1[i] == s2[i] by {
            if i > 0 {
                assert(t1[i - 1] == t2[i - 1]);
            }
        }
    }
}

impl Range {
    /// Canonical-form invariant.
    pub open spec fn wf(self) -> bool {
        wf_seq(self@)
    }

    /// The defining semantics: does this range contain version `v`?
    pub open spec fn sem(self, v: Version) -> bool {
        sem_seq(self@, v)
    }

    /// The empty range.
    pub fn none() -> (r: Range)
        ensures
            r.wf(),
            forall|v: Version| !(#[trigger] r.sem(v)),
            r@.len() == 0,
    {
        Range { intervals: Vec::new() }
    }

    /// The full range, containing every version.
    pub fn any() -> (r: Range)
        ensures
            r.wf(),
            forall|v: Version| #[trigger] r.sem(v),
    {
        let mut intervals: Vec<Interval> = Vec::new();
        intervals.push(Interval { lo: Version::zero(), hi: None });
        let r = Range { intervals };
        proof {
            assert forall|v: Version| #[trigger] r.sem(v) by {
                assert(in_interval(r@[0], v));
            }
        }
        r
    }

    /// All versions `v` with `lo <= v < hi`.
    pub fn between(lo: Version, hi: Version) -> (r: Range)
        ensures
            r.wf(),
            forall|v: Version|
                #[trigger] r.sem(v) == (lo.spec_le(v) && v.spec_lt(hi)),
    {
        let mut intervals: Vec<Interval> = Vec::new();
        if lo.lt(&hi) {
            intervals.push(Interval { lo, hi: Some(hi) });
        }
        let r = Range { intervals };
        proof {
            assert forall|v: Version|
                #[trigger] r.sem(v) == (lo.spec_le(v) && v.spec_lt(hi)) by {
                if lo.spec_le(v) && v.spec_lt(hi) {
                    assert(in_interval(r@[0], v));
                }
            }
        }
        r
    }

    /// All versions `v` with `lo <= v`.
    pub fn higher_than(lo: Version) -> (r: Range)
        ensures
            r.wf(),
            forall|v: Version| #[trigger] r.sem(v) == lo.spec_le(v),
    {
        let mut intervals: Vec<Interval> = Vec::new();
        intervals.push(Interval { lo, hi: None });
        let r = Range { intervals };
        proof {
            assert forall|v: Version| #[trigger] r.sem(v) == lo.spec_le(v) by {
                if lo.spec_le(v) {
                    assert(in_interval(r@[0], v));
                }
            }
        }
        r
    }

    /// All versions `v` with `v < hi`.
    pub fn strictly_lower_than(hi: Version) -> (r: Range)
        ensures
            r.wf(),
            forall|v: Version| #[trigger] r.sem(v) == v.spec_lt(hi),
    {
        Range::between(Version::zero(), hi)
    }

    /// The singleton range containing exactly `v`.
    pub fn exact(v: Version) -> (r: Range)
        requires
            v.patch < u64::MAX,
        ensures
            r.wf(),
            forall|w: Version| #[trigger] r.sem(w) == (w == v),
    {
        let hi = v.next_patch();
        Range::between(v, hi)
    }

    /// Containment test.
    pub fn contains(&self, v: &Version) -> (r: bool)
        requires
            self.wf(),
        ensures
            r == self.sem(*v),
    {
        let n = self.intervals.len();
        let mut i: usize = 0;
        while i < n
            invariant
                n == self.intervals.len(),
                0 <= i <= n,
                forall|k: int| 0 <= k < i ==> !in_interval(#[trigger] self@[k], *v),
            decreases n - i,
        {
            let iv = self.intervals[i];
            let lo_ok = iv.lo.le(v);
            let hi_ok = match iv.hi {
                Some(h) => v.lt(&h),
                None => true,
            };
            if lo_ok && hi_ok {
                assert(in_interval(self@[i as int], *v));
                return true;
            }
            i += 1;
        }
        false
    }

    /// Pairwise intersection of the two interval lists; canonical form is
    /// preserved because gaps of either argument persist in the result.
    pub fn intersection(&self, other: &Range) -> (r: Range)
        requires
            self.wf(),
            other.wf(),
        ensures
            r.wf(),
            forall|v: Version| #[trigger] r.sem(v) == (self.sem(v) && other.sem(v)),
    {
        let n1 = self.intervals.len();
        let n2 = other.intervals.len();
        let mut out: Vec<Interval> = Vec::new();
        let mut i: usize = 0;
        while i < n1
            invariant
                self.wf(),
                other.wf(),
                n1 == self.intervals.len(),
                n2 == other.intervals.len(),
                0 <= i <= n1,
                wf_seq(out@),
                forall|v: Version|
                    #[trigger] sem_seq(out@, v) == (sem_pre(self@, i as int, v) && sem_seq(
                        other@,
                        v,
                    )),
                out@.len() > 0 && (out@[out@.len() - 1].hi is None) ==> i == n1,
                out@.len() > 0 && i < n1 ==> out@[out@.len() - 1].hi is Some
                    && out@[out@.len() - 1].hi->0.spec_lt(self@[i as int].lo),
            decreases n1 - i,
        {
            let a = self.intervals[i];
            let ghost gi = i as int;
            let mut j: usize = 0;
            while j < n2
                invariant
                    self.wf(),
                    other.wf(),
                    n1 == self.intervals.len(),
                    n2 == other.intervals.len(),
                    0 <= i < n1,
                    0 <= j <= n2,
                    a == self@[gi],
                    gi == i as int,
                    wf_seq(out@),
                    forall|v: Version|
                        #[trigger] sem_seq(out@, v) == ((sem_pre(self@, i as int, v) && sem_seq(
                            other@,
                            v,
                        )) || (in_interval(a, v) && sem_pre(other@, j as int, v))),
                    out@.len() > 0 && (out@[out@.len() - 1].hi is None) ==> (i == n1 - 1 && j
                        == n2),
                    out@.len() > 0 && (out@[out@.len() - 1].hi is Some) ==> (
                    out@[out@.len() - 1].hi->0.spec_lt(a.lo) || (le_hi(
                        out@[out@.len() - 1].hi->0,
                        a.hi,
                    ) && (j < n2 ==> out@[out@.len() - 1].hi->0.spec_lt(other@[j as int].lo)))),
                decreases n2 - j,
            {
                let b = other.intervals[j];
                let lo = if a.lo.le(&b.lo) {
                    b.lo
                } else {
                    a.lo
                };
                let hi: Option<Version> = match (a.hi, b.hi) {
                    (None, None) => None,
                    (Some(x), None) => Some(x),
                    (None, Some(y)) => Some(y),
                    (Some(x), Some(y)) => if x.le(&y) {
                        Some(x)
                    } else {
                        Some(y)
                    },
                };
                let iv = Interval { lo, hi };
                proof {
                    assert forall|v: Version|
                        in_interval(iv, v) == (in_interval(a, v) && in_interval(b, v)) by {}
                }
                let nonempty = match hi {
                    Some(h) => lo.lt(&h),
                    None => true,
                };
                if nonempty {
                    let ghost old_out = out@;
                    proof {
                        if old_out.len() > 0 && old_out[old_out.len() - 1].hi is None {
                            // a previous push was unbounded, which only happens in the
                            // very last step of both loops; we cannot be here.
                            assert(j == n2);
                            assert(false);
                        }
                    }
                    out.push(iv);
                    proof {
                        let new_out = out@;
                        // canonical form is preserved
                        assert forall|k: int| 0 <= k < new_out.len() implies iv_nonempty(
                            #[trigger] new_out[k],
                        ) by {
                            if k < old_out.len() {
                                assert(new_out[k] == old_out[k]);
                            } else {
                                assert(new_out[k] == iv);
                            }
                        }
                        assert forall|k: int| 0 <= k < new_out.len() - 1 implies (
                        #[trigger] new_out[k]).hi is Some && new_out[k].hi->0.spec_lt(
                            new_out[k + 1].lo,
                        ) by {
                            if k < old_out.len() - 1 {
                                assert(new_out[k] == old_out[k]);
                                assert(new_out[k + 1] == old_out[k + 1]);
                            } else {
                                // the old last interval against the pushed one
                                assert(new_out[k] == old_out[old_out.len() - 1]);
                                assert(new_out[k + 1] == iv);
                            }
                        }
                        assert(wf_seq(new_out));
                        // membership: the pushed interval adds exactly a ∩ b
                        assert forall|v: Version|
                            #[trigger] sem_seq(new_out, v) == (sem_seq(old_out, v)
                                || in_interval(iv, v)) by {
                            if sem_seq(new_out, v) {
                                let t = choose|t: int|
                                    0 <= t < new_out.len() && in_interval(
                                        #[trigger] new_out[t],
                                        v,
                                    );
                                if t < old_out.len() {
                                    assert(in_interval(old_out[t], v));
                                    assert(sem_seq(old_out, v));
                                } else {
                                    assert(in_interval(iv, v));
                                }
                            }
                            if sem_seq(old_out, v) {
                                let t = choose|t: int|
                                    0 <= t < old_out.len() && in_interval(
                                        #[trigger] old_out[t],
                                        v,
                                    );
                                assert(in_interval(new_out[t], v));
                                assert(sem_seq(new_out, v));
                            }
                            if in_interval(iv, v) {
                                assert(in_interval(new_out[new_out.len() - 1], v));
                                assert(sem_seq(new_out, v));
                            }
                        }
                        assert forall|v: Version| true implies #[trigger] sem_seq(out@, v) == ((
                        sem_pre(self@, i as int, v) && sem_seq(other@, v)) || (in_interval(a, v)
                            && sem_pre(other@, j as int + 1, v))) by {
                            lemma_sem_pre_step(other@, j as int, v);
                            if in_interval(b, v) {
                                assert(sem_pre(other@, j as int + 1, v));
                                assert(sem_seq(other@, v));
                            }
                        }
                    }
                } else {
                    proof {
                        // an empty pairwise intersection contributes nothing
                        assert forall|v: Version| true implies #[trigger] sem_seq(out@, v) == ((
                        sem_pre(self@, i as int, v) && sem_seq(other@, v)) || (in_interval(a, v)
                            && sem_pre(other@, j as int + 1, v))) by {
                            lemma_sem_pre_step(other@, j as int, v);
                            if in_interval(a, v) && in_interval(b, v) {
                                assert(in_interval(iv, v));
                                assert(iv_nonempty(iv));
                                assert(false);
                            }
                            if in_interval(b, v) {
                                assert(sem_seq(other@, v));
                            }
                        }
                    }
                }
                j += 1;
            }
            proof {
                assert forall|v: Version| true implies #[trigger] sem_seq(out@, v) == (sem_pre(
                    self@,
                    i as int + 1,
                    v,
                ) && sem_seq(other@, v)) by {
                    lemma_sem_pre_full(other@, v);
                    lemma_sem_pre_step(self@, i as int, v);
                }
                if out@.len() > 0 && out@[out@.len() - 1].hi is Some && i + 1 < n1 {
                    let h = out@[out@.len() - 1].hi->0;
                    if h.spec_lt(a.lo) {
                        assert(a.hi is Some && a.hi->0.spec_lt(self@[gi + 1].lo));
                        assert(iv_nonempty(a));
                    } else {
                        assert(le_hi(h, a.hi));
                        assert(a.hi is Some && a.hi->0.spec_lt(self@[gi + 1].lo));
                    }
                    assert(h.spec_lt(self@[gi + 1].lo));
                }
            }
            i += 1;
        }
        let r = Range { intervals: out };
        proof {
            assert forall|v: Version| #[trigger] r.sem(v) == (self.sem(v) && other.sem(v)) by {
                lemma_sem_pre_full(self@, v);
            }
        }
        r
    }

    /// Complement: the versions not in this range, as the gaps between its
    /// intervals plus the region before the first and after the last bound.
    #[verifier::rlimit(60)]
    #[verifier::spinoff_prover]
    pub fn complement(&self) -> (r: Range)
        requires
            self.wf(),
        ensures
            r.wf(),
            forall|v: Version| #[trigger] r.sem(v) == !self.sem(v),
    {
        let n = self.intervals.len();
        let zero = Version::zero();
        let mut out: Vec<Interval> = Vec::new();
        if n == 0 {
            out.push(Interval { lo: zero, hi: None });
            let r = Range { intervals: out };
            proof {
                assert forall|v: Version| #[trigger] r.sem(v) == !self.sem(v) by {
                    assert(in_interval(r@[0], v));
                }
            }
            return r;
        }
        let first_lo = self.intervals[0].lo;
        if zero.lt(&first_lo) {
            out.push(Interval { lo: zero, hi: Some(first_lo) });
        }
        let ghost base = out@.len() as int;
        let mut k: usize = 0;
        while k < n - 1
            invariant
                self.wf(),
                n == self.intervals.len(),
                n > 0,
                0 <= k <= n - 1,
                zero == (Version { major: 0u64, minor: 0u64, patch: 0u64 }),
                first_lo == self@[0].lo,
                base == if zero.spec_lt(first_lo) {
                    1int
                } else {
                    0int
                },
                out@.len() == base + k,
                base == 1 ==> out@[0] == (Interval { lo: zero, hi: Some(first_lo) }),
                forall|t: int|
                    0 <= t < k ==> #[trigger] out@[base + t] == (Interval {
                        lo: self@[t].hi->0,
                        hi: Some(self@[t + 1].lo),
                    }),
            decreases n - 1 - k,
        {
            let h = match self.intervals[k].hi {
                Some(h) => h,
                None => {
                    proof {
                        assert(false);
                    }
                    first_lo
                },
            };
            let next_lo = self.intervals[k + 1].lo;
            out.push(Interval { lo: h, hi: Some(next_lo) });
            k += 1;
        }
        let ghost gaps = out@.len() as int;
        let mut unbounded = false;
        if let Some(h) = self.intervals[n - 1].hi {
            out.push(Interval { lo: h, hi: None });
            unbounded = true;
        }
        let r = Range { intervals: out };
        proof {
            assert(comp_shape(self@, r@, base, gaps));
            lemma_comp_wf(self@, r@, base, gaps);
            assert forall|v: Version| #[trigger] r.sem(v) == !self.sem(v) by {
                lemma_comp_sem(self@, r@, base, gaps, v);
            }
        }
        r
    }

    /// Union, computed from intersection and complement by De Morgan's law.
    pub fn union(&self, other: &Range) -> (r: Range)
        requires
            self.wf(),
            other.wf(),
        ensures
            r.wf(),
            forall|v: Version| #[trigger] r.sem(v) == (self.sem(v) || other.sem(v)),
    {
        self.complement().intersection(&other.complement()).complement()
    }

    /// Does every version of `self` lie in `other`?
    pub fn subset_of(&self, other: &Range) -> (r: bool)
        requires
            self.wf(),
            other.wf(),
        ensures
            r == (forall|v: Version| #[trigger] self.sem(v) ==> other.sem(v)),
    {
        let gap = self.intersection(&other.complement());
        let r = gap.is_empty();
        proof {
            if r {
                assert forall|v: Version| #[trigger] self.sem(v) implies other.sem(v) by {
                    assert(!gap.sem(v));
                }
            } else {
                let v = choose|v: Version| #[trigger] gap.sem(v);
                assert(self.sem(v) && !other.sem(v));
            }
        }
        r
    }

    /// A copy whose interval list is known to equal the original's.
    pub fn duplicate(&self) -> (r: Range)
        ensures
            r@ == self@,
    {
        let n = self.intervals.len();
        let mut intervals: Vec<Interval> = Vec::new();
        let mut i: usize = 0;
        while i < n
            invariant
                n == self.intervals.len(),
                0 <= i <= n,
                intervals@ =~= self@.subrange(0, i as int),
            decreases n - i,
        {
            intervals.push(self.intervals[i]);
            i += 1;
        }
        proof {
            assert(intervals@ =~= self@);
        }
        Range { intervals }
    }

    /// Emptiness is decided by the canonical form: no intervals, no versions.
    pub fn is_empty(&self) -> (r: bool)
        requires
            self.wf(),
        ensures
            r == (forall|v: Version| !(#[trigger] self.sem(v))),
    {
        if self.intervals.len() == 0 {
            true
        } else {
            let w = self.intervals[0].lo;
            proof {
                assert(in_interval(self@[0], w));
                assert(self.sem(w));
            }
            false
        }
    }
}

/// `r` satisfies the contract of `a.intersection(&b)`.
pub open spec fn is_intersection(a: Range, b: Range, r: Range) -> bool {
    r.wf() && forall|v: Version| #[trigger] r.sem(v) == (a.sem(v) && b.sem(v))
}

/// `r` satisfies the contract of `a.union(&b)`.
pub open spec fn is_union(a: Range, b: Range, r: Range) -> bool {
    r.wf() && forall|v: Version| #[trigger] r.sem(v) == (a.sem(v) || b.sem(v))
}

/// `r` satisfies the contract of `a.complement()`.
pub open spec fn is_complement(a: Range, r: Range) -> bool {
    r.wf() && forall|v: Version| #[trigger] r.sem(v) == !a.sem(v)
}

/// Canonical forms are unique: two well-formed ranges containing exactly
/// the same versions are equal.
pub proof fn lemma_canonical(r1: Range, r2: Range)
    requires
        r1.wf(),
        r2.wf(),
        forall|v: Version| #[trigger] r1.sem(v) == r2.sem(v),
    ensures
        r1@ == r2@,
{
    assert forall|v: Version| sem_seq(r1@, v) == sem_seq(r2@, v) by {
        assert(r1.sem(v) == r2.sem(v));
    }
    lemma_canonical_seq(r1@, r2@);
}

/// Law: intersection is commutative. Any result meeting the contract of
/// `intersect(a, b)` equals any result meeting the contract of
/// `intersect(b, a)`.
pub proof fn lemma_intersection_commutative(a: Range, b: Range, r1: Range, r2: Range)
    requires
        is_intersection(a, b, r1),
        is_intersection(b, a, r2),
    ensures
        r1@ == r2@,
{
    lemma_canonical(r1, r2);
}

/// Law: union is commutative.
pub proof fn lemma_union_commutative(a: Range, b: Range, r1: Range, r2: Range)
    requires
        is_union(a, b, r1),
        is_union(b, a, r2),
    ensures
        r1@ == r2@,
{
    lemma_canonical(r1, r2);
}

/// Law: intersection is idempotent.
pub proof fn lemma_intersection_idempotent(a: Range, r: Range)
    requires
        a.wf(),
        is_intersection(a, a, r),
    ensures
        r@ == a@,
{
    lemma_canonical(r, a);
}

/// Law: union is idempotent.
pub proof fn lemma_union_idempotent(a: Range, r: Range)
    requires
        a.wf(),
        is_union(a, a, r),
    ensures
        r@ == a@,
{
    lemma_canonical(r, a);
}

/// Law: the complement of the complement of `a` is `a` itself.
pub proof fn lemma_complement_involutive(a: Range, c: Range, cc: Range)
    requires
        a.wf(),
        is_complement(a, c),
        is_complement(c, cc),
    ensures
        cc@ == a@,
{
    lemma_canonical(cc, a);
}

/// Law: a range intersected with its own complement is the empty range.
pub proof fn lemma_intersection_with_complement_empty(a: Range, c: Range, r: Range)
    requires
        is_complement(a, c),
        is_intersection(a, c, r),
    ensures
        r@.len() == 0,
        forall|v: Version| !(#[trigger] r.sem(v)),
{
    if r@.len() > 0 {
        assert(iv_nonempty(r@[0]));
        assert(in_interval(r@[0], r@[0].lo));
        assert(r.sem(r@[0].lo));
        assert(false);
    }
}

/// Law (De Morgan): the complement of an intersection is the union of the
/// complements.
pub proof fn lemma_de_morgan_intersection(
    a: Range,
    b: Range,
    both: Range,
    cboth: Range,
    ca: Range,
    cb: Range,
    r: Range,
)
    requires
        is_intersection(a, b, both),
        is_complement(both, cboth),
        is_complement(a, ca),
        is_complement(b, cb),
        is_union(ca, cb, r),
    ensures
        cboth@ == r@,
{
    lemma_canonical(cboth, r);
}

/// Law (De Morgan): the complement of a union is the intersection of the
/// complements.
pub proof fn lemma_de_morgan_union(
    a: Range,
    b: Range,
    u: Range,
    cu: Range,
    ca: Range,
    cb: Range,
    r: Range,
)
    requires
        is_union(a, b, u),
        is_complement(u, cu),
        is_complement(a, ca),
        is_complement(b, cb),
        is_intersection(ca, cb, r),
    ensures
        cu@ == r@,
{
    lemma_canonical(cu, r);
}

} // verus!
