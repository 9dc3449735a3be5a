//! Rendering of an unsatisfiability proof: the derivation DAG of
//! incompatibilities is written as a numbered list of steps, each derived
//! step citing the numbers of its two causes, so a shared sub-derivation
//! is explained once and referenced afterwards.

use vstd::prelude::*;
use crate::parse::{all_digits, dec_val, is_digit, version_repr};
use crate::pkg::Pkg;
use crate::range::Range;
use crate::solver::{Incompat, IncompatKind, IncompatStore, inc_wf, store_wf};
use crate::term::Term;
use crate::version::Version;

verus! {

/// The decimal digits of `n`, most significant first.
fn u64_string(n: u64) -> (r: String)
    ensures
        all_digits(r@),
        dec_val(r@) == n,
    decreases n,
{
    let digit = match n % 10 {
        0 => "0",
        1 => "1",
        2 => "2",
        3 => "3",
        4 => "4",
        5 => "5",
        6 => "6",
        7 => "7",
        8 => "8",
        _ => "9",
    };
    proof {
        reveal_strlit("0");
        reveal_strlit("1");
        reveal_strlit("2");
        reveal_strlit("3");
        reveal_strlit("4");
        reveal_strlit("5");
        reveal_strlit("6");
        reveal_strlit("7");
        reveal_strlit("8");
        reveal_strlit("9");
        assert(digit@.len() == 1);
        assert(is_digit(digit@[0]));
        assert(crate::parse::digit_val(digit@[0]) == n % 10);
    }
    if n < 10 {
        let r = String::from_str(digit);
        proof {
            assert(r@ =~= digit@);
            assert(r@.len() == 1);
            assert(r@.last() == digit@[0]);
            assert(r@.drop_last() =~= Seq::<char>::empty());
            assert(dec_val(Seq::<char>::empty()) == 0);
            assert(dec_val(r@) == n);
        }
        r
    } else {
        let mut s = u64_string(n / 10);
        let ghost sv = s@;
        s.append(digit);
        proof {
            assert(s@ == sv + digit@);
            assert(s@.drop_last() =~= sv);
            assert(s@.last() == digit@[0]);
            assert(dec_val(s@) == 10 * dec_val(sv) + (n % 10));
            assert(dec_val(s@) == n);
            assert forall|i: int| 0 <= i < s@.len() implies is_digit(#[trigger] s@[i]) by {
                if i < sv.len() {
                    assert(s@[i] == sv[i]);
                } else {
                    assert(s@[i] == digit@[0]);
                }
            }
        }
        s
    }
}

/// `major.minor.patch`.
pub(crate) fn version_string(v: &Version) -> (r: String)
    ensures
        version_repr(r@, *v),
{
    let mut s = u64_string(v.major);
    let ghost maj = s@;
    s.append(".");
    let minor = u64_string(v.minor);
    s.append(minor.as_str());
    let ghost mid = s@;
    s.append(".");
    let patch = u64_string(v.patch);
    s.append(patch.as_str());
    proof {
        reveal_strlit(".");
        assert((".")@.len() == 1 && (".")@[0] == '.');
        let d1 = maj.len() as int;
        let d2 = mid.len() as int;
        assert(s@ == maj + (".")@ + minor@ + (".")@ + patch@);
        assert(s@[d1] == '.');
        assert(s@[d2] == '.');
        assert(s@.subrange(0, d1) =~= maj);
        assert(s@.subrange(d1 + 1, d2) =~= minor@);
        assert(s@.subrange(d2 + 1, s@.len() as int) =~= patch@);
        assert(0 <= d1 < d2 < s@.len());
    }
    s
}

/// The textual form `major.minor.patch` of a version: exactly the shape
/// the version parser accepts, with the components of `v`.
pub fn version_text(v: &Version) -> (r: String)
    ensures
        version_repr(r@, *v),
{
    version_string(v)
}

/// `author/name`, or just the author for the synthetic root.
pub(crate) fn pkg_string(p: &Pkg) -> (r: String) {
    let mut s = p.author.clone();
    if !p.name.as_str().is_empty() {
        s.append("/");
        s.append(p.name.as_str());
    }
    s
}

/// The intervals of a range, for example `[1.0.0, 2.0.0) or [3.0.0, *)`.
fn range_string(rng: &Range) -> (r: String) {
    let n = rng.intervals.len();
    if n == 0 {
        return String::from_str("no version");
    }
    let mut s = String::new();
    let mut i: usize = 0;
    while i < n
        invariant
            n == rng.intervals@.len(),
            0 <= i <= n,
        decreases n - i,
    {
        if i > 0 {
            s.append(" or ");
        }
        s.append("[");
        let lo = version_string(&rng.intervals[i].lo);
        s.append(lo.as_str());
        s.append(", ");
        match rng.intervals[i].hi {
            Some(h) => {
                let hi = version_string(&h);
                s.append(hi.as_str());
            },
            None => {
                s.append("*");
            },
        }
        s.append(")");
        i += 1;
    }
    s
}

/// `pkg is in ...` or `pkg is not in ...`.
fn term_string(p: &Pkg, t: &Term) -> (r: String) {
    let mut s = pkg_string(p);
    if t.positive {
        s.append(" is in ");
    } else {
        s.append(" is not in ");
    }
    let rs = range_string(&t.range);
    s.append(rs.as_str());
    s
}

/// All terms of an incompatibility, joined with `and`.
fn terms_string(inc: &Incompat) -> (r: String) {
    let n = inc.terms.len();
    if n == 0 {
        return String::from_str("nothing");
    }
    let mut s = String::new();
    let mut i: usize = 0;
    while i < n
        invariant
            n == inc.terms@.len(),
            0 <= i <= n,
        decreases n - i,
    {
        if i > 0 {
            s.append(" and ");
        }
        let ts = term_string(&inc.terms[i].0, &inc.terms[i].1);
        s.append(ts.as_str());
        i += 1;
    }
    s
}

/// Render the incompatibility at `idx` and, first, its not-yet-rendered
/// causes; `labels[i]` is the step number of an already rendered
/// incompatibility (zero when not rendered yet).
fn render_rec(store: &IncompatStore, idx: usize, labels: &mut Vec<usize>, lines: &mut Vec<String>)
    requires
        store_wf(store.incompats@),
        idx < store.incompats@.len(),
        old(labels)@.len() == store.incompats@.len(),
    ensures
        final(labels)@.len() == old(labels)@.len(),
        final(lines)@.len() >= old(lines)@.len(),
        old(labels)@[idx as int] == 0 ==> final(lines)@.len() > old(lines)@.len(),
    decreases idx,
{
    if labels[idx] != 0 {
        return;
    }
    proof {
        assert(inc_wf(store.incompats@[idx as int], idx as int));
    }
    let mut line = String::new();
    match &store.incompats[idx].kind {
        IncompatKind::NotRoot => {
            line.append("the project itself must be selected at its own version");
        },
        IncompatKind::NoVersions { pkg } => {
            line.append("no available version of ");
            let ps = pkg_string(pkg);
            line.append(ps.as_str());
            line.append(" is allowed: ");
            let ts = terms_string(&store.incompats[idx]);
            line.append(ts.as_str());
            line.append(" cannot hold");
        },
        IncompatKind::FromDependency { pkg, version } => {
            let ps = pkg_string(pkg);
            line.append(ps.as_str());
            line.append(" ");
            let vs = version_string(version);
            line.append(vs.as_str());
            line.append(" declares a dependency, so ");
            let ts = terms_string(&store.incompats[idx]);
            line.append(ts.as_str());
            line.append(" cannot all hold");
        },
        IncompatKind::Derived { left, right } => {
            let l = *left;
            let rr = *right;
            render_rec(store, l, labels, lines);
            render_rec(store, rr, labels, lines);
            line.append("because (");
            let ls = u64_string(labels[l] as u64);
            line.append(ls.as_str());
            line.append(") and (");
            let rs = u64_string(labels[rr] as u64);
            line.append(rs.as_str());
            line.append("), ");
            if store.incompats[idx].terms.len() == 0 {
                line.append("no assignment is possible at all");
            } else {
                let ts = terms_string(&store.incompats[idx]);
                line.append(ts.as_str());
                line.append(" cannot all hold");
            }
        },
    }
    lines.push(line);
    if lines.len() < usize::MAX {
        labels.set(idx, lines.len());
    }
}

/// Render the derivation rooted at `idx` as numbered explanation lines.
/// The explanation always holds at least the root step.
pub fn render(store: &IncompatStore, idx: usize) -> (r: String)
    requires
        store_wf(store.incompats@),
        idx < store.incompats@.len(),
    ensures
        r@.len() > 0,
{
    let mut labels: Vec<usize> = Vec::new();
    let n = store.incompats.len();
    let mut i: usize = 0;
    while i < n
        invariant
            n == store.incompats@.len(),
            0 <= i <= n,
            labels@.len() == i,
            forall|t: int| 0 <= t < i ==> (#[trigger] labels@[t]) == 0,
        decreases n - i,
    {
        labels.push(0);
        i += 1;
    }
    let mut lines: Vec<String> = Vec::new();
    render_rec(store, idx, &mut labels, &mut lines);
    let mut out = String::new();
    let m = lines.len();
    let mut j: usize = 0;
    while j < m
        invariant
            m == lines@.len(),
            0 <= j <= m,
            j > 0 ==> out@.len() > 0,
        decreases m - j,
    {
        let num = u64_string((j as u64) + 1);
        out.append(num.as_str());
        out.append(". ");
        proof {
            reveal_strlit(". ");
            assert(out@.len() > 0);
        }
        out.append(lines[j].as_str());
        out.append("\n");
        j += 1;
    }
    out
}

} // verus!
