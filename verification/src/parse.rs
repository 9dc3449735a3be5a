//! Parsing of the textual dependency declarations served by the package
//! cache and the registry: exact versions `1.2.3` and range constraints
//! `1.0.0 <= v < 2.0.0`.

use vstd::prelude::*;
use crate::range::Range;
use crate::version::Version;

verus! {

/// An ASCII decimal digit.
pub open spec fn is_digit(c: char) -> bool {
    '0' <= c && c <= '9'
}

pub open spec fn digit_val(c: char) -> int {
    c as int - 48
}

/// The value of a digit string, most significant digit first.
pub open spec fn dec_val(s: Seq<char>) -> int
    decreases s.len(),
{
    if s.len() == 0 {
        0
    } else {
        10 * dec_val(s.drop_last()) + digit_val(s.last())
    }
}

/// A nonempty string of digits.
pub open spec fn all_digits(s: Seq<char>) -> bool {
    s.len() > 0 && forall|i: int| 0 <= i < s.len() ==> is_digit(#[trigger] s[i])
}

/// `s` reads `major.minor.patch` with the components of `v`.
pub open spec fn version_repr(s: Seq<char>, v: Version) -> bool {
    exists|d1: int, d2: int|
        #![trigger s[d1], s[d2]]
        {
            &&& 0 <= d1 < d2 < s.len()
            &&& s[d1] == '.'
            &&& s[d2] == '.'
            &&& all_digits(s.subrange(0, d1))
            &&& all_digits(s.subrange(d1 + 1, d2))
            &&& all_digits(s.subrange(d2 + 1, s.len() as int))
            &&& v.major == dec_val(s.subrange(0, d1))
            &&& v.minor == dec_val(s.subrange(d1 + 1, d2))
            &&& v.patch == dec_val(s.subrange(d2 + 1, s.len() as int))
        }
}

/// The value of a digit string is nonnegative.
proof fn lemma_dec_val_nonneg(s: Seq<char>)
    requires
        forall|i: int| 0 <= i < s.len() ==> is_digit(#[trigger] s[i]),
    ensures
        0 <= dec_val(s),
    decreases s.len(),
{
    if s.len() > 0 {
        assert forall|i: int| 0 <= i < s.drop_last().len() implies is_digit(
            #[trigger] s.drop_last()[i],
        ) by {
            assert(s.drop_last()[i] == s[i]);
        }
        lemma_dec_val_nonneg(s.drop_last());
        assert(is_digit(s.last()));
    }
}

/// The value of a digit string is no smaller than that of any prefix.
proof fn lemma_dec_val_prefix(s: Seq<char>, k: int)
    requires
        0 <= k <= s.len(),
        forall|i: int| 0 <= i < s.len() ==> is_digit(#[trigger] s[i]),
    ensures
        dec_val(s.subrange(0, k)) <= dec_val(s),
    decreases s.len() - k,
{
    if k == s.len() {
        assert(s.subrange(0, k) =~= s);
    } else {
        let shorter = s.subrange(0, k);
        let longer = s.subrange(0, k + 1);
        assert(longer.drop_last() =~= shorter);
        assert(longer.last() == s[k]);
        assert forall|i: int| 0 <= i < shorter.len() implies is_digit(#[trigger] shorter[i]) by {
            assert(shorter[i] == s[i]);
        }
        lemma_dec_val_nonneg(shorter);
        assert(is_digit(s[k]));
        assert(dec_val(longer) == 10 * dec_val(shorter) + digit_val(s[k]));
        assert(dec_val(shorter) <= dec_val(longer));
        lemma_dec_val_prefix(s, k + 1);
    }
}

/// Parse the digit group `s[from..to]` as a number. It succeeds exactly
/// when the group is nonempty, all digits, and its value fits.
fn parse_u64(s: &str, from: usize, to: usize) -> (r: Option<u64>)
    requires
        from <= to <= s@.len(),
    ensures
        r matches Some(x) ==> all_digits(s@.subrange(from as int, to as int)) && x == dec_val(
            s@.subrange(from as int, to as int),
        ),
        r is None ==> !(all_digits(s@.subrange(from as int, to as int)) && dec_val(
            s@.subrange(from as int, to as int),
        ) <= u64::MAX),
{
    let ghost whole = s@.subrange(from as int, to as int);
    if from == to {
        return None;
    }
    let mut acc: u64 = 0;
    let mut i: usize = from;
    while i < to
        invariant
            from <= i <= to <= s@.len(),
            whole == s@.subrange(from as int, to as int),
            acc == dec_val(s@.subrange(from as int, i as int)),
            forall|t: int| from <= t < i ==> is_digit(#[trigger] s@[t]),
        decreases to - i,
    {
        let c = s.get_char(i);
        let d: u64 = match c {
            '0' => 0,
            '1' => 1,
            '2' => 2,
            '3' => 3,
            '4' => 4,
            '5' => 5,
            '6' => 6,
            '7' => 7,
            '8' => 8,
            '9' => 9,
            _ => {
                proof {
                    assert(!is_digit(s@[i as int]));
                    assert(whole[i - from] == s@[i as int]);
                    assert(!all_digits(whole));
                }
                return None;
            },
        };
        proof {
            assert(is_digit(s@[i as int]) && digit_val(s@[i as int]) == d as int);
        }
        if acc > (u64::MAX - d) / 10 {
            proof {
                if all_digits(whole) {
                    // the value of the group is at least the value of the
                    // digits read so far, which already exceeds the maximum
                    let k = i + 1 - from;
                    let p = whole.subrange(0, k as int);
                    assert(p =~= s@.subrange(from as int, i + 1));
                    assert(p.drop_last() =~= s@.subrange(from as int, i as int));
                    assert(p.last() == s@[i as int]);
                    assert(dec_val(p) == 10 * (acc as int) + d);
                    assert(10 * (acc as int) + d > u64::MAX) by {
                        let q = (u64::MAX - d) / 10;
                        assert(u64::MAX - d == 10 * q + ((u64::MAX - d) % 10));
                    }
                    lemma_dec_val_prefix(whole, k as int);
                    assert(dec_val(whole) > u64::MAX);
                }
            }
            return None;
        }
        let ghost pre = s@.subrange(from as int, i as int);
        acc = acc * 10 + d;
        i += 1;
        proof {
            let cur = s@.subrange(from as int, i as int);
            assert(cur.drop_last() =~= pre);
            assert(cur.last() == s@[i - 1]);
        }
    }
    proof {
        assert(all_digits(s@.subrange(from as int, to as int)));
    }
    Some(acc)
}

/// A dot can only stand at one of the two separator positions of a
/// well-formed version text: the three groups hold digits alone.
proof fn lemma_repr_dots(s: Seq<char>, d1x: int, d2x: int, p: int)
    requires
        0 <= d1x < d2x < s.len(),
        all_digits(s.subrange(0, d1x)) || d1x == 0,
        all_digits(s.subrange(d1x + 1, d2x)) || d1x + 1 == d2x,
        all_digits(s.subrange(d2x + 1, s.len() as int)) || d2x + 1 == s.len(),
        0 <= p < s.len(),
        s[p] == '.',
    ensures
        p == d1x || p == d2x,
{
    assert(!is_digit('.'));
    if p < d1x {
        assert(s.subrange(0, d1x)[p] == s[p]);
        assert(false);
    } else if d1x < p && p < d2x {
        assert(s.subrange(d1x + 1, d2x)[p - d1x - 1] == s[p]);
        assert(false);
    } else if p > d2x {
        assert(s.subrange(d2x + 1, s.len() as int)[p - d2x - 1] == s[p]);
        assert(false);
    }
}

/// In a well-formed version text whose only dots stand at `d1` and `d2`,
/// those are the separators of every reading, so the three groups are
/// digit-only with values that fit.
proof fn lemma_repr_at(s: Seq<char>, d1: int, d2: int)
    requires
        exists|v: Version| version_repr(s, v),
        0 <= d1 < d2 < s.len(),
        s[d1] == '.',
        s[d2] == '.',
        forall|t: int| 0 <= t < s.len() && t != d1 && t != d2 ==> (#[trigger] s[t]) != '.',
    ensures
        all_digits(s.subrange(0, d1)),
        dec_val(s.subrange(0, d1)) <= u64::MAX,
        all_digits(s.subrange(d1 + 1, d2)),
        dec_val(s.subrange(d1 + 1, d2)) <= u64::MAX,
        all_digits(s.subrange(d2 + 1, s.len() as int)),
        dec_val(s.subrange(d2 + 1, s.len() as int)) <= u64::MAX,
{
    let v0 = choose|v: Version| version_repr(s, v);
    let (d1x, d2x): (int, int) = choose|d1x: int, d2x: int|
        #![trigger s[d1x], s[d2x]]
        {
            &&& 0 <= d1x < d2x < s.len()
            &&& s[d1x] == '.'
            &&& s[d2x] == '.'
            &&& all_digits(s.subrange(0, d1x))
            &&& all_digits(s.subrange(d1x + 1, d2x))
            &&& all_digits(s.subrange(d2x + 1, s.len() as int))
            &&& v0.major == dec_val(s.subrange(0, d1x))
            &&& v0.minor == dec_val(s.subrange(d1x + 1, d2x))
            &&& v0.patch == dec_val(s.subrange(d2x + 1, s.len() as int))
        };
    // the reading's separators are dots, so they are d1 and d2
    assert(d1x == d1 || d1x == d2);
    assert(d2x == d1 || d2x == d2);
    assert(d1x == d1 && d2x == d2);
}

/// Parse an exact version `major.minor.patch`. It succeeds exactly when
/// the text has that shape with components that fit.
pub fn parse_version(s: &str) -> (r: Option<Version>)
    ensures
        r matches Some(v) ==> version_repr(s@, v),
        r is None ==> !(exists|v: Version| version_repr(s@, v)),
{
    let n = s.unicode_len();
    // locate the two dots
    let mut d1: usize = 0;
    let mut d2: usize = 0;
    let mut dots: usize = 0;
    let mut i: usize = 0;
    while i < n
        invariant
            n == s@.len(),
            0 <= i <= n,
            dots <= 2,
            dots >= 1 ==> d1 < i && s@[d1 as int] == '.',
            dots == 2 ==> d1 < d2 < i && s@[d2 as int] == '.',
            dots == 0 ==> forall|t: int| 0 <= t < i ==> (#[trigger] s@[t]) != '.',
            dots == 1 ==> forall|t: int|
                0 <= t < i && t != d1 ==> (#[trigger] s@[t]) != '.',
            dots == 2 ==> forall|t: int|
                0 <= t < i && t != d1 && t != d2 ==> (#[trigger] s@[t]) != '.',
        decreases n - i,
    {
        if s.get_char(i) == '.' {
            if dots == 0 {
                d1 = i;
            } else if dots == 1 {
                d2 = i;
            } else {
                proof {
                    // a third dot: no well-formed version text has one
                    if exists|v: Version| version_repr(s@, v) {
                        let v0 = choose|v: Version| version_repr(s@, v);
                        let (d1x, d2x): (int, int) = choose|d1x: int, d2x: int|
                            #![trigger s@[d1x], s@[d2x]]
                            {
                                &&& 0 <= d1x < d2x < s@.len()
                                &&& s@[d1x] == '.'
                                &&& s@[d2x] == '.'
                                &&& all_digits(s@.subrange(0, d1x))
                                &&& all_digits(s@.subrange(d1x + 1, d2x))
                                &&& all_digits(s@.subrange(d2x + 1, s@.len() as int))
                                &&& v0.major == dec_val(s@.subrange(0, d1x))
                                &&& v0.minor == dec_val(s@.subrange(d1x + 1, d2x))
                                &&& v0.patch == dec_val(s@.subrange(d2x + 1, s@.len() as int))
                            };
                        lemma_repr_dots(s@, d1x, d2x, d1 as int);
                        lemma_repr_dots(s@, d1x, d2x, d2 as int);
                        lemma_repr_dots(s@, d1x, d2x, i as int);
                        assert(false);
                    }
                }
                return None;
            }
            dots += 1;
        }
        i += 1;
    }
    if dots != 2 {
        proof {
            // fewer than two dots: no well-formed version text
            if exists|v: Version| version_repr(s@, v) {
                let v0 = choose|v: Version| version_repr(s@, v);
                let (d1x, d2x): (int, int) = choose|d1x: int, d2x: int|
                    #![trigger s@[d1x], s@[d2x]]
                    {
                        &&& 0 <= d1x < d2x < s@.len()
                        &&& s@[d1x] == '.'
                        &&& s@[d2x] == '.'
                        &&& all_digits(s@.subrange(0, d1x))
                        &&& all_digits(s@.subrange(d1x + 1, d2x))
                        &&& all_digits(s@.subrange(d2x + 1, s@.len() as int))
                        &&& v0.major == dec_val(s@.subrange(0, d1x))
                        &&& v0.minor == dec_val(s@.subrange(d1x + 1, d2x))
                        &&& v0.patch == dec_val(s@.subrange(d2x + 1, s@.len() as int))
                    };
                if dots == 0 {
                    assert(s@[d1x] != '.');
                } else {
                    assert(d1x == d1 as int && d2x == d1 as int);
                }
                assert(false);
            }
        }
        return None;
    }
    let major = match parse_u64(s, 0, d1) {
        Some(x) => x,
        None => {
            proof {
                if exists|v: Version| version_repr(s@, v) {
                    lemma_repr_at(s@, d1 as int, d2 as int);
                    assert(false);
                }
            }
            return None;
        },
    };
    let minor = match parse_u64(s, d1 + 1, d2) {
        Some(x) => x,
        None => {
            proof {
                if exists|v: Version| version_repr(s@, v) {
                    lemma_repr_at(s@, d1 as int, d2 as int);
                    assert(false);
                }
            }
            return None;
        },
    };
    let patch = match parse_u64(s, d2 + 1, n) {
        Some(x) => x,
        None => {
            proof {
                if exists|v: Version| version_repr(s@, v) {
                    lemma_repr_at(s@, d1 as int, d2 as int);
                    assert(false);
                }
            }
            return None;
        },
    };
    let v = Version { major, minor, patch };
    proof {
        assert(s@[d1 as int] == '.' && s@[d2 as int] == '.');
    }
    Some(v)
}

/// `rng` is the half-open range `[lo, hi)`.
pub open spec fn is_between(rng: Range, lo: Version, hi: Version) -> bool {
    rng.wf() && forall|w: Version|
        #[trigger] rng.sem(w) == (lo.spec_le(w) && w.spec_lt(hi))
}

/// `s` reads `LO <= v < HI`.
pub open spec fn constraint_repr(s: Seq<char>, lo: Version, hi: Version) -> bool {
    exists|i: int|
        #![trigger s.subrange(0, i)]
        {
            &&& 0 <= i && i + 8 <= s.len()
            &&& version_repr(s.subrange(0, i), lo)
            &&& s.subrange(i, i + 8) =~= mid_marker()
            &&& version_repr(s.subrange(i + 8, s.len() as int), hi)
        }
}

/// The literal ` <= v < ` between the two bounds.
pub open spec fn mid_marker() -> Seq<char> {
    seq![' ', '<', '=', ' ', 'v', ' ', '<', ' ']
}

/// Does ` <= v < ` stand at position `i`?
fn marker_at(s: &str, i: usize) -> (r: bool)
    requires
        i + 8 <= s@.len(),
        s@.len() <= usize::MAX,
    ensures
        r == (s@.subrange(i as int, i as int + 8) =~= mid_marker()),
{
    let r = s.get_char(i) == ' ' && s.get_char(i + 1) == '<' && s.get_char(i + 2) == '='
        && s.get_char(i + 3) == ' ' && s.get_char(i + 4) == 'v' && s.get_char(i + 5) == ' '
        && s.get_char(i + 6) == '<' && s.get_char(i + 7) == ' ';
    proof {
        let sub = s@.subrange(i as int, i as int + 8);
        if r {
            assert(sub =~= mid_marker());
        } else {
            if sub =~= mid_marker() {
                assert(sub[0] == ' ' && sub[1] == '<' && sub[2] == '=' && sub[3] == ' ' && sub[4]
                    == 'v' && sub[5] == ' ' && sub[6] == '<' && sub[7] == ' ');
                assert(false);
            }
        }
    }
    r
}

/// Every character of a well-formed version text is a digit or a dot.
proof fn lemma_version_chars(s: Seq<char>, p: int)
    requires
        exists|v: Version| version_repr(s, v),
        0 <= p < s.len(),
    ensures
        is_digit(s[p]) || s[p] == '.',
{
    let v0 = choose|v: Version| version_repr(s, v);
    let (d1x, d2x): (int, int) = choose|d1x: int, d2x: int|
        #![trigger s[d1x], s[d2x]]
        {
            &&& 0 <= d1x < d2x < s.len()
            &&& s[d1x] == '.'
            &&& s[d2x] == '.'
            &&& all_digits(s.subrange(0, d1x))
            &&& all_digits(s.subrange(d1x + 1, d2x))
            &&& all_digits(s.subrange(d2x + 1, s.len() as int))
            &&& v0.major == dec_val(s.subrange(0, d1x))
            &&& v0.minor == dec_val(s.subrange(d1x + 1, d2x))
            &&& v0.patch == dec_val(s.subrange(d2x + 1, s.len() as int))
        };
    if p < d1x {
        assert(s.subrange(0, d1x)[p] == s[p]);
    } else if d1x < p && p < d2x {
        assert(s.subrange(d1x + 1, d2x)[p - d1x - 1] == s[p]);
    } else if p > d2x {
        assert(s.subrange(d2x + 1, s.len() as int)[p - d2x - 1] == s[p]);
    }
}

/// A well-formed constraint text has no marker before its own separator:
/// everything earlier belongs to the lower version, which holds only
/// digits and dots.
proof fn lemma_no_earlier_marker(s: Seq<char>, lo: Version, hi: Version, at: int, t: int)
    requires
        0 <= at && at + 8 <= s.len(),
        version_repr(s.subrange(0, at), lo),
        s.subrange(at, at + 8) =~= mid_marker(),
        version_repr(s.subrange(at + 8, s.len() as int), hi),
        0 <= t < at,
    ensures
        !(s.subrange(t, t + 8) =~= mid_marker()),
{
    if s.subrange(t, t + 8) =~= mid_marker() {
        assert(s.subrange(t, t + 8)[0] == s[t]);
        assert(s[t] == ' ');
        assert(s.subrange(0, at)[t] == s[t]);
        lemma_version_chars(s.subrange(0, at), t);
        assert(!is_digit(' '));
        assert(false);
    }
}

/// Parse a range constraint `LO <= v < HI` into the half-open range
/// `[LO, HI)`. It succeeds exactly when the text has that shape with
/// version components that fit.
pub fn parse_constraint(s: &str) -> (r: Option<Range>)
    ensures
        r matches Some(rng) ==> exists|lo: Version, hi: Version|
            #[trigger] constraint_repr(s@, lo, hi) && is_between(rng, lo, hi),
        r is None ==> !(exists|lo: Version, hi: Version| #[trigger] constraint_repr(s@, lo, hi)),
{
    let n = s.unicode_len();
    if n < 8 {
        proof {
            if exists|lo: Version, hi: Version| #[trigger] constraint_repr(s@, lo, hi) {
                let (lo, hi): (Version, Version) = choose|lo: Version, hi: Version|
                    #[trigger] constraint_repr(s@, lo, hi);
                let at = choose|at: int|
                    #![trigger s@.subrange(0, at)]
                    {
                        &&& 0 <= at && at + 8 <= s@.len()
                        &&& version_repr(s@.subrange(0, at), lo)
                        &&& s@.subrange(at, at + 8) =~= mid_marker()
                        &&& version_repr(s@.subrange(at + 8, s@.len() as int), hi)
                    };
                assert(false);
            }
        }
        return None;
    }
    let mut i: usize = 0;
    while i <= n - 8
        invariant
            n == s@.len(),
            8 <= n,
            0 <= i <= n,
            forall|t: int|
                0 <= t < i ==> !(#[trigger] s@.subrange(t, t + 8) =~= mid_marker()),
        decreases n - i,
    {
        if marker_at(s, i) {
            let ghost gi = i as int;
            let lo = match parse_version(s.substring_char(0, i)) {
                Some(v) => v,
                None => {
                    proof {
                        if exists|lo: Version, hi: Version| #[trigger] constraint_repr(
                            s@,
                            lo,
                            hi,
                        ) {
                            lemma_constraint_at(s@, gi);
                            assert(false);
                        }
                    }
                    return None;
                },
            };
            let hi = match parse_version(s.substring_char(i + 8, n)) {
                Some(v) => v,
                None => {
                    proof {
                        if exists|lo: Version, hi: Version| #[trigger] constraint_repr(
                            s@,
                            lo,
                            hi,
                        ) {
                            lemma_constraint_at(s@, gi);
                            assert(false);
                        }
                    }
                    return None;
                },
            };
            let rng = Range::between(lo, hi);
            proof {
                assert(constraint_repr(s@, lo, hi));
                assert(is_between(rng, lo, hi));
            }
            return Some(rng);
        }
        i += 1;
    }
    proof {
        if exists|lo: Version, hi: Version| #[trigger] constraint_repr(s@, lo, hi) {
            let (lo, hi): (Version, Version) = choose|lo: Version, hi: Version|
                #[trigger] constraint_repr(s@, lo, hi);
            let at = choose|at: int|
                #![trigger s@.subrange(0, at)]
                {
                    &&& 0 <= at && at + 8 <= s@.len()
                    &&& version_repr(s@.subrange(0, at), lo)
                    &&& s@.subrange(at, at + 8) =~= mid_marker()
                    &&& version_repr(s@.subrange(at + 8, s@.len() as int), hi)
                };
            assert(false);
        }
    }
    None
}

/// If the first marker of the text stands at `at`, any well-formed reading
/// splits exactly there, so both sides are well-formed version texts.
proof fn lemma_constraint_at(s: Seq<char>, at: int)
    requires
        0 <= at && at + 8 <= s.len(),
        s.subrange(at, at + 8) =~= mid_marker(),
        forall|t: int|
            0 <= t < at ==> !(#[trigger] s.subrange(t, t + 8) =~= mid_marker()),
        exists|lo: Version, hi: Version| #[trigger] constraint_repr(s, lo, hi),
    ensures
        exists|v: Version| #[trigger] version_repr(s.subrange(0, at), v),
        exists|v: Version| #[trigger] version_repr(s.subrange(at + 8, s.len() as int), v),
{
    let (lo, hi): (Version, Version) = choose|lo: Version, hi: Version|
        #[trigger] constraint_repr(s, lo, hi);
    let there = choose|there: int|
        #![trigger s.subrange(0, there)]
        {
            &&& 0 <= there && there + 8 <= s.len()
            &&& version_repr(s.subrange(0, there), lo)
            &&& s.subrange(there, there + 8) =~= mid_marker()
            &&& version_repr(s.subrange(there + 8, s.len() as int), hi)
        };
    if there < at {
        assert(!(s.subrange(there, there + 8) =~= mid_marker()));
        assert(false);
    } else if there > at {
        lemma_no_earlier_marker(s, lo, hi, there, at);
        assert(false);
    }
}

} // verus!
