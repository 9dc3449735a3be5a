//! The project configuration as it appears in an `elm.json` file: fields
//! kept as plain strings, with the transformations the test runner applies
//! to them (promoting test dependencies, turning a package configuration
//! into an application configuration by pinning lower bounds).

use vstd::prelude::*;
use crate::maps::{key_contains, key_value, lemma_insert_push, lemma_insert_update, lemma_key_at, unique_keys};

verus! {

/// A mapping from package name to version or constraint text, unique keys.
#[derive(Debug, Clone, PartialEq, Eq)]
pub struct StringMap {
    pub entries: Vec<(String, String)>,
}

impl View for StringMap {
    type V = Seq<(Seq<char>, Seq<char>)>;

    open spec fn view(&self) -> Seq<(Seq<char>, Seq<char>)> {
        self.entries@.map_values(|e: (String, String)| (e.0@, e.1@))
    }
}

impl StringMap {
    pub open spec fn wf(self) -> bool {
        unique_keys(self@)
    }

    pub fn new() -> (r: StringMap)
        ensures
            r.wf(),
            r@.len() == 0,
    {
        StringMap { entries: Vec::new() }
    }

    pub fn len(&self) -> (r: usize)
        ensures
            r == self@.len(),
    {
        self.entries.len()
    }

    pub fn key_at(&self, i: usize) -> (r: &String)
        requires
            i < self@.len(),
        ensures
            r@ == self@[i as int].0,
    {
        &self.entries[i].0
    }

    pub fn value_at(&self, i: usize) -> (r: &String)
        requires
            i < self@.len(),
        ensures
            r@ == self@[i as int].1,
    {
        &self.entries[i].1
    }

    pub fn index_of(&self, k: &String) -> (r: Option<usize>)
        ensures
            match r {
                Some(i) => i < self@.len() && self@[i as int].0 == k@ && key_contains(self@, k@),
                None => !key_contains(self@, k@),
            },
    {
        let n = self.entries.len();
        let mut i: usize = 0;
        while i < n
            invariant
                n == self.entries.len(),
                n == self@.len(),
                0 <= i <= n,
                forall|t: int| 0 <= t < i ==> (#[trigger] self@[t]).0 != k@,
            decreases n - i,
        {
            if self.entries[i].0 == *k {
                assert(self@[i as int].0 == k@);
                return Some(i);
            }
            i += 1;
        }
        None
    }

    pub fn contains_key(&self, k: &String) -> (r: bool)
        ensures
            r == key_contains(self@, k@),
    {
        self.index_of(k).is_some()
    }

    pub fn get(&self, k: &String) -> (r: Option<&String>)
        requires
            self.wf(),
        ensures
            match r {
                Some(v) => key_contains(self@, k@) && v@ == key_value(self@, k@),
                None => !key_contains(self@, k@),
            },
    {
        match self.index_of(k) {
            Some(i) => {
                proof {
                    lemma_key_at(self@, i as int);
                }
                Some(&self.entries[i].1)
            },
            None => None,
        }
    }

    /// Insert `val` under `k`, replacing any previous entry for `k`.
    pub fn insert(&mut self, k: String, val: String)
        requires
            old(self).wf(),
        ensures
            final(self).wf(),
            key_contains(final(self)@, k@),
            key_value(final(self)@, k@) == val@,
            forall|k2: Seq<char>|
                k2 != k@ ==> #[trigger] key_contains(final(self)@, k2) == key_contains(
                    old(self)@,
                    k2,
                ),
            forall|k2: Seq<char>|
                k2 != k@ && key_contains(old(self)@, k2) ==> #[trigger] key_value(
                    final(self)@,
                    k2,
                ) == key_value(old(self)@, k2),
    {
        let ghost pre = self@;
        let ghost kk = k@;
        let ghost vv = val@;
        match self.index_of(&k) {
            Some(i) => {
                self.entries.set(i, (k, val));
                proof {
                    assert(self@ =~= pre.update(i as int, (kk, vv)));
                    lemma_insert_update(pre, self@, i as int, kk, vv);
                }
            },
            None => {
                self.entries.push((k, val));
                proof {
                    assert(self@ =~= pre.push((kk, vv)));
                    lemma_insert_push(pre, self@, kk, vv);
                }
            },
        }
    }

    /// Insert every entry of `other`, overriding entries sharing a key.
    pub fn extend(&mut self, other: &StringMap)
        requires
            old(self).wf(),
            other.wf(),
        ensures
            final(self).wf(),
            forall|k: Seq<char>|
                #[trigger] key_contains(final(self)@, k) == (key_contains(old(self)@, k)
                    || key_contains(other@, k)),
            forall|k: Seq<char>|
                key_contains(other@, k) ==> #[trigger] key_value(final(self)@, k) == key_value(
                    other@,
                    k,
                ),
            forall|k: Seq<char>|
                !key_contains(other@, k) && key_contains(old(self)@, k) ==> #[trigger] key_value(
                    final(self)@,
                    k,
                ) == key_value(old(self)@, k),
    {
        let n = other.len();
        let mut i: usize = 0;
        while i < n
            invariant
                self.wf(),
                other.wf(),
                n == other@.len(),
                0 <= i <= n,
                forall|k: Seq<char>|
                    #[trigger] key_contains(self@, k) == (key_contains(old(self)@, k) || exists|
                        t: int,
                    |
                        0 <= t < i && other@[t].0 == k),
                forall|k: Seq<char>|
                    (exists|t: int| 0 <= t < i && (#[trigger] other@[t]).0 == k)
                        ==> key_value(self@, k) == key_value(other@, k),
                forall|k: Seq<char>|
                    !key_contains(other@, k) && key_contains(old(self)@, k)
                        ==> #[trigger] key_value(self@, k) == key_value(old(self)@, k),
            decreases n - i,
        {
            let k = other.key_at(i);
            let v = other.value_at(i);
            proof {
                lemma_key_at(other@, i as int);
            }
            let ghost pre = self@;
            self.insert(k.clone(), v.clone());
            proof {
                assert forall|k2: Seq<char>|
                    #[trigger] key_contains(self@, k2) == (key_contains(old(self)@, k2) || exists|
                        t: int,
                    |
                        0 <= t < i + 1 && other@[t].0 == k2) by {
                    if k2 == k@ {
                        assert(other@[i as int].0 == k2);
                    } else {
                        assert(key_contains(self@, k2) == key_contains(pre, k2));
                        if exists|t: int| 0 <= t < i + 1 && other@[t].0 == k2 {
                            let t = choose|t: int| 0 <= t < i + 1 && other@[t].0 == k2;
                            assert(t < i);
                        }
                    }
                }
                assert forall|k2: Seq<char>|
                    (exists|t: int| 0 <= t < i + 1 && (#[trigger] other@[t]).0 == k2) implies
                    key_value(self@, k2) == key_value(other@, k2) by {
                    let t = choose|t: int| 0 <= t < i + 1 && (#[trigger] other@[t]).0 == k2;
                    if k2 == k@ {
                        assert(key_value(other@, k2) == other@[i as int].1);
                        assert(key_value(self@, k2) == v@);
                    } else {
                        assert(t < i);
                        assert(key_value(self@, k2) == key_value(pre, k2));
                    }
                }
                assert forall|k2: Seq<char>|
                    !key_contains(other@, k2) && key_contains(old(self)@, k2)
                        implies #[trigger] key_value(self@, k2) == key_value(old(self)@, k2) by {
                    assert(other@[i as int].0 == k@);
                    assert(k2 != k@);
                    assert(key_value(self@, k2) == key_value(pre, k2));
                }
            }
            i += 1;
        }
        proof {
            assert forall|k: Seq<char>|
                #[trigger] key_contains(self@, k) == (key_contains(old(self)@, k) || key_contains(
                    other@,
                    k,
                )) by {
                if key_contains(other@, k) {
                    let t = crate::maps::key_index(other@, k);
                    assert(0 <= t < n && other@[t].0 == k);
                }
                if exists|t: int| 0 <= t < n && other@[t].0 == k {
                    assert(key_contains(other@, k));
                }
            }
            assert forall|k: Seq<char>| key_contains(other@, k) implies #[trigger] key_value(
                self@,
                k,
            ) == key_value(other@, k) by {
                let t = crate::maps::key_index(other@, k);
                assert(0 <= t < n && other@[t].0 == k);
            }
        }
    }
}

/// Application dependencies as written in an `elm.json`: direct and
/// indirect pins, both as plain strings.
#[derive(Debug)]
pub struct Dependencies {
    pub direct: StringMap,
    pub indirect: StringMap,
}

impl Dependencies {
    pub open spec fn wf(self) -> bool {
        self.direct.wf() && self.indirect.wf()
    }

    pub fn new() -> (r: Dependencies)
        ensures
            r.wf(),
            r.direct@.len() == 0,
            r.indirect@.len() == 0,
    {
        Dependencies { direct: StringMap::new(), indirect: StringMap::new() }
    }
}

/// A package `elm.json`.
#[derive(Debug)]
pub struct PackageConfig {
    pub type_: String,
    pub name: String,
    pub summary: String,
    pub license: String,
    pub version: String,
    pub exposed_modules: Vec<String>,
    pub elm_version: String,
    pub dependencies: StringMap,
    pub test_dependencies: StringMap,
}

impl PackageConfig {
    pub open spec fn wf(self) -> bool {
        self.dependencies.wf() && self.test_dependencies.wf()
    }
}

/// An application `elm.json`.
#[derive(Debug)]
pub struct ApplicationConfig {
    pub type_: String,
    pub source_directories: Vec<String>,
    pub elm_version: String,
    pub dependencies: Dependencies,
    pub test_dependencies: Dependencies,
}

impl ApplicationConfig {
    pub open spec fn wf(self) -> bool {
        self.dependencies.wf() && self.test_dependencies.wf()
    }

    /// Move the test dependencies into the normal dependencies: this turns
    /// the tested project's configuration into the one used to compile the
    /// tests. A test pin overrides a normal pin for the same package.
    pub fn promote_test_dependencies(&mut self)
        requires
            old(self).wf(),
        ensures
            final(self).wf(),
            final(self).type_ == old(self).type_,
            final(self).source_directories == old(self).source_directories,
            final(self).elm_version == old(self).elm_version,
            final(self).test_dependencies.direct@.len() == 0,
            final(self).test_dependencies.indirect@.len() == 0,
            forall|k: Seq<char>|
                #[trigger] key_contains(final(self).dependencies.direct@, k) == (key_contains(
                    old(self).dependencies.direct@,
                    k,
                ) || key_contains(old(self).test_dependencies.direct@, k)),
            forall|k: Seq<char>|
                #[trigger] key_contains(final(self).dependencies.indirect@, k) == (key_contains(
                    old(self).dependencies.indirect@,
                    k,
                ) || key_contains(old(self).test_dependencies.indirect@, k)),
            forall|k: Seq<char>|
                key_contains(old(self).test_dependencies.direct@, k) ==> #[trigger] key_value(
                    final(self).dependencies.direct@,
                    k,
                ) == key_value(old(self).test_dependencies.direct@, k),
            forall|k: Seq<char>|
                key_contains(old(self).test_dependencies.indirect@, k) ==> #[trigger] key_value(
                    final(self).dependencies.indirect@,
                    k,
                ) == key_value(old(self).test_dependencies.indirect@, k),
            forall|k: Seq<char>|
                !key_contains(old(self).test_dependencies.direct@, k) && key_contains(
                    old(self).dependencies.direct@,
                    k,
                ) ==> #[trigger] key_value(final(self).dependencies.direct@, k) == key_value(
                    old(self).dependencies.direct@,
                    k,
                ),
            forall|k: Seq<char>|
                !key_contains(old(self).test_dependencies.indirect@, k) && key_contains(
                    old(self).dependencies.indirect@,
                    k,
                ) ==> #[trigger] key_value(final(self).dependencies.indirect@, k) == key_value(
                    old(self).dependencies.indirect@,
                    k,
                ),
    {
        self.dependencies.direct.extend(&self.test_dependencies.direct);
        self.dependencies.indirect.extend(&self.test_dependencies.indirect);
        self.test_dependencies.direct = StringMap::new();
        self.test_dependencies.indirect = StringMap::new();
    }
}

/// Project configuration read from an `elm.json`: a package or an
/// application.
#[derive(Debug)]
pub enum Config {
    Package(PackageConfig),
    Application(ApplicationConfig),
}

/// ASCII whitespace, as trimmed around version bounds.
pub open spec fn is_ws(c: char) -> bool {
    c == ' ' || c == '\t' || c == '\n' || c == '\r'
}

/// `cut` is where the first `<` of `s` stands (or the end if there is none).
pub open spec fn cut_at(s: Seq<char>, cut: int) -> bool {
    &&& 0 <= cut <= s.len()
    &&& (cut < s.len() ==> s[cut] == '<')
    &&& forall|t: int| 0 <= t < cut ==> s[t] != '<'
}

/// `out` is `s[lo..hi]`, the whitespace-trimmed body of `s[0..cut]`.
pub open spec fn trimmed_part(s: Seq<char>, cut: int, lo: int, hi: int, out: Seq<char>) -> bool {
    &&& 0 <= lo <= hi <= cut <= s.len()
    &&& (forall|t: int| 0 <= t < lo ==> is_ws(#[trigger] s[t]))
    &&& (forall|t: int| hi <= t < cut ==> is_ws(#[trigger] s[t]))
    &&& (lo < hi ==> !is_ws(s[lo]) && !is_ws(s[hi - 1]))
    &&& out == s.subrange(lo, hi)
}

/// `out` is the lower bound of the textual version range `s`: the prefix
/// before the first `<`, with surrounding whitespace removed.
pub open spec fn lower_bound_of(s: Seq<char>, out: Seq<char>) -> bool {
    exists|cut: int|
        #[trigger] cut_at(s, cut) && exists|lo: int, hi: int|
            #[trigger] trimmed_part(s, cut, lo, hi, out)
}

/// Is `c` ASCII whitespace?
fn is_ws_char(c: char) -> (r: bool)
    ensures
        r == is_ws(c),
{
    c == ' ' || c == '\t' || c == '\n' || c == '\r'
}

/// Take the lower bound of a textual version range, for example `1.0.0`
/// out of `1.0.0 <= v < 2.0.0`.
pub fn to_exact_version(range: &str) -> (r: Result<String, String>)
    ensures
        r is Ok,
        r matches Ok(out) ==> lower_bound_of(range@, out@),
{
    let n = range.unicode_len();
    let mut cut: usize = 0;
    let mut scanning = true;
    while scanning && cut < n
        invariant
            n == range@.len(),
            0 <= cut <= n,
            forall|t: int| 0 <= t < cut ==> (#[trigger] range@[t]) != '<',
            !scanning ==> cut < n && range@[cut as int] == '<',
        decreases n - cut + if scanning {
            1int
        } else {
            0int
        },
    {
        if range.get_char(cut) == '<' {
            scanning = false;
        } else {
            cut += 1;
        }
    }
    let mut lo: usize = 0;
    let mut moving = true;
    while moving && lo < cut
        invariant
            n == range@.len(),
            cut <= n,
            0 <= lo <= cut,
            forall|t: int| 0 <= t < lo ==> is_ws(#[trigger] range@[t]),
            !moving ==> lo < cut && !is_ws(range@[lo as int]),
        decreases cut - lo + if moving {
            1int
        } else {
            0int
        },
    {
        if !is_ws_char(range.get_char(lo)) {
            moving = false;
        } else {
            lo += 1;
        }
    }
    let mut hi: usize = cut;
    let mut shrinking = true;
    while shrinking && hi > lo
        invariant
            n == range@.len(),
            cut <= n,
            lo <= hi <= cut,
            forall|t: int| hi <= t < cut ==> is_ws(#[trigger] range@[t]),
            !shrinking ==> hi > lo && !is_ws(range@[hi - 1]),
        decreases hi - lo + if shrinking {
            1int
        } else {
            0int
        },
    {
        if !is_ws_char(range.get_char(hi - 1)) {
            shrinking = false;
        } else {
            hi -= 1;
        }
    }
    let sub = range.substring_char(lo, hi);
    let out = String::from_str(sub);
    proof {
        assert(cut_at(range@, cut as int));
        assert(trimmed_part(range@, cut as int, lo as int, hi as int, out@));
    }
    Ok(out)
}

/// Map every entry of `src` to the lower bound of its constraint text.
fn exact_map(src: &StringMap) -> (r: Result<StringMap, String>)
    requires
        src.wf(),
    ensures
        r is Ok,
        r matches Ok(out) ==> out.wf() && (forall|k: Seq<char>|
            #[trigger] key_contains(out@, k) == key_contains(src@, k)) && (forall|k: Seq<char>|
            #[trigger] key_contains(src@, k) ==> lower_bound_of(
                key_value(src@, k),
                key_value(out@, k),
            )),
{
    let n = src.len();
    let mut out = StringMap::new();
    let mut i: usize = 0;
    while i < n
        invariant
            src.wf(),
            out.wf(),
            n == src@.len(),
            0 <= i <= n,
            forall|k: Seq<char>|
                #[trigger] key_contains(out@, k) == (exists|t: int|
                    0 <= t < i && src@[t].0 == k),
            forall|k: Seq<char>|
                #[trigger] key_contains(out@, k) ==> lower_bound_of(
                    key_value(src@, k),
                    key_value(out@, k),
                ),
        decreases n - i,
    {
        let k = src.key_at(i);
        let v = src.value_at(i);
        proof {
            lemma_key_at(src@, i as int);
        }
        let low = match to_exact_version(v.as_str()) {
            Ok(low) => low,
            Err(e) => {
                return Err(e);
            },
        };
        let ghost pre = out@;
        out.insert(k.clone(), low);
        proof {
            assert forall|k2: Seq<char>|
                #[trigger] key_contains(out@, k2) == (exists|t: int|
                    0 <= t < i + 1 && src@[t].0 == k2) by {
                if k2 == k@ {
                    assert(src@[i as int].0 == k2);
                } else {
                    assert(key_contains(out@, k2) == key_contains(pre, k2));
                    if exists|t: int| 0 <= t < i + 1 && src@[t].0 == k2 {
                        let t = choose|t: int| 0 <= t < i + 1 && src@[t].0 == k2;
                        assert(t < i);
                    }
                }
            }
            assert forall|k2: Seq<char>| #[trigger] key_contains(out@, k2) implies lower_bound_of(
                key_value(src@, k2),
                key_value(out@, k2),
            ) by {
                if k2 != k@ {
                    assert(key_value(out@, k2) == key_value(pre, k2));
                    assert(key_contains(pre, k2));
                }
            }
        }
        i += 1;
    }
    proof {
        assert forall|k: Seq<char>|
            #[trigger] key_contains(out@, k) == key_contains(src@, k) by {
            if key_contains(src@, k) {
                let t = crate::maps::key_index(src@, k);
                assert(0 <= t < n && src@[t].0 == k);
            }
            if exists|t: int| 0 <= t < n && src@[t].0 == k {
                assert(key_contains(src@, k));
            }
        }
        assert forall|k: Seq<char>| #[trigger] key_contains(src@, k) implies lower_bound_of(
            key_value(src@, k),
            key_value(out@, k),
        ) by {
            assert(key_contains(out@, k));
        }
    }
    Ok(out)
}

impl ApplicationConfig {
    /// Convert a package `elm.json` into an application `elm.json` by
    /// pinning every dependency at the lower bound of its declared range:
    /// this generates the test configuration for a package project.
    pub fn try_from_package(package: &PackageConfig) -> (r: Result<ApplicationConfig, String>)
        requires
            package.wf(),
        ensures
            r is Ok,
            r matches Ok(app) ==> app.type_@ == "application"@ && app.elm_version@ == "0.19.1"@
                && app.source_directories@.len() == 1 && app.source_directories@[0]@ == "src"@,
            r matches Ok(app) ==> app.wf() && app.test_dependencies.indirect@.len() == 0
                && app.dependencies.indirect@.len() == 0 && (forall|k: Seq<char>|
                #[trigger] key_contains(app.dependencies.direct@, k) == key_contains(
                    package.dependencies@,
                    k,
                )) && (forall|k: Seq<char>|
                #[trigger] key_contains(package.dependencies@, k) ==> lower_bound_of(
                    key_value(package.dependencies@, k),
                    key_value(app.dependencies.direct@, k),
                )) && (forall|k: Seq<char>|
                #[trigger] key_contains(app.test_dependencies.direct@, k) == key_contains(
                    package.test_dependencies@,
                    k,
                )) && (forall|k: Seq<char>|
                #[trigger] key_contains(package.test_dependencies@, k) ==> lower_bound_of(
                    key_value(package.test_dependencies@, k),
                    key_value(app.test_dependencies.direct@, k),
                )),
    {
        let direct = match exact_map(&package.dependencies) {
            Ok(m) => m,
            Err(e) => {
                return Err(e);
            },
        };
        let direct_test = match exact_map(&package.test_dependencies) {
            Ok(m) => m,
            Err(e) => {
                return Err(e);
            },
        };
        let mut source_directories: Vec<String> = Vec::new();
        source_directories.push(String::from_str("src"));
        Ok(
            ApplicationConfig {
                type_: String::from_str("application"),
                source_directories,
                elm_version: String::from_str("0.19.1"),
                dependencies: Dependencies { direct, indirect: StringMap::new() },
                test_dependencies: Dependencies { direct: direct_test, indirect: StringMap::new() },
            },
        )
    }
}

} // verus!
