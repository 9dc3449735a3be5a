//! The in-memory package registry: the explicit cache value that feeds the
//! resolver with package metadata.
//!
//! A registry maps packages to their released versions; a release either
//! carries its dependency map or records that the metadata has not been
//! retrieved yet (the online provider fills entries lazily, so resolution
//! can suspend on a missing entry, have the caller fetch it, and resume).
//! The project adapter injects the synthetic root package as one more
//! registry entry, so the resolver treats the project uniformly.

use vstd::prelude::*;
use crate::maps::{DepMap, key_contains, key_index, key_value, lemma_key_at, unique_keys};
use crate::pkg::{Pkg, PkgKey};
use crate::range::Interval;
use crate::version::Version;

verus! {

/// The spec view of a dependency map.
pub type DepView = Seq<(PkgKey, Seq<Interval>)>;

/// The spec view of a release: a version, and its dependency map when the
/// metadata has been retrieved.
pub type RelView = (Version, Option<DepView>);

/// The spec view of a registry.
pub type RegView = Seq<(PkgKey, Seq<RelView>)>;

/// One released version of a package. `deps == None` means the version is
/// known to exist but its dependency metadata has not been retrieved yet.
#[derive(Debug)]
pub struct Release {
    pub version: Version,
    pub deps: Option<DepMap>,
}

impl View for Release {
    type V = RelView;

    open spec fn view(&self) -> RelView {
        (
            self.version,
            match self.deps {
                Some(d) => Some(d@),
                None => None,
            },
        )
    }
}

/// All releases of one package, sorted by ascending version.
#[derive(Debug)]
pub struct PackageEntry {
    pub pkg: Pkg,
    pub releases: Vec<Release>,
}

impl View for PackageEntry {
    type V = (PkgKey, Seq<RelView>);

    open spec fn view(&self) -> (PkgKey, Seq<RelView>) {
        (self.pkg@, self.releases@.map_values(|r: Release| r@))
    }
}

/// Versions in a release list are strictly ascending (so also unique).
pub open spec fn rel_sorted(rels: Seq<RelView>) -> bool {
    forall|i: int, j: int|
        0 <= i < j < rels.len() ==> (#[trigger] rels[i]).0.spec_lt((#[trigger] rels[j]).0)
}

/// A dependency-map view is well formed: unique keys, canonical ranges.
pub open spec fn dep_view_wf(d: DepView) -> bool {
    &&& unique_keys(d)
    &&& forall|i: int| 0 <= i < d.len() ==> crate::range::wf_seq((#[trigger] d[i]).1)
}

/// A release list is well formed. Versions keep room for a successor in
/// the patch component, so a singleton range around any of them exists.
pub open spec fn rels_wf(rels: Seq<RelView>) -> bool {
    &&& rel_sorted(rels)
    &&& forall|i: int|
        0 <= i < rels.len() ==> ((#[trigger] rels[i]).1 matches Some(d) ==> dep_view_wf(d))
    &&& forall|i: int| 0 <= i < rels.len() ==> (#[trigger] rels[i]).0.patch < u64::MAX
}

/// An in-memory registry of package metadata: the provider's cache value.
#[derive(Debug)]
pub struct Registry {
    pub entries: Vec<PackageEntry>,
}

impl View for Registry {
    type V = RegView;

    open spec fn view(&self) -> RegView {
        self.entries@.map_values(|e: PackageEntry| e@)
    }
}

/// Strictly ascending versions are unique keys.
pub proof fn lemma_sorted_unique(rels: Seq<RelView>)
    requires
        rel_sorted(rels),
    ensures
        unique_keys(rels),
{
    assert forall|i: int, j: int| 0 <= i < j < rels.len() implies (#[trigger] rels[i]).0 != (
    #[trigger] rels[j]).0 by {
        assert(rels[i].0.spec_lt(rels[j].0));
    }
}

impl Registry {
    pub open spec fn wf(self) -> bool {
        &&& unique_keys(self@)
        &&& forall|i: int| 0 <= i < self@.len() ==> rels_wf((#[trigger] self@[i]).1)
    }

    pub fn new() -> (r: Registry)
        ensures
            r.wf(),
            r@.len() == 0,
    {
        Registry { entries: Vec::new() }
    }

    pub fn len(&self) -> (r: usize)
        ensures
            r == self@.len(),
    {
        self.entries.len()
    }

    pub fn index_of(&self, k: &Pkg) -> (r: Option<usize>)
        ensures
            match r {
                Some(i) => i < self@.len() && self@[i as int].0 == k@ && key_contains(self@, k@),
                None => !key_contains(self@, k@),
            },
    {
        let n = self.entries.len();
        let mut i: usize = 0;
        while i < n
            invariant
                n == self.entries.len(),
                n == self@.len(),
                0 <= i <= n,
                forall|t: int| 0 <= t < i ==> (#[trigger] self@[t]).0 != k@,
            decreases n - i,
        {
            if self.entries[i].pkg.eq_pkg(k) {
                assert(self@[i as int].0 == k@);
                return Some(i);
            }
            i += 1;
        }
        None
    }

    pub fn contains_pkg(&self, k: &Pkg) -> (r: bool)
        ensures
            r == key_contains(self@, k@),
    {
        self.index_of(k).is_some()
    }

    pub fn entry_at(&self, i: usize) -> (r: &PackageEntry)
        requires
            i < self@.len(),
        ensures
            r@ == self@[i as int],
    {
        &self.entries[i]
    }

    /// Record that `version` of `pkg` exists, with its dependency map if
    /// retrieved. Replaces any previous record for that exact version and
    /// keeps the registry well formed; other packages and versions are
    /// untouched.
    pub fn add_release(&mut self, pkg: &Pkg, version: Version, deps: Option<DepMap>)
        requires
            old(self).wf(),
            version.patch < u64::MAX,
            deps matches Some(d) ==> d.wf(),
        ensures
            final(self).wf(),
            key_contains(final(self)@, pkg@),
            key_contains(key_value(final(self)@, pkg@), version),
            key_value(key_value(final(self)@, pkg@), version) == (match deps {
                Some(d) => Some(d@),
                None => None::<DepView>,
            }),
            forall|k2: PkgKey|
                k2 != pkg@ ==> #[trigger] key_contains(final(self)@, k2) == key_contains(
                    old(self)@,
                    k2,
                ),
            forall|k2: PkgKey|
                k2 != pkg@ && key_contains(old(self)@, k2) ==> #[trigger] key_value(
                    final(self)@,
                    k2,
                ) == key_value(old(self)@, k2),
            key_contains(old(self)@, pkg@) ==> forall|v2: Version|
                v2 != version ==> #[trigger] key_contains(key_value(final(self)@, pkg@), v2)
                    == key_contains(key_value(old(self)@, pkg@), v2),
            key_contains(old(self)@, pkg@) ==> forall|v2: Version|
                v2 != version && key_contains(key_value(old(self)@, pkg@), v2)
                    ==> #[trigger] key_value(key_value(final(self)@, pkg@), v2) == key_value(
                    key_value(old(self)@, pkg@),
                    v2,
                ),
            !key_contains(old(self)@, pkg@) ==> forall|v2: Version|
                v2 != version ==> !(#[trigger] key_contains(
                    key_value(final(self)@, pkg@),
                    v2,
                )),
    {
        let ghost pre = self@;
        let rel = Release { version, deps };
        let ghost rv = rel@;
        match self.index_of(pkg) {
            None => {
                let mut releases: Vec<Release> = Vec::new();
                releases.push(rel);
                let entry = PackageEntry { pkg: pkg.duplicate(), releases };
                let ghost ev = entry@;
                self.entries.push(entry);
                proof {
                    assert(self@ =~= pre.push(ev));
                    crate::maps::lemma_insert_push(pre, self@, pkg@, ev.1);
                    assert(ev.1 =~= seq![rv]);
                    assert(rels_wf(ev.1));
                    lemma_sorted_unique(ev.1);
                    lemma_key_at(ev.1, 0);
                    assert forall|i: int| 0 <= i < self@.len() implies rels_wf(
                        (#[trigger] self@[i]).1,
                    ) by {
                        if i < pre.len() {
                            assert(self@[i] == pre[i]);
                        }
                    }
                    assert forall|v2: Version| v2 != version implies !(#[trigger] key_contains(
                        key_value(self@, pkg@),
                        v2,
                    )) by {
                        assert(key_value(self@, pkg@) == ev.1);
                    }
                }
            },
            Some(i) => {
                let ghost old_rels = pre[i as int].1;
                let mut entry = self.entries.remove(i);
                let ghost mid = self@;
                let pos = Self::release_position(&entry.releases, &version);
                let replace = pos < entry.releases.len() && entry.releases[pos].version.eq_version(
                    &version,
                );
                let ghost pre_rels = entry.releases@.map_values(|r: Release| r@);
                proof {
                    lemma_key_at(pre, i as int);
                    assert(pre_rels == old_rels);
                    lemma_sorted_unique(pre_rels);
                }
                if replace {
                    entry.releases.set(pos, rel);
                    proof {
                        let post_rels = entry.releases@.map_values(|r: Release| r@);
                        assert(post_rels =~= pre_rels.update(pos as int, rv));
                        crate::maps::lemma_insert_update(
                            pre_rels,
                            post_rels,
                            pos as int,
                            version,
                            rv.1,
                        );
                        assert forall|t: int| 0 <= t < post_rels.len() implies (
                        #[trigger] post_rels[t]).1 matches Some(d) ==> dep_view_wf(d) by {
                            if t != pos {
                                assert(post_rels[t] == pre_rels[t]);
                            }
                        }
                        assert forall|a: int, b: int| 0 <= a < b < post_rels.len() implies (
                        #[trigger] post_rels[a]).0.spec_lt((#[trigger] post_rels[b]).0) by {
                            assert(pre_rels[a].0.spec_lt(pre_rels[b].0));
                            if a != pos {
                                assert(post_rels[a] == pre_rels[a]);
                            }
                            if b != pos {
                                assert(post_rels[b] == pre_rels[b]);
                            }
                        }
                        assert(rels_wf(post_rels));
                    }
                } else {
                    proof {
                        assert forall|t: int| pos as int <= t < pre_rels.len() implies rv.0.spec_lt(
                            (#[trigger] pre_rels[t]).0,
                        ) by {
                            if t > pos as int {
                                assert(pre_rels[pos as int].0.spec_lt(pre_rels[t].0));
                            }
                        }
                    }
                    entry.releases.insert(pos, rel);
                    proof {
                        let post_rels = entry.releases@.map_values(|r: Release| r@);
                        assert(post_rels =~= pre_rels.insert(pos as int, rv));
                        lemma_rels_insert(pre_rels, post_rels, pos as int, rv);
                    }
                }
                let ghost new_rels = entry.releases@.map_values(|r: Release| r@);
                self.entries.push(entry);
                proof {
                    assert(self@ =~= mid.push((pre[i as int].0, new_rels)));
                    assert(mid == pre.remove(i as int));
                    crate::maps::lemma_remove_key(pre, mid, i as int, pkg@);
                    crate::maps::lemma_insert_push(mid, self@, pkg@, new_rels);
                    lemma_sorted_unique(old_rels);
                    assert forall|t: int| 0 <= t < self@.len() implies rels_wf(
                        (#[trigger] self@[t]).1,
                    ) by {
                        if t < self@.len() - 1 {
                            let t2 = if t < i as int {
                                t
                            } else {
                                t + 1
                            };
                            assert(self@[t] == pre[t2]);
                        } else {
                            assert(self@[t].1 == new_rels);
                        }
                    }
                }
            },
        }
    }

    /// The index of the first release whose version is at or above `v`.
    fn release_position(releases: &Vec<Release>, v: &Version) -> (r: usize)
        requires
            rel_sorted(releases@.map_values(|r: Release| r@)),
        ensures
            r <= releases@.len(),
            forall|t: int| 0 <= t < r ==> (#[trigger] releases@[t])@.0.spec_lt(*v),
            forall|t: int| r <= t < releases@.len() ==> v.spec_le((#[trigger] releases@[t])@.0),
    {
        let n = releases.len();
        let mut i: usize = 0;
        while i < n
            invariant
                n == releases.len(),
                0 <= i <= n,
                forall|t: int| 0 <= t < i ==> (#[trigger] releases@[t])@.0.spec_lt(*v),
                rel_sorted(releases@.map_values(|r: Release| r@)),
            decreases n - i,
        {
            if !releases[i].version.lt(v) {
                proof {
                    let rels = releases@.map_values(|x: Release| x@);
                    assert forall|t: int| i <= t < releases@.len() implies v.spec_le(
                        (#[trigger] releases@[t])@.0,
                    ) by {
                        if (i as int) < t {
                            assert(rels[i as int].0.spec_lt(rels[t].0));
                            assert(rels[t] == releases@[t]@);
                        }
                    }
                }
                return i;
            }
            i += 1;
        }
        n
    }
}

/// Inserting a fresh version at its sorted position keeps the release list
/// well formed and other versions intact.
proof fn lemma_rels_insert(pre: Seq<RelView>, post: Seq<RelView>, p: int, rv: RelView)
    requires
        rels_wf(pre),
        rv.1 matches Some(d) ==> dep_view_wf(d),
        rv.0.patch < u64::MAX,
        0 <= p <= pre.len(),
        forall|t: int| 0 <= t < p ==> (#[trigger] pre[t]).0.spec_lt(rv.0),
        forall|t: int| p <= t < pre.len() ==> rv.0.spec_lt((#[trigger] pre[t]).0),
        post == pre.insert(p, rv),
    ensures
        rels_wf(post),
        key_contains(post, rv.0),
        key_value(post, rv.0) == rv.1,
        forall|v2: Version|
            v2 != rv.0 ==> #[trigger] key_contains(post, v2) == key_contains(pre, v2),
        forall|v2: Version|
            v2 != rv.0 && key_contains(pre, v2) ==> #[trigger] key_value(post, v2) == key_value(
                pre,
                v2,
            ),
{
    assert forall|a: int, b: int| 0 <= a < b < post.len() implies (#[trigger] post[a]).0.spec_lt(
        (#[trigger] post[b]).0,
    ) by {
        let a2 = if a < p {
            a
        } else {
            a - 1
        };
        let b2 = if b < p {
            b
        } else {
            b - 1
        };
        if a != p {
            assert(post[a] == pre[a2]);
        }
        if b != p {
            assert(post[b] == pre[b2]);
        }
    }
    assert forall|t: int| 0 <= t < post.len() implies ((#[trigger] post[t]).1 matches Some(d)
        ==> dep_view_wf(d)) by {
        if t != p {
            let t2 = if t < p {
                t
            } else {
                t - 1
            };
            assert(post[t] == pre[t2]);
        }
    }
    assert forall|t: int| 0 <= t < post.len() implies (#[trigger] post[t]).0.patch < u64::MAX by {
        if t != p {
            let t2 = if t < p {
                t
            } else {
                t - 1
            };
            assert(post[t] == pre[t2]);
        }
    }
    lemma_sorted_unique(post);
    assert(post[p] == rv);
    lemma_key_at(post, p);
    lemma_sorted_unique(pre);
    assert forall|v2: Version| v2 != rv.0 implies #[trigger] key_contains(post, v2)
        == key_contains(pre, v2) by {
        if key_contains(pre, v2) {
            let j = key_index(pre, v2);
            let j2 = if j < p {
                j
            } else {
                j + 1
            };
            assert(post[j2] == pre[j]);
            assert(key_contains(post, v2));
        }
        if key_contains(post, v2) {
            let j = key_index(post, v2);
            assert(post[j].0 == v2);
            assert(j != p);
            let j2 = if j < p {
                j
            } else {
                j - 1
            };
            assert(pre[j2] == post[j]);
            assert(key_contains(pre, v2));
        }
    }
    assert forall|v2: Version| v2 != rv.0 && key_contains(pre, v2) implies #[trigger] key_value(
        post,
        v2,
    ) == key_value(pre, v2) by {
        let j = key_index(pre, v2);
        assert(pre[j].0 == v2);
        lemma_key_at(pre, j);
        let j2 = if j < p {
            j
        } else {
            j + 1
        };
        assert(post[j2] == pre[j]);
        lemma_key_at(post, j2);
    }
}

} // verus!
