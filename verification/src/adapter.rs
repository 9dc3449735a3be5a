//! The project adapter: answers provider queries about the synthetic root
//! package (one fixed version, the supplied direct dependencies) without
//! touching the wrapped registry, and forwards all other queries to it.

use vstd::prelude::*;
use crate::maps::{DepMap, key_contains, key_value, lemma_key_at};
use crate::pkg::{Pkg, PkgKey};
use crate::provider::{DepView, RegView, Registry, RelView, lemma_sorted_unique};
use crate::version::Version;

verus! {

/// The packages visible through the adapter: the root plus the registry's.
pub open spec fn a_contains(reg: RegView, rootk: PkgKey, k: PkgKey) -> bool {
    k == rootk || key_contains(reg, k)
}

/// The releases visible through the adapter for package `k`: the root has
/// exactly its fixed version with the supplied dependencies; anything else
/// comes from the registry.
pub open spec fn a_rels(
    reg: RegView,
    rootk: PkgKey,
    rootv: Version,
    rd: DepView,
    k: PkgKey,
) -> Seq<RelView> {
    if k == rootk {
        seq![(rootv, Some(rd))]
    } else {
        key_value(reg, k)
    }
}

/// How a metadata lookup can fail: the package is entirely unknown, the
/// exact version is unknown, or the version is listed but its dependency
/// metadata has not been retrieved.
#[derive(Debug, Clone, PartialEq, Eq)]
pub enum DepsError {
    UnknownPackage,
    UnknownVersion,
    MetadataUnavailable,
}

/// Find the release with exactly version `v` in a release list.
fn find_release(releases: &Vec<crate::provider::Release>, v: &Version) -> (r: Option<usize>)
    ensures
        match r {
            Some(j) => j < releases@.len() && releases@[j as int]@.0 == *v,
            None => !key_contains(releases@.map_values(|x: crate::provider::Release| x@), *v),
        },
{
    let n = releases.len();
    let mut j: usize = 0;
    while j < n
        invariant
            n == releases.len(),
            0 <= j <= n,
            forall|t: int| 0 <= t < j ==> (#[trigger] releases@[t])@.0 != *v,
        decreases n - j,
    {
        if releases[j].version.eq_version(v) {
            return Some(j);
        }
        j += 1;
    }
    proof {
        let rels = releases@.map_values(|x: crate::provider::Release| x@);
        if key_contains(rels, *v) {
            let t = crate::maps::key_index(rels, *v);
            assert(rels[t] == releases@[t]@);
            assert(false);
        }
    }
    None
}

/// Retrieve the dependency map declared by `p` at version `v`, as seen
/// through the adapter.
pub fn adapter_deps<'a>(
    reg: &'a Registry,
    root: &Pkg,
    root_version: Version,
    root_deps: &'a DepMap,
    p: &Pkg,
    v: &Version,
) -> (r: Result<&'a DepMap, DepsError>)
    requires
        reg.wf(),
        root_deps.wf(),
    ensures
        ({
            let rels = a_rels(reg@, root@, root_version, root_deps@, p@);
            match r {
                Ok(d) => a_contains(reg@, root@, p@) && key_contains(rels, *v) && key_value(
                    rels,
                    *v,
                ) == Some(d@) && d.wf(),
                Err(DepsError::UnknownPackage) => !a_contains(reg@, root@, p@),
                Err(DepsError::UnknownVersion) => a_contains(reg@, root@, p@) && !key_contains(
                    rels,
                    *v,
                ),
                Err(DepsError::MetadataUnavailable) => a_contains(reg@, root@, p@)
                    && key_contains(rels, *v) && key_value(rels, *v) is None,
            }
        }),
{
    let ghost rels = a_rels(reg@, root@, root_version, root_deps@, p@);
    if p.eq_pkg(root) {
        proof {
            assert(rels == seq![(root_version, Some(root_deps@))]);
        }
        if v.eq_version(&root_version) {
            proof {
                assert(rels[0] == (root_version, Some(root_deps@)));
                assert(crate::maps::unique_keys(rels));
                lemma_key_at(rels, 0);
            }
            Ok(root_deps)
        } else {
            proof {
                if key_contains(rels, *v) {
                    let t = crate::maps::key_index(rels, *v);
                    assert(rels[t].0 == *v);
                    assert(false);
                }
            }
            Err(DepsError::UnknownVersion)
        }
    } else {
        match reg.index_of(p) {
            None => Err(DepsError::UnknownPackage),
            Some(i) => {
                proof {
                    lemma_key_at(reg@, i as int);
                    assert(rels == reg@[i as int].1);
                }
                let entry = reg.entry_at(i);
                proof {
                    assert(entry@.1 == rels);
                    lemma_sorted_unique(rels);
                }
                match find_release(&entry.releases, v) {
                    None => Err(DepsError::UnknownVersion),
                    Some(j) => {
                        proof {
                            assert(entry.releases@[j as int]@ == rels[j as int]);
                            lemma_key_at(rels, j as int);
                        }
                        match &entry.releases[j].deps {
                            Some(d) => {
                                proof {
                                    assert(key_value(rels, *v) == Some(d@));
                                    assert(crate::provider::rels_wf(rels));
                                    assert(crate::provider::dep_view_wf(d@));
                                }
                                Ok(d)
                            },
                            None => Err(DepsError::MetadataUnavailable),
                        }
                    },
                }
            },
        }
    }
}

/// The versions visible through the adapter for package `k`: the root's
/// single fixed version, or the registry's listing.
pub open spec fn a_versions(reg: RegView, rootk: PkgKey, rootv: Version, k: PkgKey) -> Seq<
    Version,
> {
    if k == rootk {
        seq![rootv]
    } else {
        key_value(reg, k).map_values(|r: RelView| r.0)
    }
}

/// The candidate versions of `p` allowed by `rng`, as seen through the
/// adapter; `None` exactly when the package is entirely unknown. The list
/// holds exactly the listed versions inside `rng`, strictly ascending.
pub fn adapter_candidates(
    reg: &Registry,
    root: &Pkg,
    root_version: Version,
    p: &Pkg,
    rng: &crate::range::Range,
) -> (r: Option<Vec<Version>>)
    requires
        reg.wf(),
        rng.wf(),
        root_version.patch < u64::MAX,
    ensures
        r is Some == a_contains(reg@, root@, p@),
        r matches Some(c) ==> forall|t: int|
            0 <= t < c@.len() ==> (#[trigger] c@[t]).patch < u64::MAX,
        r matches Some(c) ==> (forall|a: int, b: int|
            0 <= a < b < c@.len() ==> (#[trigger] c@[a]).spec_lt(#[trigger] c@[b])) && (forall|
            v: Version,
        |
            #[trigger] c@.contains(v) == (a_versions(reg@, root@, root_version, p@).contains(v)
                && rng.sem(v))),
{
    let ghost avail = a_versions(reg@, root@, root_version, p@);
    if p.eq_pkg(root) {
        let mut out: Vec<Version> = Vec::new();
        if rng.contains(&root_version) {
            out.push(root_version);
        }
        proof {
            assert(avail =~= seq![root_version]);
            assert(avail.contains(root_version)) by {
                assert(avail[0] == root_version);
            }
            assert forall|v: Version|
                #[trigger] out@.contains(v) == (avail.contains(v) && rng.sem(v)) by {
                if out@.contains(v) {
                    let t = choose|t: int| 0 <= t < out@.len() && out@[t] == v;
                    assert(v == root_version);
                }
                if avail.contains(v) {
                    let t = choose|t: int| 0 <= t < avail.len() && avail[t] == v;
                    assert(v == root_version);
                    if rng.sem(v) {
                        assert(out@[0] == v);
                    }
                }
            }
        }
        Some(out)
    } else {
        match reg.index_of(p) {
            None => None,
            Some(i) => {
                proof {
                    lemma_key_at(reg@, i as int);
                }
                let entry = reg.entry_at(i);
                let ghost rels = entry@.1;
                proof {
                    assert(crate::provider::rels_wf(rels));
                    assert(avail =~= rels.map_values(|r: RelView| r.0));
                }
                let n = entry.releases.len();
                let mut out: Vec<Version> = Vec::new();
                let mut j: usize = 0;
                while j < n
                    invariant
                        n == entry.releases.len(),
                        n == rels.len(),
                        0 <= j <= n,
                        rng.wf(),
                        rels == entry@.1,
                        crate::provider::rels_wf(rels),
                        forall|t: int|
                            0 <= t < out@.len() ==> (#[trigger] out@[t]).patch < u64::MAX,
                        forall|a: int, b: int|
                            0 <= a < b < out@.len() ==> (#[trigger] out@[a]).spec_lt(
                                #[trigger] out@[b],
                            ),
                        forall|v: Version|
                            #[trigger] out@.contains(v) == (exists|t: int|
                                0 <= t < j && (#[trigger] rels[t]).0 == v && rng.sem(v)),
                    decreases n - j,
                {
                    let v = entry.releases[j].version;
                    proof {
                        assert(rels[j as int] == entry.releases@[j as int]@);
                        assert(rels[j as int].0.patch < u64::MAX);
                    }
                    let ghost pre = out@;
                    if rng.contains(&v) {
                        out.push(v);
                    }
                    proof {
                        if rng.sem(v) {
                            // the pushed version is above everything before it
                            assert forall|a: int, b: int|
                                0 <= a < b < out@.len() implies (#[trigger] out@[a]).spec_lt(
                                #[trigger] out@[b],
                            ) by {
                                if b == out@.len() - 1 {
                                    assert(out@[a] == pre[a]);
                                    assert(pre.contains(pre[a]));
                                    let t = choose|t: int|
                                        0 <= t < j && (#[trigger] rels[t]).0 == pre[a] && rng.sem(
                                            pre[a],
                                        );
                                    assert(rels[t].0.spec_lt(rels[j as int].0));
                                } else {
                                    assert(out@[a] == pre[a] && out@[b] == pre[b]);
                                }
                            }
                        }
                        assert forall|w: Version|
                            #[trigger] out@.contains(w) == (exists|t: int|
                                0 <= t < j + 1 && (#[trigger] rels[t]).0 == w && rng.sem(w)) by {
                            if out@.contains(w) {
                                let x = choose|x: int| 0 <= x < out@.len() && out@[x] == w;
                                if x < pre.len() {
                                    assert(pre.contains(w));
                                    let t = choose|t: int|
                                        0 <= t < j && (#[trigger] rels[t]).0 == w && rng.sem(w);
                                    assert(0 <= t < j + 1 && rels[t].0 == w && rng.sem(w));
                                } else {
                                    assert(w == v);
                                    assert(rels[j as int].0 == w && rng.sem(w));
                                }
                            }
                            if exists|t: int|
                                0 <= t < j + 1 && (#[trigger] rels[t]).0 == w && rng.sem(w) {
                                let t = choose|t: int|
                                    0 <= t < j + 1 && (#[trigger] rels[t]).0 == w && rng.sem(w);
                                if t < j {
                                    assert(pre.contains(w));
                                    let x = choose|x: int| 0 <= x < pre.len() && pre[x] == w;
                                    assert(out@[x] == w);
                                    assert(out@.contains(w));
                                } else {
                                    assert(w == v && rng.sem(v));
                                    assert(out@[out@.len() - 1] == w);
                                    assert(out@.contains(w));
                                }
                            }
                        }
                    }
                    j += 1;
                }
                proof {
                    assert forall|v: Version|
                        #[trigger] out@.contains(v) == (avail.contains(v) && rng.sem(v)) by {
                        if out@.contains(v) {
                            let t = choose|t: int|
                                0 <= t < n && (#[trigger] rels[t]).0 == v && rng.sem(v);
                            assert(avail[t] == v);
                            assert(avail.contains(v));
                        }
                        if avail.contains(v) && rng.sem(v) {
                            let t = choose|t: int| 0 <= t < avail.len() && avail[t] == v;
                            assert(rels[t].0 == v);
                        }
                    }
                }
                Some(out)
            },
        }
    }
}

} // verus!
