//! Dependency maps and version maps: association vectors keyed by package
//! identity, with unique keys.

use vstd::prelude::*;
use crate::pkg::{Pkg, PkgKey};
use crate::range::{Interval, Range, wf_seq};
use crate::version::Version;

verus! {

/// `s` holds an entry whose key is `k`.
pub open spec fn key_contains<K, T>(s: Seq<(K, T)>, k: K) -> bool {
    exists|i: int| 0 <= i < s.len() && (#[trigger] s[i]).0 == k
}

/// The index of the entry whose key is `k`.
pub open spec fn key_index<K, T>(s: Seq<(K, T)>, k: K) -> int {
    choose|i: int| 0 <= i < s.len() && (#[trigger] s[i]).0 == k
}

/// The value stored under `k`.
pub open spec fn key_value<K, T>(s: Seq<(K, T)>, k: K) -> T {
    s[key_index(s, k)].1
}

/// No two entries share a key.
pub open spec fn unique_keys<K, T>(s: Seq<(K, T)>) -> bool {
    forall|i: int, j: int| 0 <= i < j < s.len() ==> (#[trigger] s[i]).0 != (#[trigger] s[j]).0
}

/// With unique keys, an entry at index `i` is the entry its key selects.
pub proof fn lemma_key_at<K, T>(s: Seq<(K, T)>, i: int)
    requires
        unique_keys(s),
        0 <= i < s.len(),
    ensures
        key_contains(s, s[i].0),
        key_index(s, s[i].0) == i,
        key_value(s, s[i].0) == s[i].1,
{
    assert(key_contains(s, s[i].0));
    let j = key_index(s, s[i].0);
    if j != i {
        if j < i {
            assert(s[j].0 != s[i].0);
        } else {
            assert(s[i].0 != s[j].0);
        }
        assert(false);
    }
}

/// A mapping from package identifier to version range (keys unique).
#[derive(Debug, Clone, PartialEq, Eq)]
pub struct DepMap {
    pub entries: Vec<(Pkg, Range)>,
}

impl View for DepMap {
    type V = Seq<(PkgKey, Seq<Interval>)>;

    open spec fn view(&self) -> Seq<(PkgKey, Seq<Interval>)> {
        self.entries@.map_values(|e: (Pkg, Range)| (e.0@, e.1@))
    }
}

impl DepMap {
    pub open spec fn wf(self) -> bool {
        &&& unique_keys(self@)
        &&& forall|i: int| 0 <= i < self@.len() ==> wf_seq((#[trigger] self@[i]).1)
    }

    pub fn new() -> (r: DepMap)
        ensures
            r.wf(),
            r@.len() == 0,
    {
        DepMap { entries: Vec::new() }
    }

    pub fn len(&self) -> (r: usize)
        ensures
            r == self@.len(),
    {
        self.entries.len()
    }

    pub fn key_at(&self, i: usize) -> (r: &Pkg)
        requires
            i < self@.len(),
        ensures
            r@ == self@[i as int].0,
    {
        &self.entries[i].0
    }

    pub fn range_at(&self, i: usize) -> (r: &Range)
        requires
            i < self@.len(),
        ensures
            r@ == self@[i as int].1,
    {
        &self.entries[i].1
    }

    pub fn index_of(&self, k: &Pkg) -> (r: Option<usize>)
        ensures
            match r {
                Some(i) => i < self@.len() && self@[i as int].0 == k@ && key_contains(self@, k@),
                None => !key_contains(self@, k@),
            },
    {
        let n = self.entries.len();
        let mut i: usize = 0;
        while i < n
            invariant
                n == self.entries.len(),
                n == self@.len(),
                0 <= i <= n,
                forall|t: int| 0 <= t < i ==> (#[trigger] self@[t]).0 != k@,
            decreases n - i,
        {
            if self.entries[i].0.eq_pkg(k) {
                assert(self@[i as int].0 == k@);
                return Some(i);
            }
            i += 1;
        }
        None
    }

    pub fn contains_key(&self, k: &Pkg) -> (r: bool)
        ensures
            r == key_contains(self@, k@),
    {
        self.index_of(k).is_some()
    }

    /// Look up the range constraint recorded for `k`.
    pub fn get(&self, k: &Pkg) -> (r: Option<&Range>)
        requires
            self.wf(),
        ensures
            match r {
                Some(rg) => key_contains(self@, k@) && rg@ == key_value(self@, k@) && rg.wf(),
                None => !key_contains(self@, k@),
            },
    {
        match self.index_of(k) {
            Some(i) => {
                proof {
                    lemma_key_at(self@, i as int);
                }
                Some(&self.entries[i].1)
            },
            None => None,
        }
    }

    /// Insert `val` under `k`, replacing any previous entry for `k`.
    pub fn insert(&mut self, k: Pkg, val: Range)
        requires
            old(self).wf(),
            val.wf(),
        ensures
            final(self).wf(),
            key_contains(final(self)@, k@),
            key_value(final(self)@, k@) == val@,
            final(self)@.len() <= old(self)@.len() + 1,
            forall|k2: PkgKey|
                k2 != k@ ==> #[trigger] key_contains(final(self)@, k2) == key_contains(
                    old(self)@,
                    k2,
                ),
            forall|k2: PkgKey|
                k2 != k@ && key_contains(old(self)@, k2) ==> #[trigger] key_value(
                    final(self)@,
                    k2,
                ) == key_value(old(self)@, k2),
    {
        let ghost pre = self@;
        match self.index_of(&k) {
            Some(i) => {
                let ghost kk = k@;
                let ghost vv = val@;
                self.entries.set(i, (k, val));
                proof {
                    assert(self@ =~= pre.update(i as int, (kk, vv)));
                    lemma_insert_update(pre, self@, i as int, kk, vv);
                }
            },
            None => {
                let ghost kk = k@;
                let ghost vv = val@;
                self.entries.push((k, val));
                proof {
                    assert(self@ =~= pre.push((kk, vv)));
                    lemma_insert_push(pre, self@, kk, vv);
                    assert forall|t: int| 0 <= t < self@.len() implies wf_seq(
                        (#[trigger] self@[t]).1,
                    ) by {
                        if t < pre.len() {
                            assert(self@[t] == pre[t]);
                        }
                    }
                }
            },
        }
    }

    /// A copy with the same contents.
    pub fn duplicate(&self) -> (r: DepMap)
        ensures
            r@ == self@,
    {
        let n = self.entries.len();
        let mut entries: Vec<(Pkg, Range)> = Vec::new();
        let mut i: usize = 0;
        while i < n
            invariant
                n == self.entries.len(),
                0 <= i <= n,
                entries@.len() == i,
                forall|t: int|
                    0 <= t < i ==> (#[trigger] entries@[t]).0@ == self@[t].0 && entries@[t].1@
                        == self@[t].1,
            decreases n - i,
        {
            let p = self.entries[i].0.duplicate();
            let rg = self.entries[i].1.duplicate();
            entries.push((p, rg));
            i += 1;
        }
        let r = DepMap { entries };
        proof {
            assert(r@ =~= self@);
        }
        r
    }
}

/// A mapping from package identifier to exact version (keys unique).
#[derive(Debug, Clone, PartialEq, Eq)]
pub struct VersionMap {
    pub entries: Vec<(Pkg, Version)>,
}

impl View for VersionMap {
    type V = Seq<(PkgKey, Version)>;

    open spec fn view(&self) -> Seq<(PkgKey, Version)> {
        self.entries@.map_values(|e: (Pkg, Version)| (e.0@, e.1))
    }
}

impl VersionMap {
    pub open spec fn wf(self) -> bool {
        unique_keys(self@)
    }

    pub fn new() -> (r: VersionMap)
        ensures
            r.wf(),
            r@.len() == 0,
    {
        VersionMap { entries: Vec::new() }
    }

    pub fn len(&self) -> (r: usize)
        ensures
            r == self@.len(),
    {
        self.entries.len()
    }

    pub fn key_at(&self, i: usize) -> (r: &Pkg)
        requires
            i < self@.len(),
        ensures
            r@ == self@[i as int].0,
    {
        &self.entries[i].0
    }

    pub fn version_at(&self, i: usize) -> (r: Version)
        requires
            i < self@.len(),
        ensures
            r == self@[i as int].1,
    {
        self.entries[i].1
    }

    pub fn index_of(&self, k: &Pkg) -> (r: Option<usize>)
        ensures
            match r {
                Some(i) => i < self@.len() && self@[i as int].0 == k@ && key_contains(self@, k@),
                None => !key_contains(self@, k@),
            },
    {
        let n = self.entries.len();
        let mut i: usize = 0;
        while i < n
            invariant
                n == self.entries.len(),
                n == self@.len(),
                0 <= i <= n,
                forall|t: int| 0 <= t < i ==> (#[trigger] self@[t]).0 != k@,
            decreases n - i,
        {
            if self.entries[i].0.eq_pkg(k) {
                assert(self@[i as int].0 == k@);
                return Some(i);
            }
            i += 1;
        }
        None
    }

    pub fn contains_key(&self, k: &Pkg) -> (r: bool)
        ensures
            r == key_contains(self@, k@),
    {
        self.index_of(k).is_some()
    }

    /// Look up the version recorded for `k`.
    pub fn get(&self, k: &Pkg) -> (r: Option<Version>)
        requires
            self.wf(),
        ensures
            match r {
                Some(v) => key_contains(self@, k@) && v == key_value(self@, k@),
                None => !key_contains(self@, k@),
            },
    {
        match self.index_of(k) {
            Some(i) => {
                proof {
                    lemma_key_at(self@, i as int);
                }
                Some(self.entries[i].1)
            },
            None => None,
        }
    }

    /// Insert `val` under `k`, replacing any previous entry for `k`.
    pub fn insert(&mut self, k: Pkg, val: Version)
        requires
            old(self).wf(),
        ensures
            final(self).wf(),
            key_contains(final(self)@, k@),
            key_value(final(self)@, k@) == val,
            final(self)@.len() <= old(self)@.len() + 1,
            forall|k2: PkgKey|
                k2 != k@ ==> #[trigger] key_contains(final(self)@, k2) == key_contains(
                    old(self)@,
                    k2,
                ),
            forall|k2: PkgKey|
                k2 != k@ && key_contains(old(self)@, k2) ==> #[trigger] key_value(
                    final(self)@,
                    k2,
                ) == key_value(old(self)@, k2),
    {
        let ghost pre = self@;
        let ghost kk = k@;
        match self.index_of(&k) {
            Some(i) => {
                self.entries.set(i, (k, val));
                proof {
                    assert(self@ =~= pre.update(i as int, (kk, val)));
                    lemma_insert_update(pre, self@, i as int, kk, val);
                }
            },
            None => {
                self.entries.push((k, val));
                proof {
                    assert(self@ =~= pre.push((kk, val)));
                    lemma_insert_push(pre, self@, kk, val);
                }
            },
        }
    }

    /// Remove the entry for `k`, if any.
    pub fn remove(&mut self, k: &Pkg)
        requires
            old(self).wf(),
        ensures
            final(self).wf(),
            !key_contains(final(self)@, k@),
            final(self)@.len() <= old(self)@.len(),
            forall|k2: PkgKey|
                k2 != k@ ==> #[trigger] key_contains(final(self)@, k2) == key_contains(
                    old(self)@,
                    k2,
                ),
            forall|k2: PkgKey|
                k2 != k@ && key_contains(old(self)@, k2) ==> #[trigger] key_value(
                    final(self)@,
                    k2,
                ) == key_value(old(self)@, k2),
    {
        let ghost pre = self@;
        let ghost kk = k@;
        match self.index_of(k) {
            Some(i) => {
                self.entries.remove(i);
                proof {
                    assert(self@ =~= pre.remove(i as int));
                    lemma_remove_key(pre, self@, i as int, kk);
                }
            },
            None => {},
        }
    }

}

/// Removing the entry at the index of key `kk` keeps all other keys intact.
pub proof fn lemma_remove_key<K, T>(pre: Seq<(K, T)>, post: Seq<(K, T)>, i: int, kk: K)
    requires
        unique_keys(pre),
        0 <= i < pre.len(),
        pre[i].0 == kk,
        post == pre.remove(i),
    ensures
        unique_keys(post),
        !key_contains(post, kk),
        forall|k2: K|
            k2 != kk ==> #[trigger] key_contains(post, k2) == key_contains(pre, k2),
        forall|k2: K|
            k2 != kk && key_contains(pre, k2) ==> #[trigger] key_value(post, k2) == key_value(
                pre,
                k2,
            ),
{
    assert forall|a: int, b: int| 0 <= a < b < post.len() implies (#[trigger] post[a]).0 != (
    #[trigger] post[b]).0 by {
        let a2 = if a < i {
            a
        } else {
            a + 1
        };
        let b2 = if b < i {
            b
        } else {
            b + 1
        };
        assert(post[a] == pre[a2]);
        assert(post[b] == pre[b2]);
        assert(pre[a2].0 != pre[b2].0);
    }
    if key_contains(post, kk) {
        let j = key_index(post, kk);
        let j2 = if j < i {
            j
        } else {
            j + 1
        };
        assert(post[j] == pre[j2]);
        assert(j2 != i);
        if j2 < i {
            assert(pre[j2].0 != pre[i].0);
        } else {
            assert(pre[i].0 != pre[j2].0);
        }
        assert(false);
    }
    assert forall|k2: K| k2 != kk implies #[trigger] key_contains(post, k2) == key_contains(
        pre,
        k2,
    ) by {
        if key_contains(pre, k2) {
            let j = key_index(pre, k2);
            assert(pre[j].0 == k2);
            assert(j != i);
            let j2 = if j < i {
                j
            } else {
                j - 1
            };
            assert(post[j2] == pre[j]);
            assert(key_contains(post, k2));
        }
        if key_contains(post, k2) {
            let j = key_index(post, k2);
            let j2 = if j < i {
                j
            } else {
                j + 1
            };
            assert(post[j] == pre[j2]);
            assert(key_contains(pre, k2));
        }
    }
    assert forall|k2: K| k2 != kk && key_contains(pre, k2) implies #[trigger] key_value(
        post,
        k2,
    ) == key_value(pre, k2) by {
        let j = key_index(pre, k2);
        assert(pre[j].0 == k2);
        lemma_key_at(pre, j);
        assert(j != i);
        let j2 = if j < i {
            j
        } else {
            j - 1
        };
        assert(post[j2] == pre[j]);
        lemma_key_at(post, j2);
    }
}

/// Replacing the entry at the index of key `kk` keeps all other keys intact.
pub proof fn lemma_insert_update<K, T>(pre: Seq<(K, T)>, post: Seq<(K, T)>, i: int, kk: K, vv: T)
    requires
        unique_keys(pre),
        0 <= i < pre.len(),
        pre[i].0 == kk,
        post == pre.update(i, (kk, vv)),
    ensures
        unique_keys(post),
        key_contains(post, kk),
        key_value(post, kk) == vv,
        forall|k2: K|
            k2 != kk ==> #[trigger] key_contains(post, k2) == key_contains(pre, k2),
        forall|k2: K|
            k2 != kk && key_contains(pre, k2) ==> #[trigger] key_value(post, k2) == key_value(
                pre,
                k2,
            ),
{
    assert forall|a: int, b: int| 0 <= a < b < post.len() implies (#[trigger] post[a]).0 != (
    #[trigger] post[b]).0 by {
        assert(pre[a].0 != pre[b].0);
    }
    lemma_key_at(post, i);
    assert forall|k2: K| k2 != kk implies #[trigger] key_contains(post, k2) == key_contains(
        pre,
        k2,
    ) by {
        if key_contains(pre, k2) {
            let j = key_index(pre, k2);
            assert(pre[j].0 == k2);
            assert(j != i);
            assert(post[j].0 == k2);
            assert(key_contains(post, k2));
        }
        if key_contains(post, k2) {
            let j = key_index(post, k2);
            assert(post[j].0 == k2);
            assert(j != i);
            assert(pre[j].0 == k2);
            assert(key_contains(pre, k2));
        }
    }
    assert forall|k2: K| k2 != kk && key_contains(pre, k2) implies #[trigger] key_value(
        post,
        k2,
    ) == key_value(pre, k2) by {
        let j = key_index(pre, k2);
        assert(pre[j].0 == k2);
        assert(j != i);
        lemma_key_at(pre, j);
        lemma_key_at(post, j);
    }
}

/// Appending a fresh key keeps all other keys intact.
pub proof fn lemma_insert_push<K, T>(pre: Seq<(K, T)>, post: Seq<(K, T)>, kk: K, vv: T)
    requires
        unique_keys(pre),
        !key_contains(pre, kk),
        post == pre.push((kk, vv)),
    ensures
        unique_keys(post),
        key_contains(post, kk),
        key_value(post, kk) == vv,
        forall|k2: K|
            k2 != kk ==> #[trigger] key_contains(post, k2) == key_contains(pre, k2),
        forall|k2: K|
            k2 != kk && key_contains(pre, k2) ==> #[trigger] key_value(post, k2) == key_value(
                pre,
                k2,
            ),
{
    let n = pre.len() as int;
    assert forall|a: int, b: int| 0 <= a < b < post.len() implies (#[trigger] post[a]).0 != (
    #[trigger] post[b]).0 by {
        if b < n {
            assert(pre[a].0 != pre[b].0);
        } else {
            assert(post[b].0 == kk);
            assert(post[a].0 == pre[a].0);
            if pre[a].0 == kk {
                assert(key_contains(pre, kk));
            }
        }
    }
    assert(post[n].0 == kk);
    lemma_key_at(post, n);
    assert forall|k2: K| k2 != kk implies #[trigger] key_contains(post, k2) == key_contains(
        pre,
        k2,
    ) by {
        if key_contains(pre, k2) {
            let j = key_index(pre, k2);
            assert(post[j].0 == k2);
            assert(key_contains(post, k2));
        }
        if key_contains(post, k2) {
            let j = key_index(post, k2);
            assert(post[j].0 == k2);
            assert(j != n);
            assert(pre[j].0 == k2);
            assert(key_contains(pre, k2));
        }
    }
    assert forall|k2: K| k2 != kk && key_contains(pre, k2) implies #[trigger] key_value(
        post,
        k2,
    ) == key_value(pre, k2) by {
        let j = key_index(pre, k2);
        assert(pre[j].0 == k2);
        lemma_key_at(pre, j);
        lemma_key_at(post, j);
    }
}

} // verus!
