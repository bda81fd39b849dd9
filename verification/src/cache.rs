//! The in-memory memo caches: full content keyed by name with
//! per-entry dirty flags, and the metadata projection keyed by name
//! with one cache-wide dirty flag.

use crate::model::{
    clone_memo, clone_meta, memo_eq, memo_views, meta_eq, meta_of_memo, spec_meta_of, Memo,
    MemoMeta, MemoMetaView, MemoView,
};
use crate::strutil::str_eq;
use vstd::pervasive::VecAdditionalExecFns;
use vstd::prelude::*;

verus! {

/// First-match lookup in an association sequence.
pub open spec fn assoc_get<V>(s: Seq<(Seq<char>, V)>, k: Seq<char>) -> Option<V>
    decreases s.len(),
{
    if s.len() == 0 {
        None
    } else if s[0].0 == k {
        Some(s[0].1)
    } else {
        assoc_get(s.drop_first(), k)
    }
}

/// No key occurs twice in the association sequence.
pub open spec fn assoc_unique<V>(s: Seq<(Seq<char>, V)>) -> bool {
    forall|i: int, j: int| 0 <= i < j < s.len() ==> (#[trigger] s[i]).0 != (#[trigger] s[j]).0
}

/// What a lookup returns, characterized by the entries themselves.
proof fn lemma_assoc_characterize<V>(s: Seq<(Seq<char>, V)>, k: Seq<char>)
    ensures
        match assoc_get(s, k) {
            Some(v) => exists|i: int|
                0 <= i < s.len() && (#[trigger] s[i]).0 == k && s[i].1 == v,
            None => forall|i: int| 0 <= i < s.len() ==> (#[trigger] s[i]).0 != k,
        },
    decreases s.len(),
{
    if s.len() == 0 {
    } else if s[0].0 == k {
        assert(s[0].0 == k && s[0].1 == assoc_get(s, k).unwrap());
    } else {
        lemma_assoc_characterize(s.drop_first(), k);
        match assoc_get(s.drop_first(), k) {
            Some(v) => {
                let i = choose|i: int|
                    0 <= i < s.drop_first().len() && (#[trigger] s.drop_first()[i]).0 == k
                        && s.drop_first()[i].1 == v;
                assert(s[i + 1] == s.drop_first()[i]);
            },
            None => {
                assert forall|i: int| 0 <= i < s.len() implies (#[trigger] s[i]).0 != k by {
                    if i > 0 {
                        assert(s.drop_first()[i - 1] == s[i]);
                    }
                }
            },
        }
    }
}

/// A present key under uniqueness: the lookup returns that entry.
pub proof fn lemma_assoc_at_index<V>(s: Seq<(Seq<char>, V)>, i: int)
    requires
        assoc_unique(s),
        0 <= i < s.len(),
    ensures
        assoc_get(s, s[i].0) == Some(s[i].1),
{
    lemma_assoc_characterize(s, s[i].0);
    match assoc_get(s, s[i].0) {
        Some(v) => {
            let j = choose|j: int|
                0 <= j < s.len() && (#[trigger] s[j]).0 == s[i].0 && s[j].1 == v;
            assert(j == i);
        },
        None => {
            assert(s[i].0 != s[i].0);
        },
    }
}

/// Overwriting the entry at a key's index changes that key's binding
/// and nothing else.
proof fn lemma_assoc_update<V>(s: Seq<(Seq<char>, V)>, i: int, k: Seq<char>, v: V)
    requires
        assoc_unique(s),
        0 <= i < s.len(),
        s[i].0 == k,
    ensures
        assoc_unique(s.update(i, (k, v))),
        forall|k2: Seq<char>| #![auto]
            assoc_get(s.update(i, (k, v)), k2) == (if k2 == k {
                Some(v)
            } else {
                assoc_get(s, k2)
            }),
{
    let t = s.update(i, (k, v));
    assert forall|a: int, b: int| 0 <= a < b < t.len() implies (#[trigger] t[a]).0 != (
    #[trigger] t[b]).0 by {
        assert(s[a].0 != s[b].0);
    }
    assert forall|k2: Seq<char>| #![auto]
        assoc_get(t, k2) == (if k2 == k {
            Some(v)
        } else {
            assoc_get(s, k2)
        }) by {
        lemma_assoc_characterize(s, k2);
        lemma_assoc_characterize(t, k2);
        if k2 == k {
            assert(t[i].0 == k2);
            match assoc_get(t, k2) {
                Some(v2) => {
                    let j = choose|j: int|
                        0 <= j < t.len() && (#[trigger] t[j]).0 == k2 && t[j].1 == v2;
                    assert(j == i);
                },
                None => {
                    assert(t[i].0 != k2);
                },
            }
        } else {
            match assoc_get(t, k2) {
                Some(v2) => {
                    let j = choose|j: int|
                        0 <= j < t.len() && (#[trigger] t[j]).0 == k2 && t[j].1 == v2;
                    assert(s[j] == t[j]);
                    lemma_assoc_at_index(s, j);
                },
                None => {
                    match assoc_get(s, k2) {
                        Some(v2) => {
                            let j = choose|j: int|
                                0 <= j < s.len() && (#[trigger] s[j]).0 == k2 && s[j].1 == v2;
                            assert(t[j] == s[j]);
                            lemma_assoc_at_index(t, j);
                        },
                        None => {},
                    }
                },
            }
        }
    }
}

/// Appending a fresh key binds it and changes nothing else.
proof fn lemma_assoc_push<V>(s: Seq<(Seq<char>, V)>, k: Seq<char>, v: V)
    requires
        assoc_unique(s),
        assoc_get(s, k) == None::<V>,
    ensures
        assoc_unique(s.push((k, v))),
        forall|k2: Seq<char>| #![auto]
            assoc_get(s.push((k, v)), k2) == (if k2 == k {
                Some(v)
            } else {
                assoc_get(s, k2)
            }),
{
    let t = s.push((k, v));
    lemma_assoc_characterize(s, k);
    assert forall|a: int, b: int| 0 <= a < b < t.len() implies (#[trigger] t[a]).0 != (
    #[trigger] t[b]).0 by {
        if b < s.len() {
            assert(s[a].0 != s[b].0);
        } else {
            assert(t[a] == s[a]);
            assert(s[a].0 != k);
        }
    }
    assert forall|k2: Seq<char>| #![auto]
        assoc_get(t, k2) == (if k2 == k {
            Some(v)
        } else {
            assoc_get(s, k2)
        }) by {
        lemma_assoc_characterize(t, k2);
        lemma_assoc_characterize(s, k2);
        if k2 == k {
            assert(t[s.len() as int].0 == k2);
            match assoc_get(t, k2) {
                Some(v2) => {
                    let j = choose|j: int|
                        0 <= j < t.len() && (#[trigger] t[j]).0 == k2 && t[j].1 == v2;
                    if j < s.len() {
                        assert(s[j] == t[j]);
                        assert(s[j].0 != k);
                    }
                },
                None => {
                    assert(t[s.len() as int].0 != k2);
                },
            }
        } else {
            match assoc_get(t, k2) {
                Some(v2) => {
                    assert(t[s.len() as int] == (k, v));
                    let j = choose|j: int|
                        0 <= j < t.len() && (#[trigger] t[j]).0 == k2 && t[j].1 == v2;
                    if j == s.len() {
                        assert(t[j].0 == k);
                    }
                    assert(j < s.len());
                    assert(s[j] == t[j]);
                    lemma_assoc_at_index(s, j);
                },
                None => {
                    match assoc_get(s, k2) {
                        Some(v2) => {
                            let j = choose|j: int|
                                0 <= j < s.len() && (#[trigger] s[j]).0 == k2 && s[j].1 == v2;
                            assert(t[j] == s[j]);
                            lemma_assoc_at_index(t, j);
                        },
                        None => {},
                    }
                },
            }
        }
    }
}

/// Removing a key's entry unbinds it and changes nothing else.
proof fn lemma_assoc_remove<V>(s: Seq<(Seq<char>, V)>, i: int)
    requires
        assoc_unique(s),
        0 <= i < s.len(),
    ensures
        assoc_unique(s.remove(i)),
        assoc_get(s.remove(i), s[i].0) == None::<V>,
        forall|k2: Seq<char>| #![auto]
            k2 != s[i].0 ==> assoc_get(s.remove(i), k2) == assoc_get(s, k2),
{
    let t = s.remove(i);
    let k = s[i].0;
    assert forall|a: int, b: int| 0 <= a < b < t.len() implies (#[trigger] t[a]).0 != (
    #[trigger] t[b]).0 by {
        let a2 = if a < i {
            a
        } else {
            a + 1
        };
        let b2 = if b < i {
            b
        } else {
            b + 1
        };
        assert(t[a] == s[a2]);
        assert(t[b] == s[b2]);
        assert(s[a2].0 != s[b2].0);
    }
    lemma_assoc_characterize(t, k);
    match assoc_get(t, k) {
        Some(v2) => {
            let j = choose|j: int| 0 <= j < t.len() && (#[trigger] t[j]).0 == k && t[j].1 == v2;
            let j2 = if j < i {
                j
            } else {
                j + 1
            };
            assert(t[j] == s[j2]);
            assert(j2 != i);
            assert(s[j2].0 != s[i].0);
        },
        None => {},
    }
    assert forall|k2: Seq<char>| #![auto]
        k2 != k implies assoc_get(t, k2) == assoc_get(s, k2) by {
        lemma_assoc_characterize(t, k2);
        lemma_assoc_characterize(s, k2);
        match assoc_get(t, k2) {
            Some(v2) => {
                let j = choose|j: int|
                    0 <= j < t.len() && (#[trigger] t[j]).0 == k2 && t[j].1 == v2;
                let j2 = if j < i {
                    j
                } else {
                    j + 1
                };
                assert(t[j] == s[j2]);
                lemma_assoc_at_index(s, j2);
            },
            None => {
                match assoc_get(s, k2) {
                    Some(v2) => {
                        let j = choose|j: int|
                            0 <= j < s.len() && (#[trigger] s[j]).0 == k2 && s[j].1 == v2;
                        assert(j != i);
                        let j2 = if j < i {
                            j
                        } else {
                            j - 1
                        };
                        assert(t[j2] == s[j]);
                        lemma_assoc_at_index(t, j2);
                    },
                    None => {},
                }
            },
        }
    }
}

/// The association view of a keyed vector: each entry as the pair of
/// its key's and its value's mathematical values.
pub open spec fn entries_view<X: View>(v: Vec<(String, X)>) -> Seq<(Seq<char>, X::V)> {
    Seq::new(v@.len(), |i: int| (v@[i].0@, v@[i].1@))
}

/// Finds the index of a key in a keyed vector.
fn find_key<X: View>(v: &Vec<(String, X)>, k: &str) -> (r: Option<usize>)
    ensures
        match r {
            Some(i) => i < v@.len() && entries_view(*v)[i as int].0 == k@,
            None => assoc_get(entries_view(*v), k@) == None::<X::V>,
        },
{
    let mut i: usize = 0;
    while i < v.len()
        invariant
            i <= v@.len(),
            forall|j: int| 0 <= j < i ==> entries_view(*v)[j].0 != k@,
        decreases v@.len() - i,
    {
        if str_eq(v[i].0.as_str(), k) {
            return Some(i);
        }
        i = i + 1;
    }
    proof {
        lemma_assoc_characterize(entries_view(*v), k@);
    }
    None
}

/// A cached memo together with its dirty flag: true iff the in-memory
/// value has not been durably written since its last change.
pub struct MemoDataCache {
    pub memo: Memo,
    pub is_updated: bool,
}

/// The mathematical value of a [`MemoDataCache`].
#[verifier::ext_equal]
pub ghost struct MemoDataCacheView {
    pub memo: MemoView,
    pub is_updated: bool,
}

impl View for MemoDataCache {
    type V = MemoDataCacheView;

    open spec fn view(&self) -> MemoDataCacheView {
        MemoDataCacheView { memo: self.memo@, is_updated: self.is_updated }
    }
}

/// The two in-memory caches: full memo content with per-entry dirty
/// flags, and the metadata projection with one cache-wide dirty flag.
pub struct CacheData {
    pub memos: Vec<(String, MemoDataCache)>,
    pub all_memo_meta: Vec<(String, MemoMeta)>,
    pub is_all_memo_meta_updated: bool,
}

impl CacheData {
    /// The content cache as an association sequence.
    pub open spec fn contents(self) -> Seq<(Seq<char>, MemoDataCacheView)> {
        entries_view(self.memos)
    }

    /// The metadata cache as an association sequence.
    pub open spec fn metas(self) -> Seq<(Seq<char>, MemoMetaView)> {
        entries_view(self.all_memo_meta)
    }

    /// The content entry cached under a name, if any.
    pub open spec fn content_at(self, name: Seq<char>) -> Option<MemoDataCacheView> {
        assoc_get(self.contents(), name)
    }

    /// The metadata cached under a name, if any.
    pub open spec fn meta_at(self, name: Seq<char>) -> Option<MemoMetaView> {
        assoc_get(self.metas(), name)
    }

    /// Every cached memo agrees with its cached metadata, wherever
    /// both caches hold the name: the metadata is exactly the memo's
    /// projection. Storing, deleting, flushing and logging out
    /// preserve this; loading a memo from disk beside a stale
    /// metadata entry is the one operation that may break it.
    pub open spec fn consistent(self) -> bool {
        forall|n: Seq<char>|
            #![trigger self.content_at(n), self.meta_at(n)]
            (self.content_at(n) is Some && self.meta_at(n) is Some) ==> self.meta_at(n).unwrap()
                == spec_meta_of(n, self.content_at(n).unwrap().memo)
    }

    /// Well-formedness: no key occurs twice, and each metadata entry is
    /// keyed by the name it carries.
    pub open spec fn wf(self) -> bool {
        &&& assoc_unique(self.contents())
        &&& assoc_unique(self.metas())
        &&& forall|i: int|
            0 <= i < self.metas().len() ==> (#[trigger] self.metas()[i]).0
                == self.metas()[i].1.name
    }

    /// An empty cache: nothing stored, nothing dirty.
    pub fn new() -> (r: CacheData)
        ensures
            r.wf(),
            r.consistent(),
            r.contents().len() == 0,
            r.metas().len() == 0,
            !r.is_all_memo_meta_updated,
            forall|k: Seq<char>| r.content_at(k) == None::<MemoDataCacheView>,
            forall|k: Seq<char>| r.meta_at(k) == None::<MemoMetaView>,
    {
        let r = CacheData { memos: Vec::new(), all_memo_meta: Vec::new(), is_all_memo_meta_updated: false };
        proof {
            assert(r.contents() =~= Seq::<(Seq<char>, MemoDataCacheView)>::empty());
            assert(r.metas() =~= Seq::<(Seq<char>, MemoMetaView)>::empty());
        }
        r
    }

    /// Stores a memo under a name. The metadata projection replaces any
    /// prior entry and dirties the cache-wide flag only when it
    /// actually changed; the full memo replaces any prior entry and is
    /// marked dirty only when it actually changed. The two markings are
    /// independent.
    pub fn store_memo(&mut self, memo_name: String, memo: Memo)
        requires
            old(self).wf(),
        ensures
            final(self).wf(),
            store_memo_rel(*old(self), *final(self), memo_name@, memo@),
            old(self).consistent() ==> final(self).consistent(),
    {
        let ghost n = memo_name@;
        let ghost m = memo@;
        let ghost p = spec_meta_of(n, m);
        let ghost pre = *old(self);
        let meta = meta_of_memo(&memo_name, &memo);
        match find_key(&self.all_memo_meta, memo_name.as_str()) {
            Some(i) => {
                proof {
                    lemma_assoc_at_index(pre.metas(), i as int);
                    assert(pre.meta_at(n) == Some(pre.metas()[i as int].1));
                }
                if !meta_eq(&self.all_memo_meta[i].1, &meta) {
                    self.all_memo_meta.set(i, (memo_name.clone(), meta));
                    self.is_all_memo_meta_updated = true;
                    proof {
                        assert(self.metas() =~= pre.metas().update(i as int, (n, p)));
                        lemma_assoc_update(pre.metas(), i as int, n, p);
                    }
                }
            },
            None => {
                self.all_memo_meta.push((memo_name.clone(), meta));
                self.is_all_memo_meta_updated = true;
                proof {
                    assert(self.metas() =~= pre.metas().push((n, p)));
                    lemma_assoc_push(pre.metas(), n, p);
                }
            },
        }
        let ghost mid = *self;
        proof {
            assert(mid.contents() == pre.contents());
            assert forall|i: int| 0 <= i < mid.metas().len() implies (
            #[trigger] mid.metas()[i]).0 == mid.metas()[i].1.name by {}
        }
        let ghost ev = MemoDataCacheView { memo: m, is_updated: true };
        match find_key(&self.memos, memo_name.as_str()) {
            Some(i) => {
                proof {
                    lemma_assoc_at_index(pre.contents(), i as int);
                    assert(pre.content_at(n) == Some(pre.contents()[i as int].1));
                }
                if !memo_eq(&self.memos[i].1.memo, &memo) {
                    self.memos.set(i, (memo_name, MemoDataCache { memo, is_updated: true }));
                    proof {
                        assert(self.contents() =~= pre.contents().update(i as int, (n, ev)));
                        lemma_assoc_update(pre.contents(), i as int, n, ev);
                    }
                }
            },
            None => {
                self.memos.push((memo_name, MemoDataCache { memo, is_updated: true }));
                proof {
                    assert(self.contents() =~= pre.contents().push((n, ev)));
                    lemma_assoc_push(pre.contents(), n, ev);
                }
            },
        }
        proof {
            assert(self.metas() == mid.metas());
            assert(self.is_all_memo_meta_updated == mid.is_all_memo_meta_updated);
            if pre.consistent() {
                assert(store_memo_rel(pre, *self, n, m));
                lemma_store_preserves_consistent(pre, *self, n, m);
            }
        }
    }
}

impl CacheData {
    /// Reads a memo from the content cache alone. Absence here means
    /// the caller may try the per-memo file on disk and hand the
    /// result to [`CacheData::insert_loaded_memo`].
    pub fn get_memo(&self, memo_name: &str) -> (r: Option<Memo>)
        requires
            self.wf(),
        ensures
            match r {
                Some(found) => self.content_at(memo_name@) matches Some(e) && found@ == e.memo,
                None => self.content_at(memo_name@) is None,
            },
    {
        match find_key(&self.memos, memo_name) {
            Some(i) => {
                proof {
                    lemma_assoc_at_index(self.contents(), i as int);
                }
                Some(clone_memo(&self.memos[i].1.memo))
            },
            None => None,
        }
    }

    /// Removes a memo from both caches and dirties the cache-wide
    /// metadata flag. The in-memory removal is authoritative; deleting
    /// the on-disk file afterwards is the caller's best-effort step.
    pub fn delete_memo(&mut self, memo_name: &str)
        requires
            old(self).wf(),
        ensures
            final(self).wf(),
            delete_memo_rel(*old(self), *final(self), memo_name@),
            old(self).consistent() ==> final(self).consistent(),
    {
        let ghost n = memo_name@;
        let ghost pre = *old(self);
        match find_key(&self.all_memo_meta, memo_name) {
            Some(i) => {
                proof {
                    lemma_assoc_at_index(pre.metas(), i as int);
                }
                self.all_memo_meta.remove(i);
                proof {
                    assert(self.metas() =~= pre.metas().remove(i as int));
                    lemma_assoc_remove(pre.metas(), i as int);
                }
            },
            None => {},
        }
        self.is_all_memo_meta_updated = true;
        let ghost mid = *self;
        proof {
            assert(mid.contents() == pre.contents());
            assert forall|i: int| 0 <= i < mid.metas().len() implies (
            #[trigger] mid.metas()[i]).0 == mid.metas()[i].1.name by {}
        }
        match find_key(&self.memos, memo_name) {
            Some(i) => {
                proof {
                    lemma_assoc_at_index(pre.contents(), i as int);
                }
                self.memos.remove(i);
                proof {
                    assert(self.contents() =~= pre.contents().remove(i as int));
                    lemma_assoc_remove(pre.contents(), i as int);
                }
            },
            None => {},
        }
        proof {
            assert(self.metas() == mid.metas());
            if pre.consistent() {
                assert(delete_memo_rel(pre, *self, n));
                lemma_delete_preserves_consistent(pre, *self, n);
            }
        }
    }

    /// Inserts a memo read back from its per-memo cache file: the entry
    /// is clean (it already matches disk) and the metadata cache is
    /// untouched.
    pub fn insert_loaded_memo(&mut self, memo_name: String, memo: Memo)
        requires
            old(self).wf(),
        ensures
            final(self).wf(),
            final(self).content_at(memo_name@) == Some(
                MemoDataCacheView { memo: memo@, is_updated: false },
            ),
            forall|k: Seq<char>|
                k != memo_name@ ==> #[trigger] final(self).content_at(k) == old(self).content_at(
                    k,
                ),
            final(self).metas() == old(self).metas(),
            final(self).is_all_memo_meta_updated == old(self).is_all_memo_meta_updated,
    {
        let ghost n = memo_name@;
        let ghost pre = *old(self);
        let ghost ev = MemoDataCacheView { memo: memo@, is_updated: false };
        match find_key(&self.memos, memo_name.as_str()) {
            Some(i) => {
                proof {
                    lemma_assoc_at_index(pre.contents(), i as int);
                }
                self.memos.set(i, (memo_name, MemoDataCache { memo, is_updated: false }));
                proof {
                    assert(self.contents() =~= pre.contents().update(i as int, (n, ev)));
                    lemma_assoc_update(pre.contents(), i as int, n, ev);
                }
            },
            None => {
                self.memos.push((memo_name, MemoDataCache { memo, is_updated: false }));
                proof {
                    assert(self.contents() =~= pre.contents().push((n, ev)));
                    lemma_assoc_push(pre.contents(), n, ev);
                }
            },
        }
    }

    /// Installs one metadata record read from the metadata cache file
    /// at startup, keyed by the name it carries; the dirty flag is
    /// untouched (what was loaded already matches disk).
    pub fn insert_loaded_meta(&mut self, meta: MemoMeta)
        requires
            old(self).wf(),
        ensures
            final(self).wf(),
            final(self).meta_at(meta@.name) == Some(meta@),
            forall|k: Seq<char>|
                k != meta@.name ==> #[trigger] final(self).meta_at(k) == old(self).meta_at(k),
            final(self).contents() == old(self).contents(),
            final(self).is_all_memo_meta_updated == old(self).is_all_memo_meta_updated,
    {
        let ghost n = meta@.name;
        let ghost p = meta@;
        let ghost pre = *old(self);
        let key = meta.name.clone();
        match find_key(&self.all_memo_meta, key.as_str()) {
            Some(i) => {
                proof {
                    lemma_assoc_at_index(pre.metas(), i as int);
                }
                self.all_memo_meta.set(i, (key, meta));
                proof {
                    assert(self.metas() =~= pre.metas().update(i as int, (n, p)));
                    lemma_assoc_update(pre.metas(), i as int, n, p);
                }
            },
            None => {
                self.all_memo_meta.push((key, meta));
                proof {
                    assert(self.metas() =~= pre.metas().push((n, p)));
                    lemma_assoc_push(pre.metas(), n, p);
                }
            },
        }
        proof {
            assert forall|i: int| 0 <= i < self.metas().len() implies (
            #[trigger] self.metas()[i]).0 == self.metas()[i].1.name by {}
        }
    }
}

/// Everything [`CacheData::delete_memo`] does: the name is unbound in
/// both caches, other names keep their bindings, and the cache-wide
/// metadata dirty flag is set.
pub open spec fn delete_memo_rel(pre: CacheData, post: CacheData, n: Seq<char>) -> bool {
    &&& post.meta_at(n) is None
    &&& post.content_at(n) is None
    &&& forall|k: Seq<char>| k != n ==> #[trigger] post.meta_at(k) == pre.meta_at(k)
    &&& forall|k: Seq<char>| k != n ==> #[trigger] post.content_at(k) == pre.content_at(k)
    &&& post.is_all_memo_meta_updated
}

/// Storing a memo and then reading the same name, with no delete in
/// between, yields a memo structurally equal to what was stored.
pub proof fn lemma_store_then_get(pre: CacheData, post: CacheData, name: Seq<char>, memo: MemoView)
    requires
        store_memo_rel(pre, post, name, memo),
    ensures
        post.content_at(name) matches Some(e) && e.memo == memo,
{
}

/// Deleting a name and then reading it yields absence.
pub proof fn lemma_delete_then_get(pre: CacheData, post: CacheData, name: Seq<char>)
    requires
        delete_memo_rel(pre, post, name),
    ensures
        post.content_at(name) is None,
        post.meta_at(name) is None,
{
}

/// Re-storing an unchanged memo under its name is a no-op: neither the
/// cache-wide metadata dirty flag nor the entry's own dirty flag moves.
pub proof fn lemma_store_unchanged_keeps_flags(
    pre: CacheData,
    post: CacheData,
    name: Seq<char>,
    memo: MemoView,
)
    requires
        store_memo_rel(pre, post, name, memo),
        pre.meta_at(name) == Some(spec_meta_of(name, memo)),
        pre.content_at(name) matches Some(e) && e.memo == memo,
    ensures
        post.is_all_memo_meta_updated == pre.is_all_memo_meta_updated,
        post.content_at(name) == pre.content_at(name),
        post.content_at(name).unwrap().is_updated == pre.content_at(name).unwrap().is_updated,
        post.meta_at(name) == pre.meta_at(name),
{
}

/// The memos whose per-entry dirty flag is set, in cache order.
pub open spec fn spec_dirty_memos(s: Seq<(Seq<char>, MemoDataCacheView)>) -> Seq<MemoView>
    decreases s.len(),
{
    if s.len() == 0 {
        Seq::empty()
    } else if s[0].1.is_updated {
        seq![s[0].1.memo] + spec_dirty_memos(s.drop_first())
    } else {
        spec_dirty_memos(s.drop_first())
    }
}

/// What one tick of the persistence loop must write: the whole
/// metadata map when its flag was set, and every content entry whose
/// own flag was set.
pub struct FlushPlan {
    pub meta_snapshot: Option<Vec<(String, MemoMeta)>>,
    pub dirty_memos: Vec<Memo>,
}

fn clone_meta_entries(v: &Vec<(String, MemoMeta)>) -> (r: Vec<(String, MemoMeta)>)
    ensures
        entries_view(r) == entries_view(*v),
{
    let mut out: Vec<(String, MemoMeta)> = Vec::new();
    let mut i: usize = 0;
    while i < v.len()
        invariant
            i <= v@.len(),
            out@.len() == i,
            forall|j: int| 0 <= j < i ==> entries_view(out)[j] == entries_view(*v)[j],
        decreases v@.len() - i,
    {
        out.push((v[i].0.clone(), clone_meta(&v[i].1)));
        i = i + 1;
    }
    proof {
        assert(entries_view(out) =~= entries_view(*v));
    }
    out
}

impl CacheData {
    /// Decides what the current persistence tick must write and clears
    /// the dirty flags it consumed: the metadata flag first (the whole
    /// map is snapshotted when it was set), then each dirty content
    /// entry. Failures while writing are the caller's to log; flags
    /// are not restored, so a failed write is retried only once a
    /// later mutation re-dirties its flag.
    pub fn collect_flush_plan(&mut self) -> (plan: FlushPlan)
        requires
            old(self).wf(),
        ensures
            final(self).wf(),
            final(self).metas() == old(self).metas(),
            !final(self).is_all_memo_meta_updated,
            match plan.meta_snapshot {
                Some(v) => old(self).is_all_memo_meta_updated && entries_view(v) == old(
                    self,
                ).metas(),
                None => !old(self).is_all_memo_meta_updated,
            },
            final(self).contents().len() == old(self).contents().len(),
            forall|i: int|
                0 <= i < old(self).contents().len() ==> (#[trigger] final(self).contents()[i]).0
                    == old(self).contents()[i].0,
            forall|i: int|
                0 <= i < old(self).contents().len() ==> (#[trigger] final(self).contents()[i]).1
                    == (MemoDataCacheView {
                    memo: old(self).contents()[i].1.memo,
                    is_updated: false,
                }),
            memo_views(plan.dirty_memos@) == spec_dirty_memos(old(self).contents()),
            old(self).consistent() ==> final(self).consistent(),
    {
        let ghost pre = *old(self);
        let meta_snapshot = if self.is_all_memo_meta_updated {
            self.is_all_memo_meta_updated = false;
            Some(clone_meta_entries(&self.all_memo_meta))
        } else {
            None
        };
        let mut dirty_memos: Vec<Memo> = Vec::new();
        let mut i: usize = 0;
        proof {
            assert(pre.contents().skip(0) =~= pre.contents());
            assert(memo_views(dirty_memos@) + spec_dirty_memos(pre.contents())
                =~= spec_dirty_memos(pre.contents()));
        }
        let n = self.memos.len();
        while i < n
            invariant
                n == self.memos@.len(),
                i <= n,
                self.contents().len() == pre.contents().len(),
                forall|j: int|
                    0 <= j < i ==> (#[trigger] self.contents()[j]) == (pre.contents()[j].0,
                    MemoDataCacheView { memo: pre.contents()[j].1.memo, is_updated: false }),
                forall|j: int| i <= j < n ==> #[trigger] self.contents()[j] == pre.contents()[j],
                spec_dirty_memos(pre.contents()) == memo_views(dirty_memos@) + spec_dirty_memos(
                    pre.contents().skip(i as int),
                ),
                self.all_memo_meta == old(self).all_memo_meta,
                !self.is_all_memo_meta_updated,
            decreases n - i,
        {
            let ghost s = pre.contents().skip(i as int);
            proof {
                assert(s.len() == n - i);
                assert(s[0] == pre.contents()[i as int]);
                assert(s.drop_first() =~= pre.contents().skip(i + 1));
                assert(self.contents()[i as int] == pre.contents()[i as int]);
                assert(self.contents()[i as int].1.is_updated == self.memos@[i as int].1.is_updated);
            }
            let ghost cur = self.contents();
            if self.memos[i].1.is_updated {
                let key = self.memos[i].0.clone();
                let memo_for_list = clone_memo(&self.memos[i].1.memo);
                let memo_for_entry = clone_memo(&self.memos[i].1.memo);
                dirty_memos.push(memo_for_list);
                self.memos.set(i, (key, MemoDataCache { memo: memo_for_entry, is_updated: false }));
                proof {
                    assert(self.contents() =~= cur.update(
                        i as int,
                        (cur[i as int].0, MemoDataCacheView {
                            memo: cur[i as int].1.memo,
                            is_updated: false,
                        }),
                    ));
                    assert(spec_dirty_memos(s) == seq![s[0].1.memo] + spec_dirty_memos(
                        pre.contents().skip(i + 1),
                    ));
                    assert(memo_views(dirty_memos@) =~= memo_views(dirty_memos@.drop_last())
                        + seq![s[0].1.memo]);
                    assert(memo_views(dirty_memos@) + spec_dirty_memos(pre.contents().skip(i + 1))
                        =~= (memo_views(dirty_memos@.drop_last()) + seq![s[0].1.memo])
                        + spec_dirty_memos(pre.contents().skip(i + 1)));
                    assert((memo_views(dirty_memos@.drop_last()) + seq![s[0].1.memo])
                        + spec_dirty_memos(pre.contents().skip(i + 1))
                        =~= memo_views(dirty_memos@.drop_last()) + (seq![s[0].1.memo]
                        + spec_dirty_memos(pre.contents().skip(i + 1))));
                }
            } else {
                proof {
                    assert(spec_dirty_memos(s) == spec_dirty_memos(pre.contents().skip(i + 1)));
                    assert(cur[i as int].1 =~= MemoDataCacheView {
                        memo: pre.contents()[i as int].1.memo,
                        is_updated: false,
                    });
                }
            }
            i = i + 1;
        }
        proof {
            assert(spec_dirty_memos(pre.contents().skip(n as int)).len() == 0);
            assert(memo_views(dirty_memos@) + spec_dirty_memos(pre.contents().skip(n as int))
                =~= memo_views(dirty_memos@));
            assert forall|a: int, b: int|
                0 <= a < b < self.contents().len() implies (#[trigger] self.contents()[a]).0 != (
            #[trigger] self.contents()[b]).0 by {
                assert(self.contents()[a].0 == pre.contents()[a].0);
                assert(self.contents()[b].0 == pre.contents()[b].0);
                assert(pre.contents()[a].0 != pre.contents()[b].0);
            }
            if pre.consistent() {
                assert forall|k: Seq<char>|
                    (#[trigger] self.content_at(k) is Some && #[trigger] self.meta_at(k)
                        is Some) implies self.meta_at(k).unwrap() == spec_meta_of(
                    k,
                    self.content_at(k).unwrap().memo,
                ) by {
                    lemma_assoc_characterize(self.contents(), k);
                    lemma_assoc_characterize(pre.contents(), k);
                    assert(self.meta_at(k) == pre.meta_at(k));
                    match self.content_at(k) {
                        Some(e) => {
                            let i = choose|i: int|
                                0 <= i < self.contents().len() && (
                                #[trigger] self.contents()[i]).0 == k && self.contents()[i].1
                                    == e;
                            assert(self.contents()[i] == (pre.contents()[i].0,
                            MemoDataCacheView { memo: pre.contents()[i].1.memo, is_updated: false }));
                            assert(pre.contents()[i].0 == k);
                            lemma_assoc_at_index(pre.contents(), i);
                            assert(pre.content_at(k) == Some(pre.contents()[i].1));
                            assert(e.memo == pre.contents()[i].1.memo);
                            assert(pre.content_at(k) is Some && pre.meta_at(k) is Some);
                        },
                        None => {},
                    }
                }
            }
        }
        FlushPlan { meta_snapshot, dirty_memos }
    }
}

/// Storing keeps the caches consistent: the stored memo's listing
/// fields agree with its freshly computed projection, and no other
/// binding moves.
pub proof fn lemma_store_preserves_consistent(
    pre: CacheData,
    post: CacheData,
    name: Seq<char>,
    memo: MemoView,
)
    requires
        pre.consistent(),
        store_memo_rel(pre, post, name, memo),
    ensures
        post.consistent(),
{
    assert forall|n: Seq<char>|
        (#[trigger] post.content_at(n) is Some && #[trigger] post.meta_at(n) is Some) implies
        post.meta_at(n).unwrap() == spec_meta_of(n, post.content_at(n).unwrap().memo) by {
        if n != name {
            assert(post.content_at(n) == pre.content_at(n));
            assert(post.meta_at(n) == pre.meta_at(n));
        }
    }
}

/// Deleting keeps the caches consistent: the name is gone from both,
/// and no other binding moves.
pub proof fn lemma_delete_preserves_consistent(pre: CacheData, post: CacheData, name: Seq<char>)
    requires
        pre.consistent(),
        delete_memo_rel(pre, post, name),
    ensures
        post.consistent(),
{
    assert forall|n: Seq<char>|
        (#[trigger] post.content_at(n) is Some && #[trigger] post.meta_at(n) is Some) implies
        post.meta_at(n).unwrap() == spec_meta_of(n, post.content_at(n).unwrap().memo) by {
        if n != name {
            assert(post.content_at(n) == pre.content_at(n));
            assert(post.meta_at(n) == pre.meta_at(n));
        }
    }
}

/// How storing a memo changes the metadata cache: the projection is
/// bound under the name; other names keep their bindings; the
/// cache-wide dirty flag is set iff the binding actually changed.
pub open spec fn store_memo_meta_rel(
    pre: CacheData,
    post: CacheData,
    n: Seq<char>,
    m: MemoView,
) -> bool {
    let p = spec_meta_of(n, m);
    &&& post.meta_at(n) == Some(p)
    &&& forall|k: Seq<char>| k != n ==> #[trigger] post.meta_at(k) == pre.meta_at(k)
    &&& post.is_all_memo_meta_updated == (if pre.meta_at(n) == Some(p) {
        pre.is_all_memo_meta_updated
    } else {
        true
    })
}

/// How storing a memo changes the content cache: an unchanged memo
/// leaves its entry (and its dirty flag) alone; otherwise the memo is
/// bound under the name with its dirty flag set; other names keep
/// their bindings.
pub open spec fn store_memo_content_rel(
    pre: CacheData,
    post: CacheData,
    n: Seq<char>,
    m: MemoView,
) -> bool {
    &&& (match pre.content_at(n) {
        Some(e) => {
            if e.memo == m {
                post.content_at(n) == Some(e)
            } else {
                post.content_at(n) == Some(MemoDataCacheView { memo: m, is_updated: true })
            }
        },
        None => post.content_at(n) == Some(MemoDataCacheView { memo: m, is_updated: true }),
    })
    &&& forall|k: Seq<char>| k != n ==> #[trigger] post.content_at(k) == pre.content_at(k)
}

/// Everything [`CacheData::store_memo`] does.
pub open spec fn store_memo_rel(
    pre: CacheData,
    post: CacheData,
    n: Seq<char>,
    m: MemoView,
) -> bool {
    store_memo_meta_rel(pre, post, n, m) && store_memo_content_rel(pre, post, n, m)
}

} // verus!
