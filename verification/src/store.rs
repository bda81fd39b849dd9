//! The settings store: a concurrent string-to-string map with two
//! specially tracked identity fields (server and user), and the
//! application state that joins it with the memo caches.

use crate::cache::{CacheData, MemoDataCacheView};
use crate::model::MemoMetaView;
use crate::strutil::str_eq;
use dashmap::DashMap;
use vstd::prelude::*;

verus! {

#[verifier::external_type_specification]
#[verifier::external_body]
#[verifier::reject_recursive_types(K)]
#[verifier::reject_recursive_types(V)]
#[verifier::reject_recursive_types(S)]
pub struct ExDashMap<K, V, S>(DashMap<K, V, S>);

/// What a settings map holds, as a mathematical map from key to value.
pub uninterp spec fn dash_contents(m: DashMap<String, String>) -> Map<Seq<char>, Seq<char>>;

/// The empty settings mapping.
pub open spec fn empty_settings() -> Map<Seq<char>, Seq<char>> {
    Map::empty()
}

/// Relies on `DashMap::new`: the fresh map is empty.
#[verifier::external_body]
fn dash_new() -> (r: DashMap<String, String>)
    ensures
        dash_contents(r) == empty_settings(),
{
    DashMap::new()
}

/// Relies on `DashMap::insert`: binds the key to the value and returns
/// the value it replaced, if any.
#[verifier::external_body]
fn dash_insert(m: &mut DashMap<String, String>, k: String, v: String) -> (prev: Option<String>)
    ensures
        dash_contents(*final(m)) == dash_contents(*old(m)).insert(k@, v@),
        match prev {
            Some(p) => dash_contents(*old(m)).contains_key(k@) && p@ == dash_contents(*old(m))[k@],
            None => !dash_contents(*old(m)).contains_key(k@),
        },
{
    m.insert(k, v)
}

/// Relies on `DashMap::get`: returns the value bound to the key, if
/// any. The guard is dropped at once; the value comes out cloned.
#[verifier::external_body]
fn dash_get(m: &DashMap<String, String>, k: &String) -> (r: Option<String>)
    ensures
        match r {
            Some(v) => dash_contents(*m).contains_key(k@) && v@ == dash_contents(*m)[k@],
            None => !dash_contents(*m).contains_key(k@),
        },
{
    m.get(k).map(|v| v.clone())
}

/// Relies on `DashMap::remove`: unbinds the key.
#[verifier::external_body]
fn dash_remove(m: &mut DashMap<String, String>, k: &String)
    ensures
        dash_contents(*final(m)) == dash_contents(*old(m)).remove(k@),
{
    m.remove(k);
}

/// Relies on `DashMap::clear`: unbinds every key.
#[verifier::external_body]
fn dash_clear(m: &mut DashMap<String, String>)
    ensures
        dash_contents(*final(m)) == empty_settings(),
{
    m.clear();
}

/// The generic settings mapping plus the two identity fields that
/// mirror the reserved keys `serverUrl` and `userName`, kept apart for
/// lock-light access by namespace resolution.
pub struct StoreData {
    pub data: DashMap<String, String>,
    pub server_url: String,
    pub user_name: String,
}

impl StoreData {
    /// The settings mapping as a mathematical map.
    pub open spec fn map(self) -> Map<Seq<char>, Seq<char>> {
        dash_contents(self.data)
    }

    /// An empty store: no settings, no identities.
    pub fn new() -> (r: StoreData)
        ensures
            r.map() == Map::<Seq<char>, Seq<char>>::empty(),
            r.server_url@.len() == 0,
            r.user_name@.len() == 0,
    {
        StoreData { data: dash_new(), server_url: String::new(), user_name: String::new() }
    }

    /// Binds a key to a value; the reserved identity keys also update
    /// their mirrored field. The caller persists the store afterwards.
    pub fn store_data(&mut self, key: String, data: String)
        ensures
            final(self).map() == old(self).map().insert(key@, data@),
            final(self).server_url@ == (if key@ == "serverUrl"@ {
                data@
            } else {
                old(self).server_url@
            }),
            final(self).user_name@ == (if key@ == "userName"@ {
                data@
            } else {
                old(self).user_name@
            }),
    {
        proof {
            // the two reserved keys are distinct, by their lengths
            reveal_strlit("serverUrl");
            reveal_strlit("userName");
            assert("serverUrl"@.len() == 9);
            assert("userName"@.len() == 8);
            assert("serverUrl"@ != "userName"@);
        }
        if str_eq(key.as_str(), "serverUrl") {
            self.server_url = data.clone();
        } else if str_eq(key.as_str(), "userName") {
            self.user_name = data.clone();
        }
        dash_insert(&mut self.data, key, data);
    }

    /// Reads the value bound to a key; nothing is persisted.
    pub fn get_data(&self, key: &String) -> (r: Option<String>)
        ensures
            match r {
                Some(v) => self.map().contains_key(key@) && v@ == self.map()[key@],
                None => !self.map().contains_key(key@),
            },
    {
        dash_get(&self.data, key)
    }

    /// Unbinds each given key; a reserved identity key also clears its
    /// mirrored field. The caller persists the store afterwards.
    pub fn remove_data(&mut self, keys: Vec<String>)
        ensures
            final(self).map() == old(self).map().remove_keys(keys.deep_view().to_set()),
            final(self).server_url@ == (if keys.deep_view().contains("serverUrl"@) {
                Seq::<char>::empty()
            } else {
                old(self).server_url@
            }),
            final(self).user_name@ == (if keys.deep_view().contains("userName"@) {
                Seq::<char>::empty()
            } else {
                old(self).user_name@
            }),
    {
        if contains_str(&keys, "serverUrl") {
            self.server_url = String::new();
        }
        if contains_str(&keys, "userName") {
            self.user_name = String::new();
        }
        let ghost pre_map = self.map();
        let ghost mid_server = self.server_url@;
        let ghost mid_user = self.user_name@;
        let mut i: usize = 0;
        proof {
            assert(self.map() =~= pre_map.remove_keys(keys.deep_view().take(0).to_set()));
        }
        while i < keys.len()
            invariant
                i <= keys@.len(),
                self.map() == pre_map.remove_keys(keys.deep_view().take(i as int).to_set()),
                self.server_url@ == mid_server,
                self.user_name@ == mid_user,
            decreases keys@.len() - i,
        {
            dash_remove(&mut self.data, &keys[i]);
            proof {
                let t1 = keys.deep_view().take(i + 1);
                let t0 = keys.deep_view().take(i as int);
                let x = keys.deep_view()[i as int];
                assert(x == keys@[i as int]@);
                assert forall|a: Seq<char>| t1.to_set().contains(a) == t0.to_set().insert(
                    x,
                ).contains(a) by {
                    if t1.contains(a) {
                        let j = choose|j: int| 0 <= j < t1.len() && t1[j] == a;
                        if j < i {
                            assert(t0[j] == a);
                            assert(t0.contains(a));
                        } else {
                            assert(a == x);
                        }
                    }
                    if t0.contains(a) {
                        let j = choose|j: int| 0 <= j < t0.len() && t0[j] == a;
                        assert(t1[j] == a);
                        assert(t1.contains(a));
                    }
                    if a == x {
                        assert(t1[i as int] == a);
                        assert(t1.contains(a));
                    }
                }
                assert(t1.to_set() =~= t0.to_set().insert(x));
                assert(self.map() =~= pre_map.remove_keys(t1.to_set()));
            }
            i = i + 1;
        }
        proof {
            assert(keys.deep_view().take(keys@.len() as int) =~= keys.deep_view());
        }
    }
}

fn contains_str(keys: &Vec<String>, what: &str) -> (r: bool)
    ensures
        r == keys.deep_view().contains(what@),
{
    let mut i: usize = 0;
    while i < keys.len()
        invariant
            i <= keys@.len(),
            forall|j: int| 0 <= j < i ==> keys@[j]@ != what@,
        decreases keys@.len() - i,
    {
        if str_eq(keys[i].as_str(), what) {
            proof {
                assert(keys.deep_view()[i as int] == what@);
            }
            return true;
        }
        i = i + 1;
    }
    proof {
        assert forall|j: int| 0 <= j < keys.deep_view().len() implies #[trigger] keys.deep_view()[j]
            != what@ by {
            assert(keys.deep_view()[j] == keys@[j]@);
        }
    }
    false
}

/// The application state: the settings store and the memo caches,
/// constructed once at startup and handed to every command handler.
pub struct AppState {
    pub store: StoreData,
    pub cache: CacheData,
}

impl AppState {
    /// Fresh state: empty store, empty caches, nothing dirty.
    pub fn new() -> (r: AppState)
        ensures
            r.store.map() == Map::<Seq<char>, Seq<char>>::empty(),
            r.store.server_url@.len() == 0,
            r.store.user_name@.len() == 0,
            r.cache.wf(),
            r.cache.consistent(),
            r.cache.contents().len() == 0,
            r.cache.metas().len() == 0,
            !r.cache.is_all_memo_meta_updated,
    {
        AppState { store: StoreData::new(), cache: CacheData::new() }
    }

    /// Logs out: clears both identity fields and the settings mapping,
    /// empties both caches and resets the metadata dirty flag. The
    /// caller persists the emptied store; on-disk cache files of the
    /// prior namespace are left alone, ready for a later re-login.
    pub fn logout(&mut self)
        ensures
            final(self).store.map() == Map::<Seq<char>, Seq<char>>::empty(),
            final(self).store.server_url@.len() == 0,
            final(self).store.user_name@.len() == 0,
            final(self).cache.wf(),
            final(self).cache.consistent(),
            final(self).cache.contents().len() == 0,
            final(self).cache.metas().len() == 0,
            !final(self).cache.is_all_memo_meta_updated,
            forall|k: Seq<char>| final(self).cache.content_at(k) == None::<MemoDataCacheView>,
            forall|k: Seq<char>| final(self).cache.meta_at(k) == None::<MemoMetaView>,
    {
        self.store.server_url = String::new();
        self.store.user_name = String::new();
        dash_clear(&mut self.store.data);
        self.cache.memos.clear();
        self.cache.all_memo_meta.clear();
        self.cache.is_all_memo_meta_updated = false;
        proof {
            assert(self.cache.contents() =~= Seq::<(Seq<char>, MemoDataCacheView)>::empty());
            assert(self.cache.metas() =~= Seq::<(Seq<char>, MemoMetaView)>::empty());
        }
    }
}

} // verus!
