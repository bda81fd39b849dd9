//! The data model: memo records, their metadata projection used for
//! listing, and link previews.

use vstd::prelude::*;

verus! {

/// Lifecycle state of a memo, used by the listing filters.
#[derive(Clone, Copy, Debug, PartialEq, Eq, Structural)]
pub enum MemoState {
    Normal,
    Archived,
}

/// A note record. The unique key is `name`; the three timestamps are
/// opaque sortable strings; attachments are carried as opaque
/// identifier lists. Equality is structural (see [`memo_eq`]).
#[derive(Clone, Debug, PartialEq)]
pub struct Memo {
    pub name: String,
    pub create_time: String,
    pub update_time: String,
    pub display_time: String,
    pub visibility: String,
    pub content: String,
    pub pinned: bool,
    pub resources: Vec<String>,
    pub relations: Vec<String>,
    pub reactions: Vec<String>,
    pub tags: Vec<String>,
    pub state: MemoState,
}

/// The mathematical value of a [`Memo`].
#[verifier::ext_equal]
pub ghost struct MemoView {
    pub name: Seq<char>,
    pub create_time: Seq<char>,
    pub update_time: Seq<char>,
    pub display_time: Seq<char>,
    pub visibility: Seq<char>,
    pub content: Seq<char>,
    pub pinned: bool,
    pub resources: Seq<Seq<char>>,
    pub relations: Seq<Seq<char>>,
    pub reactions: Seq<Seq<char>>,
    pub tags: Seq<Seq<char>>,
    pub state: MemoState,
}

impl View for Memo {
    type V = MemoView;

    open spec fn view(&self) -> MemoView {
        MemoView {
            name: self.name@,
            create_time: self.create_time@,
            update_time: self.update_time@,
            display_time: self.display_time@,
            visibility: self.visibility@,
            content: self.content@,
            pinned: self.pinned,
            resources: self.resources.deep_view(),
            relations: self.relations.deep_view(),
            reactions: self.reactions.deep_view(),
            tags: self.tags.deep_view(),
            state: self.state,
        }
    }
}

/// The projection of a memo that listing works on, so filtering and
/// sorting never load full content.
#[derive(Clone, Debug, PartialEq)]
pub struct MemoMeta {
    pub name: String,
    pub create_time: String,
    pub update_time: String,
    pub display_time: String,
    pub visibility: String,
    pub pinned: bool,
    pub tags: Vec<String>,
    pub state: MemoState,
}

/// The mathematical value of a [`MemoMeta`].
#[verifier::ext_equal]
pub ghost struct MemoMetaView {
    pub name: Seq<char>,
    pub create_time: Seq<char>,
    pub update_time: Seq<char>,
    pub display_time: Seq<char>,
    pub visibility: Seq<char>,
    pub pinned: bool,
    pub tags: Seq<Seq<char>>,
    pub state: MemoState,
}

impl View for MemoMeta {
    type V = MemoMetaView;

    open spec fn view(&self) -> MemoMetaView {
        MemoMetaView {
            name: self.name@,
            create_time: self.create_time@,
            update_time: self.update_time@,
            display_time: self.display_time@,
            visibility: self.visibility@,
            pinned: self.pinned,
            tags: self.tags.deep_view(),
            state: self.state,
        }
    }
}

/// The metadata a memo stored under a given name projects to.
pub open spec fn spec_meta_of(name: Seq<char>, m: MemoView) -> MemoMetaView {
    MemoMetaView {
        name: name,
        create_time: m.create_time,
        update_time: m.update_time,
        display_time: m.display_time,
        visibility: m.visibility,
        pinned: m.pinned,
        tags: m.tags,
        state: m.state,
    }
}

/// A best-effort link preview, assembled elsewhere; only carried here.
#[derive(Clone, Debug, PartialEq)]
pub struct LinkInfo {
    pub title: Option<String>,
    pub content: Option<String>,
    pub url: String,
    pub description: Option<String>,
}

/// The mathematical values of a sequence of memos.
pub open spec fn memo_views(s: Seq<Memo>) -> Seq<MemoView> {
    Seq::new(s.len(), |i: int| s[i]@)
}

/// The mathematical values of a sequence of metadata records.
pub open spec fn meta_views(s: Seq<MemoMeta>) -> Seq<MemoMetaView> {
    Seq::new(s.len(), |i: int| s[i]@)
}

/// Clones a vector of strings, keeping its mathematical value.
pub fn clone_string_vec(v: &Vec<String>) -> (r: Vec<String>)
    ensures
        r.deep_view() == v.deep_view(),
{
    let mut out: Vec<String> = Vec::new();
    let mut i: usize = 0;
    while i < v.len()
        invariant
            i <= v.len(),
            out@.len() == i,
            forall|j: int| 0 <= j < i ==> out@[j]@ == v@[j]@,
        decreases v.len() - i,
    {
        out.push(v[i].clone());
        i = i + 1;
    }
    proof {
        assert forall|j: int| 0 <= j < v@.len() implies out.deep_view()[j]
            == v.deep_view()[j] by {
            assert(out@[j]@ == v@[j]@);
        }
        assert(out.deep_view() =~= v.deep_view());
    }
    out
}

/// Clones a memo, keeping its mathematical value.
pub fn clone_memo(m: &Memo) -> (r: Memo)
    ensures
        r@ == m@,
{
    Memo {
        name: m.name.clone(),
        create_time: m.create_time.clone(),
        update_time: m.update_time.clone(),
        display_time: m.display_time.clone(),
        visibility: m.visibility.clone(),
        content: m.content.clone(),
        pinned: m.pinned,
        resources: clone_string_vec(&m.resources),
        relations: clone_string_vec(&m.relations),
        reactions: clone_string_vec(&m.reactions),
        tags: clone_string_vec(&m.tags),
        state: m.state,
    }
}

/// Clones a metadata record, keeping its mathematical value.
pub fn clone_meta(m: &MemoMeta) -> (r: MemoMeta)
    ensures
        r@ == m@,
{
    MemoMeta {
        name: m.name.clone(),
        create_time: m.create_time.clone(),
        update_time: m.update_time.clone(),
        display_time: m.display_time.clone(),
        visibility: m.visibility.clone(),
        pinned: m.pinned,
        tags: clone_string_vec(&m.tags),
        state: m.state,
    }
}

/// Computes the metadata projection of a memo stored under `name`.
pub fn meta_of_memo(name: &String, memo: &Memo) -> (r: MemoMeta)
    ensures
        r@ == spec_meta_of(name@, memo@),
{
    MemoMeta {
        name: name.clone(),
        create_time: memo.create_time.clone(),
        update_time: memo.update_time.clone(),
        display_time: memo.display_time.clone(),
        visibility: memo.visibility.clone(),
        pinned: memo.pinned,
        tags: clone_string_vec(&memo.tags),
        state: memo.state,
    }
}

/// Decides equality of two string vectors by value.
pub fn string_vec_eq(a: &Vec<String>, b: &Vec<String>) -> (r: bool)
    ensures
        r == (a.deep_view() == b.deep_view()),
{
    if a.len() != b.len() {
        proof {
            assert(a.deep_view().len() != b.deep_view().len());
        }
        return false;
    }
    let mut i: usize = 0;
    while i < a.len()
        invariant
            a.len() == b.len(),
            i <= a.len(),
            forall|j: int| 0 <= j < i ==> a.deep_view()[j] == b.deep_view()[j],
        decreases a.len() - i,
    {
        if !(a[i].eq(&b[i])) {
            proof {
                assert(a.deep_view()[i as int] != b.deep_view()[i as int]);
            }
            return false;
        }
        i = i + 1;
    }
    proof {
        assert(a.deep_view() =~= b.deep_view());
    }
    true
}

/// Decides structural equality of two memos.
pub fn memo_eq(a: &Memo, b: &Memo) -> (r: bool)
    ensures
        r == (a@ == b@),
{
    let r = a.name == b.name && a.create_time == b.create_time && a.update_time == b.update_time
        && a.display_time == b.display_time && a.visibility == b.visibility && a.content
        == b.content && a.pinned == b.pinned && a.state == b.state && string_vec_eq(
        &a.resources,
        &b.resources,
    ) && string_vec_eq(&a.relations, &b.relations) && string_vec_eq(&a.reactions, &b.reactions)
        && string_vec_eq(&a.tags, &b.tags);
    r
}

/// Decides structural equality of two metadata records.
pub fn meta_eq(a: &MemoMeta, b: &MemoMeta) -> (r: bool)
    ensures
        r == (a@ == b@),
{
    let r = a.name == b.name && a.create_time == b.create_time && a.update_time == b.update_time
        && a.display_time == b.display_time && a.visibility == b.visibility && a.pinned == b.pinned
        && a.state == b.state && string_vec_eq(&a.tags, &b.tags);
    r
}

} // verus!
