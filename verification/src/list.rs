//! Listing: filtering the metadata cache by tag, pinned state and
//! lifecycle state, sorting by display time descending, paginating,
//! and resolving the surviving names through the content cache.

use crate::cache::CacheData;
use crate::model::{clone_meta, memo_views, meta_views, Memo, MemoMeta, MemoMetaView, MemoState, MemoView};
use crate::strutil::{lemma_lex_leq_refl, lemma_lex_leq_total, lemma_lex_leq_trans, lex_leq, str_eq, str_lex_leq};
use vstd::prelude::*;

verus! {

broadcast use vstd::seq_lib::group_to_multiset_ensures, vstd::multiset::group_multiset_axioms;

/// Whether a metadata record passes the listing filters: its pinned
/// flag equals the requested one, its lifecycle state is Archived
/// exactly when requested (else Normal), and it carries the requested
/// tag when one is given (the empty tag filters nothing).
pub open spec fn spec_matches_filter(
    m: MemoMetaView,
    tag: Seq<char>,
    pinned: bool,
    archived: bool,
) -> bool {
    &&& m.pinned == pinned
    &&& (tag.len() == 0 || m.tags.contains(tag))
    &&& m.state == (if archived {
        MemoState::Archived
    } else {
        MemoState::Normal
    })
}

/// The metadata records of the cache, in iteration order.
pub open spec fn meta_values(c: CacheData) -> Seq<MemoMetaView> {
    Seq::new(c.metas().len(), |i: int| c.metas()[i].1)
}

/// The listing filters as a predicate on one record.
pub open spec fn filter_pred(tag: Seq<char>, pinned: bool, archived: bool) -> spec_fn(
    MemoMetaView,
) -> bool {
    |m: MemoMetaView| spec_matches_filter(m, tag, pinned, archived)
}

/// The metadata records surviving the listing filters, in iteration
/// order.
pub open spec fn spec_filtered(
    c: CacheData,
    tag: Seq<char>,
    pinned: bool,
    archived: bool,
) -> Seq<MemoMetaView> {
    meta_values(c).filter(filter_pred(tag, pinned, archived))
}

/// Descending order: `a` displays no earlier than `b`.
pub open spec fn display_ge(a: MemoMetaView, b: MemoMetaView) -> bool {
    lex_leq(b.display_time, a.display_time)
}

/// Sorted by display time, most recent first.
pub open spec fn sorted_desc(s: Seq<MemoMetaView>) -> bool {
    forall|i: int, j: int|
        0 <= i < j < s.len() ==> display_ge(#[trigger] s[i], #[trigger] s[j])
}

fn meta_matches_filter(m: &MemoMeta, tag: &str, pinned: bool, archived: bool) -> (r: bool)
    ensures
        r == spec_matches_filter(m@, tag@, pinned, archived),
{
    if m.pinned != pinned {
        return false;
    }
    let state_wanted = if archived {
        MemoState::Archived
    } else {
        MemoState::Normal
    };
    if m.state != state_wanted {
        return false;
    }
    if tag.unicode_len() == 0 {
        return true;
    }
    let mut i: usize = 0;
    while i < m.tags.len()
        invariant
            i <= m.tags@.len(),
            m@.pinned == pinned,
            m@.state == (if archived { MemoState::Archived } else { MemoState::Normal }),
            tag@.len() > 0,
            forall|j: int| 0 <= j < i ==> m.tags@[j]@ != tag@,
        decreases m.tags@.len() - i,
    {
        if str_eq(m.tags[i].as_str(), tag) {
            proof {
                assert(m@.tags[i as int] == m.tags@[i as int]@);
                assert(m@.tags[i as int] == tag@);
                assert(m@.tags.contains(tag@));
            }
            return true;
        }
        i = i + 1;
    }
    proof {
        assert forall|j: int| 0 <= j < m@.tags.len() implies #[trigger] m@.tags[j] != tag@ by {
            assert(m@.tags[j] == m.tags@[j]@);
        }
        assert(!m@.tags.contains(tag@));
    }
    false
}

/// Collects the metadata records that pass the filters, in cache
/// order.
fn filter_metas(c: &CacheData, tag: &str, pinned: bool, archived: bool) -> (r: Vec<MemoMeta>)
    ensures
        meta_views(r@) == spec_filtered(*c, tag@, pinned, archived),
{
    let ghost vals = meta_values(*c);
    let ghost pred = filter_pred(tag@, pinned, archived);
    let v = &c.all_memo_meta;
    let mut out: Vec<MemoMeta> = Vec::new();
    let mut i: usize = 0;
    proof {
        assert(vals.take(0) =~= Seq::<MemoMetaView>::empty());
        reveal(Seq::filter);
        assert(meta_views(out@) =~= vals.take(0).filter(pred));
    }
    while i < v.len()
        invariant
            i <= v@.len(),
            v == &c.all_memo_meta,
            vals == meta_values(*c),
            vals.len() == v@.len(),
            pred == filter_pred(tag@, pinned, archived),
            meta_views(out@) == vals.take(i as int).filter(pred),
        decreases v@.len() - i,
    {
        let keep = meta_matches_filter(&v[i].1, tag, pinned, archived);
        proof {
            reveal(Seq::filter);
            assert(vals.take(i + 1).drop_last() =~= vals.take(i as int));
            assert(vals.take(i + 1).last() == vals[i as int]);
            assert(vals[i as int] == c.metas()[i as int].1);
            assert(vals[i as int] == v@[i as int].1@);
        }
        if keep {
            out.push(clone_meta(&v[i].1));
            proof {
                assert(meta_views(out@) =~= vals.take(i as int).filter(pred).push(
                    vals[i as int],
                ));
            }
        }
        i = i + 1;
    }
    proof {
        assert(vals.take(vals.len() as int) =~= vals);
    }
    out
}

/// Sorts metadata records by display time, most recent first, by
/// selection: the result is a permutation of the input.
fn sort_metas_desc(v: Vec<MemoMeta>) -> (r: Vec<MemoMeta>)
    ensures
        meta_views(r@).to_multiset() == meta_views(v@).to_multiset(),
        sorted_desc(meta_views(r@)),
{
    let mut input = v;
    let mut out: Vec<MemoMeta> = Vec::new();
    proof {
        assert(meta_views(out@).to_multiset().add(meta_views(input@).to_multiset()) =~= meta_views(
            v@,
        ).to_multiset());
    }
    while input.len() > 0
        invariant
            meta_views(out@).to_multiset().add(meta_views(input@).to_multiset()) == meta_views(
                v@,
            ).to_multiset(),
            sorted_desc(meta_views(out@)),
            forall|a: int, b: int|
                0 <= a < meta_views(out@).len() && 0 <= b < meta_views(input@).len()
                    ==> display_ge(#[trigger] meta_views(out@)[a], #[trigger] meta_views(input@)[b]),
        decreases input@.len(),
    {
        let mut mi: usize = 0;
        let mut j: usize = 1;
        proof {
            lemma_lex_leq_refl(meta_views(input@)[0].display_time);
        }
        while j < input.len()
            invariant
                input@.len() > 0,
                mi < j <= input@.len(),
                forall|k: int|
                    0 <= k < j ==> display_ge(meta_views(input@)[mi as int], #[trigger] meta_views(
                        input@,
                    )[k]),
            decreases input@.len() - j,
        {
            if !str_lex_leq(input[j].display_time.as_str(), input[mi].display_time.as_str()) {
                proof {
                    lemma_lex_leq_total(input@[j as int]@.display_time, input@[mi as int]@.display_time);
                    assert forall|k: int|
                        0 <= k < j + 1 implies display_ge(meta_views(input@)[j as int],
                    #[trigger] meta_views(input@)[k]) by {
                        if k == j {
                            lemma_lex_leq_refl(meta_views(input@)[j as int].display_time);
                        } else {
                            lemma_lex_leq_trans(
                                meta_views(input@)[k].display_time,
                                meta_views(input@)[mi as int].display_time,
                                meta_views(input@)[j as int].display_time,
                            );
                        }
                    }
                }
                mi = j;
            } else {
                proof {
                    assert(display_ge(meta_views(input@)[mi as int], meta_views(input@)[j as int]));
                }
            }
            j = j + 1;
        }
        let ghost pre_input = input@;
        let ghost pre_out = out@;
        let x = input.remove(mi);
        out.push(x);
        proof {
            assert(meta_views(input@) =~= meta_views(pre_input).remove(mi as int));
            assert(meta_views(out@) =~= meta_views(pre_out).push(meta_views(pre_input)[mi as int]));
            let xv = meta_views(pre_input)[mi as int];
            assert(meta_views(pre_input).remove(mi as int).to_multiset() =~= meta_views(
                pre_input,
            ).to_multiset().remove(xv));
            assert(meta_views(input@).to_multiset() =~= meta_views(pre_input).to_multiset().remove(
                xv,
            ));
            assert(meta_views(pre_out).push(xv).to_multiset() =~= meta_views(
                pre_out,
            ).to_multiset().insert(xv));
            assert(meta_views(out@).to_multiset() =~= meta_views(pre_out).to_multiset().insert(xv));
            assert(meta_views(pre_input).to_multiset().count(xv) > 0);
            assert(meta_views(out@).to_multiset().add(meta_views(input@).to_multiset())
                =~= meta_views(pre_out).to_multiset().add(meta_views(pre_input).to_multiset()));
            assert forall|a: int, b: int|
                0 <= a < meta_views(out@).len() && 0 <= b < meta_views(input@).len()
                    implies display_ge(#[trigger] meta_views(out@)[a], #[trigger] meta_views(
                input@,
            )[b]) by {
                let b2 = if b < mi {
                    b
                } else {
                    b + 1
                };
                assert(meta_views(input@)[b] == meta_views(pre_input)[b2]);
                if a < meta_views(pre_out).len() {
                    assert(meta_views(out@)[a] == meta_views(pre_out)[a]);
                } else {
                    assert(meta_views(out@)[a] == xv);
                }
            }
            assert forall|a: int, b: int|
                0 <= a < b < meta_views(out@).len() implies display_ge(
                #[trigger] meta_views(out@)[a],
                #[trigger] meta_views(out@)[b],
            ) by {
                if b < meta_views(pre_out).len() {
                    assert(meta_views(out@)[a] == meta_views(pre_out)[a]);
                    assert(meta_views(out@)[b] == meta_views(pre_out)[b]);
                } else {
                    assert(meta_views(out@)[b] == xv);
                    assert(meta_views(out@)[a] == meta_views(pre_out)[a]);
                }
            }
        }
    }
    proof {
        assert(meta_views(input@).to_multiset().len() == 0);
        assert(meta_views(out@).to_multiset().add(meta_views(input@).to_multiset()) =~= meta_views(
            out@,
        ).to_multiset());
    }
    out
}

/// The names of a sequence of metadata records, in order.
pub open spec fn names_of(s: Seq<MemoMetaView>) -> Seq<Seq<char>> {
    Seq::new(s.len(), |i: int| s[i].name)
}

/// Where the page window ends: `offset + limit`, cut to the sequence.
pub open spec fn spec_window_end(len: int, offset: int, limit: int) -> int {
    if offset + limit <= len {
        offset + limit
    } else {
        len
    }
}

/// Resolving names through the content cache: each name that has a
/// content entry yields its memo, in order; missing names are skipped.
pub open spec fn spec_resolve(c: CacheData, names: Seq<Seq<char>>) -> Seq<MemoView>
    decreases names.len(),
{
    if names.len() == 0 {
        Seq::empty()
    } else {
        let rest = spec_resolve(c, names.drop_first());
        match c.content_at(names[0]) {
            Some(e) => seq![e.memo] + rest,
            None => rest,
        }
    }
}

/// A witness that `names` is the requested page: the names of the
/// window `[offset, offset + limit)` of some arrangement of the
/// filtered records that is sorted by display time descending.
pub open spec fn is_sorted_page(
    srt: Seq<MemoMetaView>,
    flt: Seq<MemoMetaView>,
    offset: int,
    limit: int,
    names: Seq<Seq<char>>,
) -> bool {
    &&& srt.to_multiset() == flt.to_multiset()
    &&& sorted_desc(srt)
    &&& names == names_of(srt.subrange(offset, spec_window_end(srt.len() as int, offset, limit)))
}

/// An element kept by a filter was in the sequence.
proof fn lemma_filter_subset<A>(s: Seq<A>, pred: spec_fn(A) -> bool, x: A)
    requires
        s.filter(pred).contains(x),
    ensures
        s.contains(x),
    decreases s.len(),
{
    reveal(Seq::filter);
    if s.len() > 0 {
        if pred(s.last()) && s.last() == x {
            assert(s[s.len() - 1] == x);
        } else {
            let sub = s.drop_last().filter(pred);
            assert(sub.contains(x));
            lemma_filter_subset(s.drop_last(), pred, x);
            let i = choose|i: int| 0 <= i < s.drop_last().len() && s.drop_last()[i] == x;
            assert(s[i] == x);
        }
    }
}

/// Every resolved memo comes from the content entry of one of the
/// names.
proof fn lemma_resolve_elements(c: CacheData, names: Seq<Seq<char>>, i: int)
    requires
        0 <= i < spec_resolve(c, names).len(),
    ensures
        exists|j: int|
            0 <= j < names.len() && #[trigger] c.content_at(names[j]) is Some && spec_resolve(
                c,
                names,
            )[i] == c.content_at(names[j]).unwrap().memo,
    decreases names.len(),
{
    let rest = spec_resolve(c, names.drop_first());
    match c.content_at(names[0]) {
        Some(e) => {
            if i == 0 {
                assert(spec_resolve(c, names)[0] == e.memo);
                assert(c.content_at(names[0]) is Some && spec_resolve(c, names)[0]
                    == c.content_at(names[0]).unwrap().memo);
            } else {
                lemma_resolve_elements(c, names.drop_first(), i - 1);
                let j = choose|j: int|
                    0 <= j < names.drop_first().len() && #[trigger] c.content_at(
                        names.drop_first()[j],
                    ) is Some && rest[i - 1] == c.content_at(names.drop_first()[j]).unwrap().memo;
                assert(names.drop_first()[j] == names[j + 1]);
                assert(spec_resolve(c, names)[i] == rest[i - 1]);
                assert(c.content_at(names[j + 1]) is Some && spec_resolve(c, names)[i]
                    == c.content_at(names[j + 1]).unwrap().memo);
            }
        },
        None => {
            lemma_resolve_elements(c, names.drop_first(), i);
            let j = choose|j: int|
                0 <= j < names.drop_first().len() && #[trigger] c.content_at(
                    names.drop_first()[j],
                ) is Some && rest[i] == c.content_at(names.drop_first()[j]).unwrap().memo;
            assert(names.drop_first()[j] == names[j + 1]);
            assert(spec_resolve(c, names) == rest);
            assert(c.content_at(names[j + 1]) is Some && spec_resolve(c, names)[i]
                == c.content_at(names[j + 1]).unwrap().memo);
        },
    }
}

/// Resolution keeps order: when the contents the names resolve to are
/// pairwise sorted by display time descending, so is the resolved
/// sequence.
proof fn lemma_resolve_sorted(c: CacheData, names: Seq<Seq<char>>)
    requires
        forall|j1: int, j2: int|
            #![trigger c.content_at(names[j1]), c.content_at(names[j2])]
            0 <= j1 < j2 < names.len() && c.content_at(names[j1]) is Some && c.content_at(
                names[j2],
            ) is Some ==> lex_leq(
                c.content_at(names[j2]).unwrap().memo.display_time,
                c.content_at(names[j1]).unwrap().memo.display_time,
            ),
    ensures
        forall|i1: int, i2: int|
            0 <= i1 < i2 < spec_resolve(c, names).len() ==> lex_leq(
                (#[trigger] spec_resolve(c, names)[i2]).display_time,
                (#[trigger] spec_resolve(c, names)[i1]).display_time,
            ),
    decreases names.len(),
{
    if names.len() > 0 {
        let rest_names = names.drop_first();
        assert forall|j1: int, j2: int|
            0 <= j1 < j2 < rest_names.len() && #[trigger] c.content_at(rest_names[j1]) is Some
                && #[trigger] c.content_at(rest_names[j2]) is Some implies lex_leq(
            c.content_at(rest_names[j2]).unwrap().memo.display_time,
            c.content_at(rest_names[j1]).unwrap().memo.display_time,
        ) by {
            assert(rest_names[j1] == names[j1 + 1]);
            assert(rest_names[j2] == names[j2 + 1]);
        }
        lemma_resolve_sorted(c, rest_names);
        let rest = spec_resolve(c, rest_names);
        match c.content_at(names[0]) {
            Some(e) => {
                let whole = spec_resolve(c, names);
                assert(whole == seq![e.memo] + rest);
                assert forall|i1: int, i2: int|
                    0 <= i1 < i2 < whole.len() implies lex_leq(
                    (#[trigger] whole[i2]).display_time,
                    (#[trigger] whole[i1]).display_time,
                ) by {
                    assert(whole[i2] == rest[i2 - 1]);
                    lemma_resolve_elements(c, rest_names, i2 - 1);
                    let j = choose|j: int|
                        0 <= j < rest_names.len() && #[trigger] c.content_at(
                            rest_names[j],
                        ) is Some && rest[i2 - 1] == c.content_at(rest_names[j]).unwrap().memo;
                    if i1 == 0 {
                        assert(rest_names[j] == names[j + 1]);
                        assert(c.content_at(names[0]) is Some && c.content_at(
                            names[j + 1],
                        ) is Some);
                        assert(lex_leq(
                            c.content_at(names[j + 1]).unwrap().memo.display_time,
                            e.memo.display_time,
                        ));
                    } else {
                        assert(whole[i1] == rest[i1 - 1]);
                    }
                }
            },
            None => {
                assert(spec_resolve(c, names) == rest);
            },
        }
    }
}

impl CacheData {
    /// The filter, sort and paginate steps of listing: the names of
    /// the requested page, most recently displayed first. Absence is
    /// the "no more results" signal; it comes exactly when the window
    /// is empty. Ties in display time keep an arbitrary stable order
    /// that callers must not rely on.
    #[verifier::rlimit(30)]
    pub fn list_names(&self, offset: usize, limit: usize, tag: &str, pinned: bool, archived: bool) -> (r: Option<Vec<String>>)
        ensures
            r is None ==> spec_filtered(*self, tag@, pinned, archived).len() <= offset || limit
                == 0,
            r is Some ==> offset < spec_filtered(*self, tag@, pinned, archived).len() && limit > 0
                && r.unwrap()@.len() <= limit,
            r is Some ==> exists|srt: Seq<MemoMetaView>| #[trigger] is_sorted_page(
                srt,
                spec_filtered(*self, tag@, pinned, archived),
                offset as int,
                limit as int,
                r.unwrap().deep_view(),
            ),
    {
        let filtered = filter_metas(self, tag, pinned, archived);
        let ghost flt = spec_filtered(*self, tag@, pinned, archived);
        let sorted = sort_metas_desc(filtered);
        let ghost srt = meta_views(sorted@);
        proof {
            assert(srt.len() == srt.to_multiset().len());
            assert(flt.len() == flt.to_multiset().len());
        }
        if limit == 0 || offset >= sorted.len() {
            return None;
        }
        let end = if limit < sorted.len() - offset {
            offset + limit
        } else {
            sorted.len()
        };
        proof {
            assert(end as int == spec_window_end(srt.len() as int, offset as int, limit as int));
        }
        let mut names: Vec<String> = Vec::new();
        let mut k: usize = offset;
        while k < end
            invariant
                offset <= k <= end <= sorted@.len(),
                names@.len() == k - offset,
                forall|j: int|
                    0 <= j < names@.len() ==> #[trigger] names@[j]@ == meta_views(
                        sorted@,
                    )[offset + j].name,
            decreases end - k,
        {
            names.push(sorted[k].name.clone());
            k = k + 1;
        }
        proof {
            assert(names.deep_view() =~= names_of(srt.subrange(offset as int, end as int)));
            assert(is_sorted_page(
                srt,
                spec_filtered(*self, tag@, pinned, archived),
                offset as int,
                limit as int,
                names.deep_view(),
            ));
            assert(offset < spec_filtered(*self, tag@, pinned, archived).len());
            assert(names@.len() <= limit);
        }
        let r = Some(names);
        proof {
            assert(is_sorted_page(
                srt,
                spec_filtered(*self, tag@, pinned, archived),
                offset as int,
                limit as int,
                r.unwrap().deep_view(),
            ));
        }
        r
    }

    /// Lists memos: filters the metadata cache by tag, pinned state
    /// and lifecycle state, sorts by display time descending, takes
    /// the `[offset, offset + limit)` window, and resolves each name
    /// through the content cache, skipping names whose content is
    /// unexpectedly missing. Absence means the window was empty. When
    /// the caches are consistent, every returned memo carries the
    /// requested pinned flag and lifecycle state.
    pub fn get_memo_list(
        &self,
        offset: usize,
        limit: usize,
        tag: String,
        pinned: bool,
        archived: bool,
    ) -> (r: Option<Vec<Memo>>)
        requires
            self.wf(),
        ensures
            match r {
                None => spec_filtered(*self, tag@, pinned, archived).len() <= offset || limit
                    == 0,
                Some(v) => {
                    &&& offset < spec_filtered(*self, tag@, pinned, archived).len()
                    &&& limit > 0
                    &&& v@.len() <= limit
                    &&& exists|srt: Seq<MemoMetaView>| #![auto] {
                        &&& srt.to_multiset() == spec_filtered(
                            *self,
                            tag@,
                            pinned,
                            archived,
                        ).to_multiset()
                        &&& sorted_desc(srt)
                        &&& memo_views(v@) == spec_resolve(
                            *self,
                            names_of(
                                srt.subrange(
                                    offset as int,
                                    spec_window_end(srt.len() as int, offset as int, limit as int),
                                ),
                            ),
                        )
                    }
                    &&& (self.consistent() ==> forall|i: int|
                        0 <= i < v@.len() ==> (#[trigger] memo_views(v@)[i]).pinned == pinned && (
                        (memo_views(v@)[i].state == MemoState::Archived) <==> archived))
                    &&& (self.consistent() ==> forall|i1: int, i2: int|
                        0 <= i1 < i2 < v@.len() ==> lex_leq(
                            (#[trigger] memo_views(v@)[i2]).display_time,
                            (#[trigger] memo_views(v@)[i1]).display_time,
                        ))
                },
            },
    {
        match self.list_names(offset, limit, tag.as_str(), pinned, archived) {
            None => None,
            Some(names) => {
                let ghost nv = names.deep_view();
                let mut out: Vec<Memo> = Vec::new();
                let mut i: usize = 0;
                proof {
                    assert(nv.skip(0) =~= nv);
                    assert(memo_views(out@) + spec_resolve(*self, nv) =~= spec_resolve(
                        *self,
                        nv,
                    ));
                }
                while i < names.len()
                    invariant
                        self.wf(),
                        i <= names@.len(),
                        nv == names.deep_view(),
                        out@.len() <= i,
                        spec_resolve(*self, nv) == memo_views(out@) + spec_resolve(
                            *self,
                            nv.skip(i as int),
                        ),
                    decreases names@.len() - i,
                {
                    let ghost s = nv.skip(i as int);
                    proof {
                        assert(s[0] == nv[i as int]);
                        assert(s.drop_first() =~= nv.skip(i + 1));
                        assert(nv[i as int] == names@[i as int]@);
                    }
                    match self.get_memo(names[i].as_str()) {
                        Some(m) => {
                            out.push(m);
                            proof {
                                assert(spec_resolve(*self, s) == seq![
                                    self.content_at(s[0]).unwrap().memo,
                                ] + spec_resolve(*self, nv.skip(i + 1)));
                                assert(memo_views(out@) + spec_resolve(*self, nv.skip(i + 1))
                                    =~= memo_views(out@.drop_last()) + spec_resolve(*self, s));
                            }
                        },
                        None => {
                            proof {
                                assert(spec_resolve(*self, s) == spec_resolve(
                                    *self,
                                    nv.skip(i + 1),
                                ));
                            }
                        },
                    }
                    i = i + 1;
                }
                proof {
                    assert(spec_resolve(*self, nv.skip(names@.len() as int)).len() == 0);
                    assert(memo_views(out@) + spec_resolve(*self, nv.skip(names@.len() as int))
                        =~= memo_views(out@));
                    let flt = spec_filtered(*self, tag@, pinned, archived);
                    let srt = choose|srt: Seq<MemoMetaView>| #[trigger] is_sorted_page(
                        srt,
                        spec_filtered(*self, tag@, pinned, archived),
                        offset as int,
                        limit as int,
                        nv,
                    );
                    assert(is_sorted_page(srt, flt, offset as int, limit as int, nv));
                    assert(srt.to_multiset().len() == srt.len());
                    assert(flt.to_multiset().len() == flt.len());
                    assert(srt.len() == flt.len());
                    assert(offset < srt.len());
                    let end = spec_window_end(srt.len() as int, offset as int, limit as int);
                    let w = srt.subrange(offset as int, end);
                    assert(nv == names_of(w));
                    if self.consistent() {
                        assert forall|j: int| 0 <= j < nv.len() implies #[trigger] self.meta_at(
                            nv[j],
                        ) == Some(w[j]) && spec_matches_filter(w[j], tag@, pinned, archived) by {
                            let mm = w[j];
                            assert(nv[j] == mm.name);
                            assert(mm == srt[offset + j]);
                            assert(srt.contains(mm));
                            assert(srt.to_multiset().count(mm) > 0);
                            assert(flt.contains(mm));
                            let k0 = choose|k0: int| 0 <= k0 < flt.len() && flt[k0] == mm;
                            meta_values(*self).lemma_filter_pred(
                                filter_pred(tag@, pinned, archived),
                                k0,
                            );
                            assert(spec_matches_filter(mm, tag@, pinned, archived));
                            lemma_filter_subset(
                                meta_values(*self),
                                filter_pred(tag@, pinned, archived),
                                mm,
                            );
                            let k1 = choose|k1: int|
                                0 <= k1 < meta_values(*self).len() && meta_values(*self)[k1]
                                    == mm;
                            assert(self.metas()[k1].1 == mm);
                            assert(self.metas()[k1].0 == mm.name);
                            crate::cache::lemma_assoc_at_index(self.metas(), k1);
                            assert(self.meta_at(mm.name) == Some(mm));
                        }
                        assert forall|i2: int|
                            0 <= i2 < out@.len() implies (#[trigger] memo_views(out@)[i2]).pinned
                            == pinned && ((memo_views(out@)[i2].state == MemoState::Archived)
                            <==> archived) by {
                            lemma_resolve_elements(*self, nv, i2);
                            let j = choose|j: int|
                                0 <= j < nv.len() && #[trigger] self.content_at(nv[j]) is Some
                                    && spec_resolve(*self, nv)[i2] == self.content_at(
                                    nv[j],
                                ).unwrap().memo;
                            assert(self.meta_at(nv[j]) == Some(w[j]));
                            assert(spec_matches_filter(w[j], tag@, pinned, archived));
                        }
                        assert forall|j1: int, j2: int|
                            #![trigger self.content_at(nv[j1]), self.content_at(nv[j2])]
                            0 <= j1 < j2 < nv.len() && self.content_at(nv[j1]) is Some
                                && self.content_at(nv[j2]) is Some implies lex_leq(
                            self.content_at(nv[j2]).unwrap().memo.display_time,
                            self.content_at(nv[j1]).unwrap().memo.display_time,
                        ) by {
                            assert(self.meta_at(nv[j1]) == Some(w[j1]));
                            assert(self.meta_at(nv[j2]) == Some(w[j2]));
                            assert(w[j1] == srt[offset + j1]);
                            assert(w[j2] == srt[offset + j2]);
                            assert(display_ge(srt[offset + j1], srt[offset + j2]));
                        }
                        lemma_resolve_sorted(*self, nv);
                        assert forall|i1: int, i2: int|
                            0 <= i1 < i2 < out@.len() implies lex_leq(
                            (#[trigger] memo_views(out@)[i2]).display_time,
                            (#[trigger] memo_views(out@)[i1]).display_time,
                        ) by {
                            assert(memo_views(out@)[i1] == spec_resolve(*self, nv)[i1]);
                            assert(memo_views(out@)[i2] == spec_resolve(*self, nv)[i2]);
                        }
                    }
                }
                Some(out)
            },
        }
    }
}

} // verus!
