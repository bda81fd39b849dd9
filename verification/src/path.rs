//! Sanitization of untrusted identifiers into safe, bounded filesystem
//! path components, and derivation of the per-login cache namespace.

use crate::strutil::{chars_to_string, push_char};
use vstd::prelude::*;
use vstd::string::StringExecFns;

verus! {

/// A character that may not appear in a filesystem path component.
pub open spec fn is_special_char(c: char) -> bool {
    c == '<' || c == '>' || c == ':' || c == '"' || c == '/' || c == '\\' || c == '|' || c == '?'
        || c == '*'
}

/// A Unicode whitespace character (the `White_Space` property, the set
/// `char::is_whitespace` recognizes).
pub open spec fn is_ws_char(c: char) -> bool {
    let u = c as u32;
    (0x9 <= u && u <= 0xD) || u == 0x20 || u == 0x85 || u == 0xA0 || u == 0x1680 || (0x2000 <= u
        && u <= 0x200A) || u == 0x2028 || u == 0x2029 || u == 0x202F || u == 0x205F || u == 0x3000
}

/// Stage one: each filesystem-hostile character becomes an underscore.
pub open spec fn spec_mask_special(s: Seq<char>) -> Seq<char> {
    s.map_values(|c: char| if is_special_char(c) { '_' } else { c })
}

/// Stage two: each `..` pair becomes a single underscore, scanning left
/// to right without overlap, as `str::replace` does.
pub open spec fn spec_fold_dot_dot(s: Seq<char>) -> Seq<char>
    decreases s.len(),
{
    if s.len() < 2 {
        s
    } else if s[0] == '.' && s[1] == '.' {
        seq!['_'] + spec_fold_dot_dot(s.skip(2))
    } else {
        seq![s[0]] + spec_fold_dot_dot(s.skip(1))
    }
}

/// Stage three, first half: leading dots are stripped.
pub open spec fn spec_trim_leading_dots(s: Seq<char>) -> Seq<char>
    decreases s.len(),
{
    if s.len() > 0 && s[0] == '.' {
        spec_trim_leading_dots(s.drop_first())
    } else {
        s
    }
}

/// Stage three, second half: trailing dots are stripped.
pub open spec fn spec_trim_trailing_dots(s: Seq<char>) -> Seq<char>
    decreases s.len(),
{
    if s.len() > 0 && s.last() == '.' {
        spec_trim_trailing_dots(s.drop_last())
    } else {
        s
    }
}

/// Stage four: the words of the string (maximal runs free of
/// whitespace) joined by single underscores, as splitting on whitespace
/// and rejoining does. Leading and trailing whitespace vanishes.
pub open spec fn spec_join_words(s: Seq<char>) -> Seq<char>
    decreases s.len(), 1int,
{
    if s.len() == 0 {
        Seq::empty()
    } else if is_ws_char(s[0]) {
        spec_join_words(s.drop_first())
    } else {
        seq![s[0]] + spec_join_words_in_word(s.drop_first())
    }
}

/// Continuation of [`spec_join_words`] inside a word: whitespace after
/// the word turns into one separating underscore, unless no further
/// word follows.
pub open spec fn spec_join_words_in_word(s: Seq<char>) -> Seq<char>
    decreases s.len(), 0int,
{
    if s.len() == 0 {
        Seq::empty()
    } else if !is_ws_char(s[0]) {
        seq![s[0]] + spec_join_words_in_word(s.drop_first())
    } else {
        let rest = spec_join_words(s.drop_first());
        if rest.len() == 0 {
            Seq::empty()
        } else {
            seq!['_'] + rest
        }
    }
}

/// Stage five: every run of consecutive underscores collapses to one.
pub open spec fn spec_squeeze_underscores(s: Seq<char>) -> Seq<char>
    decreases s.len(),
{
    if s.len() < 2 {
        s
    } else if s[0] == '_' && s[1] == '_' {
        spec_squeeze_underscores(s.drop_first())
    } else {
        seq![s[0]] + spec_squeeze_underscores(s.drop_first())
    }
}

/// What sanitization returns: the masking, folding, trimming, joining
/// and squeezing stages in order, cut down to at most 255 characters.
pub open spec fn spec_sanitize(s: Seq<char>) -> Seq<char> {
    let joined = spec_join_words(
        spec_trim_trailing_dots(
            spec_trim_leading_dots(spec_fold_dot_dot(spec_mask_special(s))),
        ),
    );
    let squeezed = spec_squeeze_underscores(joined);
    if squeezed.len() <= 255 {
        squeezed
    } else {
        squeezed.take(255)
    }
}

fn mask_special_char(c: char) -> (r: char)
    ensures
        r == (if is_special_char(c) { '_' } else { c }),
{
    match c {
        '<' | '>' | ':' | '"' | '/' | '\\' | '|' | '?' | '*' => '_',
        _ => c,
    }
}

fn is_ws(c: char) -> (r: bool)
    ensures
        r == is_ws_char(c),
{
    let u = c as u32;
    (0x9 <= u && u <= 0xD) || u == 0x20 || u == 0x85 || u == 0xA0 || u == 0x1680 || (0x2000 <= u
        && u <= 0x200A) || u == 0x2028 || u == 0x2029 || u == 0x202F || u == 0x205F || u == 0x3000
}

fn mask_special(s: &str) -> (r: Vec<char>)
    ensures
        r@ == spec_mask_special(s@),
{
    let n = s.unicode_len();
    let mut out: Vec<char> = Vec::new();
    let mut i: usize = 0;
    while i < n
        invariant
            n == s@.len(),
            i <= n,
            out@ == spec_mask_special(s@.take(i as int)),
        decreases n - i,
    {
        let c = s.get_char(i);
        out.push(mask_special_char(c));
        proof {
            assert(out@ =~= spec_mask_special(s@.take(i + 1)));
        }
        i = i + 1;
    }
    proof {
        assert(s@.take(n as int) =~= s@);
    }
    out
}

fn fold_dot_dot(v: &Vec<char>) -> (r: Vec<char>)
    ensures
        r@ == spec_fold_dot_dot(v@),
{
    let n = v.len();
    let mut out: Vec<char> = Vec::new();
    let mut i: usize = 0;
    proof {
        assert(v@.skip(0) =~= v@);
        assert(out@ + spec_fold_dot_dot(v@) =~= spec_fold_dot_dot(v@));
    }
    while i < n
        invariant
            n == v@.len(),
            i <= n,
            spec_fold_dot_dot(v@) == out@ + spec_fold_dot_dot(v@.skip(i as int)),
        decreases n - i,
    {
        let ghost s = v@.skip(i as int);
        proof {
            assert(s[0] == v@[i as int]);
            if s.len() >= 2 {
                assert(s[1] == v@[i + 1]);
            }
        }
        if i + 1 < n && v[i] == '.' && v[i + 1] == '.' {
            out.push('_');
            proof {
                assert(s.skip(2) =~= v@.skip(i + 2));
                assert(spec_fold_dot_dot(s) == seq!['_'] + spec_fold_dot_dot(v@.skip(i + 2)));
                assert(spec_fold_dot_dot(v@) =~= out@ + spec_fold_dot_dot(v@.skip(i + 2)));
            }
            i = i + 2;
        } else {
            out.push(v[i]);
            proof {
                assert(s.skip(1) =~= v@.skip(i + 1));
                if s.len() == 1 {
                    assert(s =~= seq![s[0]] + spec_fold_dot_dot(v@.skip(i + 1)));
                }
                assert(spec_fold_dot_dot(s) == seq![s[0]] + spec_fold_dot_dot(v@.skip(i + 1)));
                assert(spec_fold_dot_dot(v@) =~= out@ + spec_fold_dot_dot(v@.skip(i + 1)));
            }
            i = i + 1;
        }
    }
    proof {
        assert(spec_fold_dot_dot(v@.skip(n as int)).len() == 0);
        assert(spec_fold_dot_dot(v@) =~= out@);
    }
    out
}

fn trim_dots(v: &Vec<char>) -> (r: Vec<char>)
    ensures
        r@ == spec_trim_trailing_dots(spec_trim_leading_dots(v@)),
{
    let n = v.len();
    let mut start: usize = 0;
    proof {
        assert(v@.skip(0) =~= v@);
    }
    while start < n && v[start] == '.'
        invariant
            n == v@.len(),
            start <= n,
            spec_trim_leading_dots(v@) == spec_trim_leading_dots(v@.skip(start as int)),
        decreases n - start,
    {
        proof {
            let s = v@.skip(start as int);
            assert(s[0] == v@[start as int]);
            assert(s.drop_first() =~= v@.skip(start + 1));
        }
        start = start + 1;
    }
    proof {
        let s = v@.skip(start as int);
        if start < n {
            assert(s[0] == v@[start as int]);
        }
        assert(spec_trim_leading_dots(s) == s);
    }
    let mut end: usize = n;
    while end > start && v[end - 1] == '.'
        invariant
            n == v@.len(),
            start <= end <= n,
            spec_trim_leading_dots(v@) == v@.skip(start as int),
            spec_trim_trailing_dots(v@.subrange(start as int, n as int))
                == spec_trim_trailing_dots(v@.subrange(start as int, end as int)),
        decreases end,
    {
        proof {
            let s = v@.subrange(start as int, end as int);
            assert(s.last() == v@[end - 1]);
            assert(s.drop_last() =~= v@.subrange(start as int, end - 1));
        }
        end = end - 1;
    }
    proof {
        let s = v@.subrange(start as int, end as int);
        if end > start {
            assert(s.last() == v@[end - 1]);
        }
        assert(spec_trim_trailing_dots(s) == s);
        assert(v@.skip(start as int) =~= v@.subrange(start as int, n as int));
    }
    let mut out: Vec<char> = Vec::new();
    let mut j: usize = start;
    while j < end
        invariant
            start <= j <= end <= n,
            n == v@.len(),
            out@ == v@.subrange(start as int, j as int),
        decreases end - j,
    {
        out.push(v[j]);
        proof {
            assert(out@ =~= v@.subrange(start as int, j + 1));
        }
        j = j + 1;
    }
    out
}

proof fn lemma_join_drop_trailing_ws(s: Seq<char>)
    requires
        s.len() > 0,
        is_ws_char(s.last()),
    ensures
        spec_join_words(s.drop_last()) == spec_join_words(s),
        spec_join_words_in_word(s.drop_last()) == spec_join_words_in_word(s),
    decreases s.len(),
{
    let t = s.drop_last();
    if s.len() == 1 {
        assert(s[0] == s.last());
        assert(t.len() == 0);
        assert(s.drop_first().len() == 0);
        assert(spec_join_words(s.drop_first()) == Seq::<char>::empty());
        assert(spec_join_words(s) == Seq::<char>::empty());
        assert(spec_join_words(t) == Seq::<char>::empty());
        assert(spec_join_words_in_word(s) == Seq::<char>::empty());
        assert(spec_join_words_in_word(t) == Seq::<char>::empty());
    } else {
        assert(t.len() > 0);
        assert(t[0] == s[0]);
        assert(t.drop_first() =~= s.drop_first().drop_last());
        assert(s.drop_first().len() > 0);
        assert(s.drop_first().last() == s.last());
        lemma_join_drop_trailing_ws(s.drop_first());
        if is_ws_char(s[0]) {
            assert(spec_join_words(s) == spec_join_words(s.drop_first()));
            assert(spec_join_words(t) == spec_join_words(t.drop_first()));
            assert(spec_join_words(t) == spec_join_words(s));
            assert(spec_join_words_in_word(s) == (if spec_join_words(s.drop_first()).len() == 0 {
                Seq::<char>::empty()
            } else {
                seq!['_'] + spec_join_words(s.drop_first())
            }));
            assert(spec_join_words_in_word(t) == (if spec_join_words(t.drop_first()).len() == 0 {
                Seq::<char>::empty()
            } else {
                seq!['_'] + spec_join_words(t.drop_first())
            }));
            assert(spec_join_words_in_word(t) == spec_join_words_in_word(s));
        } else {
            assert(spec_join_words(s) == seq![s[0]] + spec_join_words_in_word(s.drop_first()));
            assert(spec_join_words(t) == seq![t[0]] + spec_join_words_in_word(t.drop_first()));
            assert(spec_join_words(t) == spec_join_words(s));
            assert(spec_join_words_in_word(s) == seq![s[0]] + spec_join_words_in_word(
                s.drop_first(),
            ));
            assert(spec_join_words_in_word(t) == seq![t[0]] + spec_join_words_in_word(
                t.drop_first(),
            ));
            assert(spec_join_words_in_word(t) == spec_join_words_in_word(s));
        }
    }
}

proof fn lemma_join_nonempty(s: Seq<char>, k: int)
    requires
        0 <= k < s.len(),
        !is_ws_char(s[k]),
    ensures
        spec_join_words(s).len() > 0,
    decreases s.len(),
{
    if is_ws_char(s[0]) {
        assert(s.drop_first()[k - 1] == s[k]);
        lemma_join_nonempty(s.drop_first(), k - 1);
    }
}

fn join_words(v: &Vec<char>) -> (r: Vec<char>)
    ensures
        r@ == spec_join_words(v@),
{
    let n = v.len();
    let mut end: usize = n;
    proof {
        assert(v@.take(n as int) =~= v@);
    }
    while end > 0 && is_ws(v[end - 1])
        invariant
            n == v@.len(),
            end <= n,
            spec_join_words(v@) == spec_join_words(v@.take(end as int)),
        decreases end,
    {
        proof {
            let s = v@.take(end as int);
            assert(s.last() == v@[end - 1]);
            assert(s.drop_last() =~= v@.take(end - 1));
            lemma_join_drop_trailing_ws(s);
        }
        end = end - 1;
    }
    let ghost u = v@.take(end as int);
    proof {
        if end > 0 {
            assert(u.last() == v@[end - 1]);
        }
    }
    let mut out: Vec<char> = Vec::new();
    let mut i: usize = 0;
    let mut sep_done: bool = true;
    proof {
        assert(u.skip(0) =~= u);
        assert(out@ + spec_join_words(u) =~= spec_join_words(u));
    }
    while i < end
        invariant
            n == v@.len(),
            u == v@.take(end as int),
            end <= n,
            end > 0 ==> !is_ws_char(u.last()),
            i <= end,
            spec_join_words(u) == out@ + (if sep_done {
                spec_join_words(u.skip(i as int))
            } else {
                spec_join_words_in_word(u.skip(i as int))
            }),
        decreases end - i,
    {
        let ghost s = u.skip(i as int);
        proof {
            assert(s[0] == u[i as int]);
            assert(s.drop_first() =~= u.skip(i + 1));
        }
        let c = v[i];
        proof {
            assert(u[i as int] == v@[i as int]);
        }
        if is_ws(c) {
            if !sep_done {
                proof {
                    // a word still follows: the last character of `u`
                    // is not whitespace, and it lies past `i`
                    assert(i < end - 1);
                    assert(s.drop_first()[end - 1 - (i + 1)] == u[end - 1]);
                    lemma_join_nonempty(s.drop_first(), end - 1 - (i + 1));
                }
                out.push('_');
                proof {
                    assert(spec_join_words_in_word(s) == seq!['_'] + spec_join_words(
                        u.skip(i + 1),
                    ));
                    assert(out@ + spec_join_words(u.skip(i + 1)) =~= out@.drop_last()
                        + spec_join_words_in_word(s));
                }
                sep_done = true;
            }
        } else {
            out.push(c);
            proof {
                if sep_done {
                    assert(spec_join_words(s) == seq![s[0]] + spec_join_words_in_word(
                        u.skip(i + 1),
                    ));
                } else {
                    assert(spec_join_words_in_word(s) == seq![s[0]] + spec_join_words_in_word(
                        u.skip(i + 1),
                    ));
                }
                assert(out@ + spec_join_words_in_word(u.skip(i + 1)) =~= out@.drop_last() + (
                seq![s[0]] + spec_join_words_in_word(u.skip(i + 1))));
            }
            sep_done = false;
        }
        i = i + 1;
    }
    proof {
        assert(u.skip(end as int).len() == 0);
        assert(spec_join_words(u) =~= out@);
    }
    out
}

fn squeeze_underscores(v: &Vec<char>) -> (r: Vec<char>)
    ensures
        r@ == spec_squeeze_underscores(v@),
{
    let n = v.len();
    let mut out: Vec<char> = Vec::new();
    let mut i: usize = 0;
    proof {
        assert(v@.skip(0) =~= v@);
        assert(out@ + spec_squeeze_underscores(v@) =~= spec_squeeze_underscores(v@));
    }
    while i < n
        invariant
            n == v@.len(),
            i <= n,
            spec_squeeze_underscores(v@) == out@ + spec_squeeze_underscores(v@.skip(i as int)),
        decreases n - i,
    {
        let ghost s = v@.skip(i as int);
        proof {
            assert(s[0] == v@[i as int]);
            if s.len() >= 2 {
                assert(s[1] == v@[i + 1]);
            }
            assert(s.drop_first() =~= v@.skip(i + 1));
        }
        if v[i] == '_' && i + 1 < n && v[i + 1] == '_' {
            // drop this underscore; its run survives through the next one
        } else {
            out.push(v[i]);
            proof {
                if s.len() == 1 {
                    assert(s =~= seq![s[0]] + spec_squeeze_underscores(s.drop_first()));
                }
                assert(spec_squeeze_underscores(s) == seq![s[0]] + spec_squeeze_underscores(
                    s.drop_first(),
                ));
                assert(out@ + spec_squeeze_underscores(v@.skip(i + 1)) =~= out@.drop_last()
                    + spec_squeeze_underscores(s));
            }
        }
        i = i + 1;
    }
    proof {
        assert(spec_squeeze_underscores(v@.skip(n as int)).len() == 0);
        assert(spec_squeeze_underscores(v@) =~= out@);
    }
    out
}

/// Whether a sequence is free of adjacent underscore pairs.
pub open spec fn no_underscore_run(s: Seq<char>) -> bool {
    forall|i: int| 0 <= i && i + 1 < s.len() ==> !(#[trigger] s[i] == '_' && s[i + 1] == '_')
}

proof fn lemma_squeeze_head(s: Seq<char>)
    requires
        s.len() > 0,
    ensures
        spec_squeeze_underscores(s).len() > 0,
        (spec_squeeze_underscores(s)[0] == '_') == (s[0] == '_'),
    decreases s.len(),
{
    if s.len() >= 2 && s[0] == '_' && s[1] == '_' {
        lemma_squeeze_head(s.drop_first());
    }
}

proof fn lemma_squeeze_no_run(s: Seq<char>)
    ensures
        no_underscore_run(spec_squeeze_underscores(s)),
    decreases s.len(),
{
    if s.len() < 2 {
    } else if s[0] == '_' && s[1] == '_' {
        lemma_squeeze_no_run(s.drop_first());
    } else {
        lemma_squeeze_no_run(s.drop_first());
        lemma_squeeze_head(s.drop_first());
        let q = spec_squeeze_underscores(s.drop_first());
        let out = seq![s[0]] + q;
        assert forall|i: int| 0 <= i && i + 1 < out.len() implies !(#[trigger] out[i] == '_'
            && out[i + 1] == '_') by {
            if i == 0 {
                assert(out[0] == s[0]);
                assert(out[1] == q[0]);
                assert(s.drop_first()[0] == s[1]);
            } else {
                assert(out[i] == q[i - 1]);
                assert(out[i + 1] == q[i]);
            }
        }
    }
}

/// The sanitized form of any string is at most 255 characters long.
pub proof fn lemma_sanitize_len(s: Seq<char>)
    ensures
        spec_sanitize(s).len() <= 255,
{
}

/// The sanitized form of any string never holds two adjacent
/// underscores.
pub proof fn lemma_sanitize_no_underscore_run(s: Seq<char>)
    ensures
        no_underscore_run(spec_sanitize(s)),
{
    let joined = spec_join_words(
        spec_trim_trailing_dots(
            spec_trim_leading_dots(spec_fold_dot_dot(spec_mask_special(s))),
        ),
    );
    lemma_squeeze_no_run(joined);
    let squeezed = spec_squeeze_underscores(joined);
    if squeezed.len() > 255 {
        let cut = squeezed.take(255);
        assert forall|i: int| 0 <= i && i + 1 < cut.len() implies !(#[trigger] cut[i] == '_'
            && cut[i + 1] == '_') by {
            assert(cut[i] == squeezed[i]);
            assert(cut[i + 1] == squeezed[i + 1]);
        }
    }
}

/// Maps an arbitrary identifier to a string safe to use as one
/// filesystem path component: hostile characters and `..` pairs become
/// underscores, surrounding dots and whitespace vanish, whitespace runs
/// become single separating underscores, underscore runs collapse, and
/// the result is cut to at most 255 characters. Pure and total.
pub fn sanitize_file_name(file_name: &str) -> (r: String)
    ensures
        r@ == spec_sanitize(file_name@),
{
    let masked = mask_special(file_name);
    let folded = fold_dot_dot(&masked);
    let trimmed = trim_dots(&folded);
    let joined = join_words(&trimmed);
    let mut squeezed = squeeze_underscores(&joined);
    if squeezed.len() > 255 {
        squeezed.truncate(255);
    }
    chars_to_string(&squeezed)
}

/// The cache directory for one login: the cache root, a separator, and
/// the sanitized server and user identities joined by an underscore.
pub open spec fn spec_cache_namespace(
    cache_path: Seq<char>,
    server_url: Seq<char>,
    user_name: Seq<char>,
) -> Seq<char> {
    cache_path + seq!['/'] + spec_sanitize(server_url) + seq!['_'] + spec_sanitize(user_name)
}

/// Derives the per-login cache directory from the cache root and the
/// two identity strings, refusing when either identity is empty (no
/// authenticated session). The separator is written `/`.
pub fn get_memo_cache_path(cache_path: &str, server_url: &str, user_name: &str) -> (r: Result<
    String,
    String,
>)
    ensures
        match r {
            Ok(p) => server_url@.len() > 0 && user_name@.len() > 0 && p@ == spec_cache_namespace(
                cache_path@,
                server_url@,
                user_name@,
            ),
            Err(e) => (server_url@.len() == 0 || user_name@.len() == 0) && e@
                == "Host info not found, maybe not login"@,
        },
{
    if server_url.is_empty() || user_name.is_empty() {
        return Err("Host info not found, maybe not login".to_owned());
    }
    let mut p = cache_path.to_owned();
    push_char(&mut p, '/');
    let server_part = sanitize_file_name(server_url);
    p.append(server_part.as_str());
    push_char(&mut p, '_');
    let user_part = sanitize_file_name(user_name);
    p.append(user_part.as_str());
    proof {
        assert(p@ =~= spec_cache_namespace(cache_path@, server_url@, user_name@));
    }
    Ok(p)
}

/// The on-disk file name of one cached memo: `memo_`, the sanitized
/// memo name, and `.json`.
pub open spec fn spec_memo_file_name(memo_name: Seq<char>) -> Seq<char> {
    "memo_"@ + spec_sanitize(memo_name) + ".json"@
}

/// Builds the file name a memo's cache file is stored under.
pub fn memo_file_name(memo_name: &str) -> (r: String)
    ensures
        r@ == spec_memo_file_name(memo_name@),
{
    let mut p = String::from_str("memo_");
    let name_part = sanitize_file_name(memo_name);
    p.append(name_part.as_str());
    p.append(".json");
    proof {
        assert(p@ =~= spec_memo_file_name(memo_name@));
    }
    p
}

} // verus!
