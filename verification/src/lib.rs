//! A local write-back cache for "memo" (note) records.
//!
//! The crate is the cache-and-persistence engine of a note-taking
//! client: an in-memory content cache and metadata cache with dirty
//! tracking, a listing service with filtering, sorting and pagination,
//! a flush planner for the background persistence loop, a per-login
//! namespacing scheme built on a verified file-name sanitizer, and a
//! small key/value settings store.
//!
//! Everything here is verified; the host around it does the file and
//! network I/O and feeds plain values in and out.

mod cache;
mod list;
mod model;
mod path;
mod store;
mod strutil;

pub use cache::{
    assoc_get, assoc_unique, delete_memo_rel, entries_view, lemma_assoc_at_index,
    lemma_delete_preserves_consistent, lemma_delete_then_get, lemma_store_preserves_consistent,
    lemma_store_then_get, lemma_store_unchanged_keeps_flags, spec_dirty_memos,
    store_memo_content_rel, store_memo_meta_rel, store_memo_rel, CacheData, FlushPlan,
    MemoDataCache, MemoDataCacheView,
};
pub use list::{
    display_ge, filter_pred, is_sorted_page, meta_values, names_of, sorted_desc, spec_filtered,
    spec_matches_filter, spec_resolve, spec_window_end,
};
pub use model::{
    memo_views, meta_views, spec_meta_of, LinkInfo, Memo, MemoMeta, MemoMetaView, MemoState,
    MemoView,
};
pub use path::{
    get_memo_cache_path, lemma_sanitize_len, lemma_sanitize_no_underscore_run, memo_file_name,
    no_underscore_run, sanitize_file_name, spec_cache_namespace, spec_memo_file_name,
    spec_sanitize,
};
pub use store::{dash_contents, empty_settings, AppState, StoreData};
pub use strutil::{lemma_lex_leq_refl, lemma_lex_leq_total, lemma_lex_leq_trans, lex_leq};
