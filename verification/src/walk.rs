//! What a directory walk keeps and in which order.
//! The walk itself (with its ignore files) is done by the caller.

use vstd::prelude::*;
use crate::order::{
    all_below, key_views, merge_sort, positions, same_key_groups, sorted_by_keys,
};
use crate::text::{occurs_at, same_text, starts_with_str};

verus! {

/// Options controlling how the tree is walked.
#[derive(Debug, Clone)]
pub struct WalkOptions {
    /// Include dotfiles.
    pub hidden: bool,
    /// Honor .gitignore/.tidemarkignore files.
    pub use_ignore: bool,
    /// Additional globs to exclude.
    pub extra_ignores: Vec<String>,
}

impl Default for WalkOptions {
    fn default() -> (r: Self)
        ensures
            !r.hidden,
            r.use_ignore,
            r.extra_ignores@.len() == 0,
    {
        WalkOptions { hidden: false, use_ignore: true, extra_ignores: Vec::new() }
    }
}

/// A path found by the walker, relative to the root (with `/` separators),
/// and how the caller reaches it.
#[derive(Debug, Clone)]
pub struct RawEntry<P> {
    pub rel: String,
    pub abs: P,
}

/// The store's own files, which are never recorded (even when dotfiles are).
pub open spec fn is_own_store(rel: Seq<char>) -> bool {
    rel == ".tidemark"@ || occurs_at(rel, ".tidemark/"@, 0)
}

/// Whether a relative path lies in the store's own directory.
pub fn in_own_store(rel: &str) -> (r: bool)
    ensures
        r == is_own_store(rel@),
{
    same_text(rel, ".tidemark") || starts_with_str(rel, ".tidemark/")
}

/// Whether a path found by the walker is recorded: not the walked root
/// itself (whose relative path is empty), not a directory, and not in the
/// store's own directory.
pub open spec fn is_recorded(rel: Seq<char>, is_dir: bool) -> bool {
    rel.len() > 0 && !is_dir && !is_own_store(rel)
}

/// Whether a walked path, given relative to the root with `/` separators,
/// is recorded.
pub fn keeps_walked(rel: &str, is_dir: bool) -> (r: bool)
    ensures
        r == is_recorded(rel@, is_dir),
{
    !rel.is_empty() && !is_dir && !in_own_store(rel)
}

/// The positions of the entries that are kept, in their order.
pub open spec fn kept_positions<P>(entries: Seq<RawEntry<P>>) -> Seq<usize> {
    positions(entries.len()).filter(|i: usize| !is_own_store(entries[i as int].rel@))
}

/// The relative paths of the entries.
pub open spec fn rel_keys<P>(entries: Seq<RawEntry<P>>) -> Seq<Seq<char>> {
    entries.map_values(|e: RawEntry<P>| e.rel@)
}

/// The order in which walked entries are recorded: every entry outside the
/// store's own directory, sorted by relative path (stably).
pub fn walk_order<P>(entries: &Vec<RawEntry<P>>) -> (order: Vec<usize>)
    ensures
        order@.len() == kept_positions(entries@).len(),
        all_below(order@, entries@.len()),
        sorted_by_keys(rel_keys(entries@), order@),
        same_key_groups(rel_keys(entries@), order@, kept_positions(entries@)),
{
    let mut keys: Vec<String> = Vec::new();
    let mut kept: Vec<usize> = Vec::new();
    let ghost pred = |i: usize| !is_own_store(entries@[i as int].rel@);
    for i in 0..entries.len()
        invariant
            keys@.len() == i,
            forall|t: int| 0 <= t < i ==> keys@[t]@ == entries@[t].rel@,
            kept@ == positions(i as nat).filter(pred),
            all_below(kept@, i as nat),
            pred == (|i: usize| !is_own_store(entries@[i as int].rel@)),
    {
        keys.push(entries[i].rel.clone());
        let own = in_own_store(entries[i].rel.as_str());
        proof {
            assert(positions((i + 1) as nat) =~= positions(i as nat).push(i));
            positions(i as nat).lemma_filter_push(i, pred);
        }
        if !own {
            kept.push(i);
        }
    }
    proof {
        assert(key_views(keys@) =~= rel_keys(entries@));
    }
    let order = merge_sort(&keys, kept);
    order
}

/// Law: a walked path is recorded exactly when it is a non-directory other
/// than the root, and neither the store directory `.tidemark` itself nor a
/// path whose first ten characters are `.tidemark/`. Dotfiles elsewhere, and
/// names that only begin with `.tidemark`, are recorded.
pub proof fn law_walk_records(rel: Seq<char>, is_dir: bool)
    ensures
        is_recorded(rel, is_dir) <==> (rel.len() > 0 && !is_dir && rel != ".tidemark"@ && !(
        rel.len() >= 10 && rel.take(10) == ".tidemark/"@)),
{
    reveal_strlit(".tidemark/");
    if rel.len() >= 10 {
        assert(rel.subrange(0, 10) =~= rel.take(10));
    }
}

} // verus!
