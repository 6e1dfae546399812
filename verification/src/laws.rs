//! What the invariant of a walk means for its result.

use vstd::prelude::*;
use vstd::multiset::Multiset;
use vstd::seq_lib::{commutative_foldl, lemma_fold_left_permutation, lemma_multiset_commutative};
use crate::glob::matches_any_spec;
use crate::path::{dir_form, has_hidden_segment, join_spec, SLASH};
use crate::walk::{EntryKind, Listed, Scope, WalkState};

verus! {

/// Whether the relative path `rel` lies beneath the directory whose
/// relative path is `dir`: it begins with the directory's name and a
/// separator. Everything lies beneath the root, whose relative path is
/// empty.
pub open spec fn lies_beneath(rel: Seq<u8>, dir: Seq<u8>) -> bool {
    dir.len() == 0 || (dir_form(dir).len() <= rel.len() && rel.take(dir_form(dir).len() as int)
        == dir_form(dir))
}

/// No file of the result has a hidden segment below the root: none of the
/// segments of its relative path begins with a dot, the single dot apart.
pub proof fn law_no_hidden_result(s: WalkState, i: int)
    requires
        s.wf(),
        0 <= i < s.results.len(),
    ensures
        !has_hidden_segment(s.scope.rel(s.results[i])),
{
    assert(s.scope.result_ok(s.results[i]));
}

/// No file of the result lies beneath an excluded directory, whether or
/// not the file itself would have been selected: the directory was pruned
/// before anything in it was looked at.
pub proof fn law_pruned_subtree_stays_out(s: WalkState, i: int, dir: Seq<u8>)
    requires
        s.wf(),
        0 <= i < s.results.len(),
        matches_any_spec(s.scope.excludes, dir_form(dir)),
    ensures
        !lies_beneath(s.scope.rel(s.results[i]), dir),
{
    let rel = s.scope.rel(s.results[i]);
    assert(s.scope.result_ok(s.results[i]));
    assert(s.scope.open_above(rel));
    let d = dir_form(dir);
    if dir.len() == 0 {
        assert(dir =~= Seq::<u8>::empty());
    } else if d.len() <= rel.len() && rel.take(d.len() as int) == d {
        let k = d.len() - 1;
        assert(d[k] == SLASH);
        assert(rel.take(d.len() as int)[k] == rel[k]);
        assert(rel[k] == SLASH);
        assert(rel.take(k + 1) == d);
    }
}

/// Every file of the result was selected on its own account as well: it
/// matches a pattern of `includes` and none of `excludes`.
pub proof fn law_results_are_selected(s: WalkState, i: int)
    requires
        s.wf(),
        0 <= i < s.results.len(),
    ensures
        matches_any_spec(s.scope.includes, s.scope.rel(s.results[i])),
        !matches_any_spec(s.scope.excludes, s.scope.rel(s.results[i])),
{
    assert(s.scope.result_ok(s.results[i]));
}

/// Every directory in the queue other than the root has passed the test
/// against `excludes` before it was queued.
pub proof fn law_queued_dirs_passed(s: WalkState, k: int)
    requires
        s.wf(),
        0 <= k < s.queue.len(),
        s.queue[k] != s.scope.root,
    ensures
        !s.scope.prunes(s.queue[k]),
{
    assert(s.scope.queued_ok(s.queue[k]));
}

/// A listing adds to the result exactly the files that it holds and that
/// are selected, and to the queue exactly the directories that it holds
/// and that are not excluded.
pub proof fn law_found_exactly(sc: Scope, dir: Seq<u8>, entries: Seq<Listed>, path: Seq<u8>)
    ensures
        sc.files_in(dir, entries).contains(path) <==> exists|k: int|
            0 <= k < entries.len() && sc.takes_file(dir, #[trigger] entries[k]) && path
                == join_spec(dir, entries[k].name),
        sc.dirs_in(dir, entries).contains(path) <==> exists|k: int|
            0 <= k < entries.len() && sc.takes_dir(dir, #[trigger] entries[k]) && path
                == join_spec(dir, entries[k].name),
    decreases entries.len(),
{
    if entries.len() > 0 {
        let init = entries.drop_last();
        let last = entries.last();
        law_found_exactly(sc, dir, init, path);
        let files = sc.files_in(dir, entries);
        let dirs = sc.dirs_in(dir, entries);
        let n = entries.len() - 1;
        if files.contains(path) {
            let j = choose|j: int| 0 <= j < files.len() && files[j] == path;
            if j < sc.files_in(dir, init).len() {
                assert(sc.files_in(dir, init)[j] == path);
                let k = choose|k: int|
                    0 <= k < init.len() && sc.takes_file(dir, #[trigger] init[k]) && path
                        == join_spec(dir, init[k].name);
                assert(entries[k] == init[k]);
            } else {
                assert(sc.takes_file(dir, entries[n]));
            }
        }
        if exists|k: int|
            0 <= k < entries.len() && sc.takes_file(dir, #[trigger] entries[k]) && path
                == join_spec(dir, entries[k].name) {
            let k = choose|k: int|
                0 <= k < entries.len() && sc.takes_file(dir, #[trigger] entries[k]) && path
                    == join_spec(dir, entries[k].name);
            if k < n {
                assert(init[k] == entries[k]);
                let j = choose|j: int|
                    0 <= j < sc.files_in(dir, init).len() && sc.files_in(dir, init)[j] == path;
                assert(files[j] == path);
            } else {
                assert(files[files.len() - 1] == path);
            }
        }
        if dirs.contains(path) {
            let j = choose|j: int| 0 <= j < dirs.len() && dirs[j] == path;
            if j < sc.dirs_in(dir, init).len() {
                assert(sc.dirs_in(dir, init)[j] == path);
                let k = choose|k: int|
                    0 <= k < init.len() && sc.takes_dir(dir, #[trigger] init[k]) && path
                        == join_spec(dir, init[k].name);
                assert(entries[k] == init[k]);
            } else {
                assert(sc.takes_dir(dir, entries[n]));
            }
        }
        if exists|k: int|
            0 <= k < entries.len() && sc.takes_dir(dir, #[trigger] entries[k]) && path
                == join_spec(dir, entries[k].name) {
            let k = choose|k: int|
                0 <= k < entries.len() && sc.takes_dir(dir, #[trigger] entries[k]) && path
                    == join_spec(dir, entries[k].name);
            if k < n {
                assert(init[k] == entries[k]);
                let j = choose|j: int|
                    0 <= j < sc.dirs_in(dir, init).len() && sc.dirs_in(dir, init)[j] == path;
                assert(dirs[j] == path);
            } else {
                assert(dirs[dirs.len() - 1] == path);
            }
        }
    }
}

/// Without a pattern in `includes` the result is empty, whatever the tree
/// and `excludes` hold.
pub proof fn law_nothing_without_includes(s: WalkState)
    requires
        s.wf(),
        s.scope.includes.len() == 0,
    ensures
        s.results.len() == 0,
{
    if s.results.len() > 0 {
        assert(s.scope.result_ok(s.results[0]));
    }
}

/// The result is in breadth-first order: a file never comes before one
/// that lies less deep below the root.
pub proof fn law_breadth_order(s: WalkState, i: int, j: int)
    requires
        s.wf(),
        0 <= i <= j < s.results.len(),
    ensures
        s.scope.depth(s.results[i]) <= s.scope.depth(s.results[j]),
{
}

/// An entry that is neither a directory nor a regular file, such as a
/// symbolic link, leaves no trace: a listing with such entries is taken in
/// exactly as the listing without them.
pub proof fn law_other_entries_ignored(s: WalkState, entries: Seq<Listed>)
    ensures
        s.accept(entries) == s.accept(entries.filter(|e: Listed| e.kind != EntryKind::Other)),
{
    if let Some(d) = s.current {
        lemma_others_dropped(s.scope, d, entries);
    }
}

/// Entries of kind `Other` add neither a file nor a directory.
proof fn lemma_others_dropped(sc: Scope, dir: Seq<u8>, entries: Seq<Listed>)
    ensures
        sc.files_in(dir, entries) == sc.files_in(
            dir,
            entries.filter(|e: Listed| e.kind != EntryKind::Other),
        ),
        sc.dirs_in(dir, entries) == sc.dirs_in(
            dir,
            entries.filter(|e: Listed| e.kind != EntryKind::Other),
        ),
    decreases entries.len(),
{
    reveal(Seq::filter);
    let keep = |e: Listed| e.kind != EntryKind::Other;
    if entries.len() > 0 {
        lemma_others_dropped(sc, dir, entries.drop_last());
        if keep(entries.last()) {
            let kept = entries.drop_last().filter(keep);
            assert(entries.filter(keep) == kept.push(entries.last()));
            assert(kept.push(entries.last()).drop_last() =~= kept);
        }
    }
}

/// The order in which a directory lists its entries decides the order of
/// what is found in it and nothing else: two listings with the same
/// entries give the same files and the same directories, as multisets.
pub proof fn law_listing_order(s: WalkState, first: Seq<Listed>, second: Seq<Listed>)
    requires
        first.to_multiset() == second.to_multiset(),
    ensures
        s.accept(first).results.to_multiset() == s.accept(second).results.to_multiset(),
        s.accept(first).queue.to_multiset() == s.accept(second).queue.to_multiset(),
        s.accept(first).current == s.accept(second).current,
{
    if let Some(d) = s.current {
        let sc = s.scope;
        lemma_found_as_fold(sc, d, first);
        lemma_found_as_fold(sc, d, second);
        lemma_gather_commutes(sc, d);
        lemma_fold_left_permutation(first, second, gather_file(sc, d), Multiset::empty());
        lemma_fold_left_permutation(first, second, gather_dir(sc, d), Multiset::empty());
        lemma_multiset_commutative(s.results, sc.files_in(d, first));
        lemma_multiset_commutative(s.results, sc.files_in(d, second));
        lemma_multiset_commutative(s.queue, sc.dirs_in(d, first));
        lemma_multiset_commutative(s.queue, sc.dirs_in(d, second));
    }
}

/// Adds the file that an entry stands for, if it is selected, to a
/// multiset of paths.
spec fn gather_file(sc: Scope, dir: Seq<u8>) -> spec_fn(Multiset<Seq<u8>>, Listed) -> Multiset<Seq<u8>> {
    |found: Multiset<Seq<u8>>, e: Listed|
        if sc.takes_file(dir, e) {
            found.insert(join_spec(dir, e.name))
        } else {
            found
        }
}

/// Adds the directory that an entry stands for, if it is to be read, to a
/// multiset of paths.
spec fn gather_dir(sc: Scope, dir: Seq<u8>) -> spec_fn(Multiset<Seq<u8>>, Listed) -> Multiset<Seq<u8>> {
    |found: Multiset<Seq<u8>>, e: Listed|
        if sc.takes_dir(dir, e) {
            found.insert(join_spec(dir, e.name))
        } else {
            found
        }
}

/// Gathering two entries gives the same multiset in either order.
proof fn lemma_gather_commutes(sc: Scope, dir: Seq<u8>)
    ensures
        commutative_foldl(gather_file(sc, dir)),
        commutative_foldl(gather_dir(sc, dir)),
{
    let f = gather_file(sc, dir);
    let g = gather_dir(sc, dir);
    assert forall|x: Listed, y: Listed, v: Multiset<Seq<u8>>| #[trigger]
        f(f(v, x), y) == f(f(v, y), x) by {
        assert(f(f(v, x), y) =~= f(f(v, y), x));
    }
    assert forall|x: Listed, y: Listed, v: Multiset<Seq<u8>>| #[trigger]
        g(g(v, x), y) == g(g(v, y), x) by {
        assert(g(g(v, x), y) =~= g(g(v, y), x));
    }
}

/// What is found in a listing, as a multiset, is the listing gathered
/// entry by entry.
proof fn lemma_found_as_fold(sc: Scope, dir: Seq<u8>, entries: Seq<Listed>)
    ensures
        sc.files_in(dir, entries).to_multiset() == entries.fold_left(
            Multiset::empty(),
            gather_file(sc, dir),
        ),
        sc.dirs_in(dir, entries).to_multiset() == entries.fold_left(
            Multiset::empty(),
            gather_dir(sc, dir),
        ),
    decreases entries.len(),
{
    broadcast use vstd::seq_lib::group_to_multiset_ensures;

    if entries.len() == 0 {
        assert(sc.files_in(dir, entries).to_multiset() =~= Multiset::<Seq<u8>>::empty());
        assert(sc.dirs_in(dir, entries).to_multiset() =~= Multiset::<Seq<u8>>::empty());
    } else {
        lemma_found_as_fold(sc, dir, entries.drop_last());
    }
}

} // verus!
