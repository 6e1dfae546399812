//! What holds of every state that a walk can reach.
//!
//! The invariant is stated over the plain-value state of a walk. It holds
//! when a walk begins and is kept by each of the two steps, so whatever is
//! drawn from it holds of the result that the caller finally gets.

use vstd::prelude::*;
use crate::glob::matches_any_spec;
use crate::path::{
    depth_of, dir_form, is_clean, is_segment, join_spec, lemma_child_depth, lemma_child_prefixes,
    lemma_join_below, lemma_relative_of_path, path_of, relative_to, SLASH,
};
use crate::walk::{Listed, Scope, WalkState};

verus! {

impl Scope {
    /// The form of `path` relative to the root of the walk.
    pub open spec fn rel(self, path: Seq<u8>) -> Seq<u8> {
        relative_to(path, self.root)
    }

    /// How many levels below the root `path` lies.
    pub open spec fn depth(self, path: Seq<u8>) -> nat {
        depth_of(relative_to(path, self.root))
    }

    /// Whether `path` is the root or was built from it entry by entry: its
    /// relative form is plain, and the path is the root joined with it.
    pub open spec fn places(self, path: Seq<u8>) -> bool {
        &&& is_clean(self.rel(path))
        &&& path == path_of(self.root, self.rel(path))
    }

    /// Whether no directory above the relative path `rel`, the root among
    /// them, is excluded.
    pub open spec fn open_above(self, rel: Seq<u8>) -> bool {
        &&& !matches_any_spec(self.excludes, dir_form(Seq::empty()))
        &&& forall|i: int|
            0 <= i < rel.len() && #[trigger] rel[i] == SLASH ==> !matches_any_spec(
                self.excludes,
                rel.take(i + 1),
            )
    }

    /// Whether neither the directory with the relative path `rel` nor any
    /// directory above it is excluded.
    pub open spec fn dir_open(self, rel: Seq<u8>) -> bool {
        &&& self.open_above(rel)
        &&& !matches_any_spec(self.excludes, dir_form(rel))
    }

    /// What holds of a directory in the queue. The root is queued before it
    /// is tested; every other directory was tested before it was queued.
    pub open spec fn queued_ok(self, path: Seq<u8>) -> bool {
        &&& self.places(path)
        &&& (self.rel(path).len() == 0 || self.dir_open(self.rel(path)))
    }

    /// What holds of a directory that was handed out to be read.
    pub open spec fn current_ok(self, path: Seq<u8>) -> bool {
        &&& self.places(path)
        &&& self.dir_open(self.rel(path))
    }

    /// What holds of a file in the result.
    pub open spec fn result_ok(self, path: Seq<u8>) -> bool {
        &&& self.places(path)
        &&& self.rel(path).len() > 0
        &&& self.open_above(self.rel(path))
        &&& self.selects(path)
    }
}

impl WalkState {
    /// Whether queue and result are ordered by depth as a breadth-first
    /// walk orders them: neither ever steps back to a smaller depth, the
    /// queue spans at most two levels, and no result lies more than one
    /// level below a directory that is still to be read.
    pub open spec fn in_breadth_order(self) -> bool {
        let sc = self.scope;
        &&& forall|i: int, j: int|
            0 <= i <= j < self.results.len() ==> sc.depth(#[trigger] self.results[i]) <= sc.depth(
                #[trigger] self.results[j],
            )
        &&& forall|k: int, l: int|
            0 <= k <= l < self.queue.len() ==> sc.depth(#[trigger] self.queue[k]) <= sc.depth(
                #[trigger] self.queue[l],
            )
        &&& forall|k: int, l: int|
            0 <= k < self.queue.len() && 0 <= l < self.queue.len() ==> sc.depth(
                #[trigger] self.queue[l],
            ) <= sc.depth(#[trigger] self.queue[k]) + 1
        &&& forall|i: int, k: int|
            0 <= i < self.results.len() && 0 <= k < self.queue.len() ==> sc.depth(
                #[trigger] self.results[i],
            ) <= sc.depth(#[trigger] self.queue[k]) + 1
        &&& self.current matches Some(d) ==> {
            &&& forall|i: int|
                0 <= i < self.results.len() ==> sc.depth(#[trigger] self.results[i]) <= sc.depth(d)
                    + 1
            &&& forall|k: int|
                0 <= k < self.queue.len() ==> sc.depth(d) <= sc.depth(#[trigger] self.queue[k])
                    <= sc.depth(d) + 1
        }
    }

    /// The state after the caller has answered one directory after the
    /// other: before each answer the walk moves on to the next directory,
    /// and the answer is the listing of that directory, or nothing where it
    /// could not be read.
    pub open spec fn after(self, answers: Seq<Option<Seq<Listed>>>) -> WalkState
        decreases answers.len(),
    {
        if answers.len() == 0 {
            self
        } else {
            let s = self.after(answers.drop_last()).advance();
            match answers.last() {
                Some(entries) => s.accept(entries),
                None => s,
            }
        }
    }

    /// The invariant of a walk.
    pub open spec fn wf(self) -> bool {
        &&& forall|k: int|
            0 <= k < self.queue.len() ==> self.scope.queued_ok(#[trigger] self.queue[k])
        &&& self.current matches Some(d) ==> self.scope.current_ok(d)
        &&& forall|i: int|
            0 <= i < self.results.len() ==> self.scope.result_ok(#[trigger] self.results[i])
        &&& self.in_breadth_order()
    }
}

/// The run of excluded directories at the front of a queue ends within the
/// queue, holds excluded directories only, and is followed by one that is
/// not excluded.
pub proof fn lemma_pruned_run(sc: Scope, queue: Seq<Seq<u8>>)
    ensures
        sc.pruned_run(queue) <= queue.len(),
        forall|j: int| 0 <= j < sc.pruned_run(queue) ==> sc.prunes(#[trigger] queue[j]),
        sc.pruned_run(queue) < queue.len() ==> !sc.prunes(queue[sc.pruned_run(queue) as int]),
    decreases queue.len(),
{
    if queue.len() > 0 && sc.prunes(queue[0]) {
        let rest = queue.skip(1);
        lemma_pruned_run(sc, rest);
        assert forall|j: int| 0 <= j < sc.pruned_run(queue) implies sc.prunes(
            #[trigger] queue[j],
        ) by {
            if j > 0 {
                assert(queue[j] == rest[j - 1]);
            }
        }
        if sc.pruned_run(queue) < queue.len() {
            assert(queue[sc.pruned_run(queue) as int] == rest[sc.pruned_run(rest) as int]);
        }
    }
}

/// An entry of a directory that was handed out lies one level below it, is
/// built from the root as the directory is, and has no excluded directory
/// above it.
pub proof fn lemma_entry_below(sc: Scope, dir: Seq<u8>, name: Seq<u8>)
    requires
        sc.current_ok(dir),
        is_segment(name),
    ensures
        sc.places(join_spec(dir, name)),
        sc.rel(join_spec(dir, name)) == join_spec(sc.rel(dir), name),
        sc.rel(join_spec(dir, name)).len() > 0,
        sc.open_above(sc.rel(join_spec(dir, name))),
        sc.depth(join_spec(dir, name)) == sc.depth(dir) + 1,
{
    let r = sc.rel(dir);
    let c = join_spec(r, name);
    lemma_join_below(sc.root, r, name);
    lemma_relative_of_path(sc.root, c);
    lemma_child_depth(r, name);
    assert forall|i: int| 0 <= i < c.len() && #[trigger] c[i] == SLASH implies !matches_any_spec(
        sc.excludes,
        c.take(i + 1),
    ) by {
        lemma_child_prefixes(r, name, i);
        if i < r.len() {
            assert(r[i] == SLASH);
        }
    }
}

/// Each file taken from the listing of a directory that was handed out
/// meets what holds of a result, and lies one level below the directory.
pub proof fn lemma_files_in_ok(sc: Scope, dir: Seq<u8>, entries: Seq<Listed>)
    requires
        sc.current_ok(dir),
    ensures
        forall|j: int|
            0 <= j < sc.files_in(dir, entries).len() ==> {
                &&& sc.result_ok(#[trigger] sc.files_in(dir, entries)[j])
                &&& sc.depth(sc.files_in(dir, entries)[j]) == sc.depth(dir) + 1
            },
    decreases entries.len(),
{
    if entries.len() > 0 {
        let all = sc.files_in(dir, entries);
        let before = sc.files_in(dir, entries.drop_last());
        lemma_files_in_ok(sc, dir, entries.drop_last());
        if sc.takes_file(dir, entries.last()) {
            lemma_entry_below(sc, dir, entries.last().name);
        }
        assert forall|j: int| 0 <= j < all.len() implies sc.result_ok(#[trigger] all[j])
            && sc.depth(all[j]) == sc.depth(dir) + 1 by {
            if j < before.len() {
                assert(all[j] == before[j]);
            }
        }
    }
}

/// Each directory taken from the listing of a directory that was handed
/// out meets what holds of a queued directory, and lies one level below.
pub proof fn lemma_dirs_in_ok(sc: Scope, dir: Seq<u8>, entries: Seq<Listed>)
    requires
        sc.current_ok(dir),
    ensures
        forall|j: int|
            0 <= j < sc.dirs_in(dir, entries).len() ==> {
                &&& sc.queued_ok(#[trigger] sc.dirs_in(dir, entries)[j])
                &&& sc.depth(sc.dirs_in(dir, entries)[j]) == sc.depth(dir) + 1
            },
    decreases entries.len(),
{
    if entries.len() > 0 {
        let all = sc.dirs_in(dir, entries);
        let before = sc.dirs_in(dir, entries.drop_last());
        lemma_dirs_in_ok(sc, dir, entries.drop_last());
        if sc.takes_dir(dir, entries.last()) {
            lemma_entry_below(sc, dir, entries.last().name);
        }
        assert forall|j: int| 0 <= j < all.len() implies sc.queued_ok(#[trigger] all[j])
            && sc.depth(all[j]) == sc.depth(dir) + 1 by {
            if j < before.len() {
                assert(all[j] == before[j]);
            }
        }
    }
}

/// The invariant holds when a walk begins.
pub proof fn lemma_start_wf(sc: Scope)
    ensures
        WalkState::start(sc).wf(),
{
    lemma_relative_of_path(sc.root, Seq::empty());
}

/// The directory that is handed out next is not excluded.
pub proof fn lemma_advance_opens(s: WalkState)
    ensures
        s.advance().current matches Some(d) ==> !s.scope.prunes(d),
{
    lemma_pruned_run(s.scope, s.queue);
}

/// Moving on to the next directory keeps the invariant.
pub proof fn lemma_advance_wf(s: WalkState)
    requires
        s.wf(),
    ensures
        s.advance().wf(),
{
    lemma_pruned_run(s.scope, s.queue);
    let n = s.scope.pruned_run(s.queue) as int;
    let t = s.advance();
    if n < s.queue.len() {
        let d = s.queue[n];
        assert(s.scope.queued_ok(d));
        assert(s.scope.current_ok(d)) by {
            if s.scope.rel(d).len() == 0 {
                assert(s.scope.rel(d) =~= Seq::<u8>::empty());
            }
        }
        assert forall|k: int| 0 <= k < t.queue.len() implies s.scope.queued_ok(
            #[trigger] t.queue[k],
        ) by {
            assert(t.queue[k] == s.queue[k + n + 1]);
        }
        assert(t.in_breadth_order()) by {
            assert forall|k: int| 0 <= k < t.queue.len() implies s.scope.depth(d) <= s.scope.depth(
                #[trigger] t.queue[k],
            ) <= s.scope.depth(d) + 1 by {
                assert(t.queue[k] == s.queue[k + n + 1]);
            }
            assert forall|k: int, l: int| 0 <= k <= l < t.queue.len() implies s.scope.depth(
                #[trigger] t.queue[k],
            ) <= s.scope.depth(#[trigger] t.queue[l]) by {
                assert(t.queue[k] == s.queue[k + n + 1]);
                assert(t.queue[l] == s.queue[l + n + 1]);
            }
            assert forall|k: int, l: int|
                0 <= k < t.queue.len() && 0 <= l < t.queue.len() implies s.scope.depth(
                #[trigger] t.queue[l],
            ) <= s.scope.depth(#[trigger] t.queue[k]) + 1 by {
                assert(t.queue[k] == s.queue[k + n + 1]);
                assert(t.queue[l] == s.queue[l + n + 1]);
            }
            assert forall|i: int, k: int|
                0 <= i < t.results.len() && 0 <= k < t.queue.len() implies s.scope.depth(
                #[trigger] t.results[i],
            ) <= s.scope.depth(#[trigger] t.queue[k]) + 1 by {
                assert(t.queue[k] == s.queue[k + n + 1]);
            }
        }
    }
}

/// Taking in a listing keeps the invariant.
pub proof fn lemma_accept_wf(s: WalkState, entries: Seq<Listed>)
    requires
        s.wf(),
    ensures
        s.accept(entries).wf(),
{
    if let Some(d) = s.current {
        let sc = s.scope;
        let t = s.accept(entries);
        let files = sc.files_in(d, entries);
        let dirs = sc.dirs_in(d, entries);
        lemma_files_in_ok(sc, d, entries);
        lemma_dirs_in_ok(sc, d, entries);
        assert forall|k: int| 0 <= k < t.queue.len() implies sc.queued_ok(#[trigger] t.queue[k])
            && sc.depth(d) <= sc.depth(t.queue[k]) <= sc.depth(d) + 1 && (k >= s.queue.len()
            ==> sc.depth(t.queue[k]) == sc.depth(d) + 1) by {
            if k < s.queue.len() {
                assert(t.queue[k] == s.queue[k]);
            } else {
                assert(t.queue[k] == dirs[k - s.queue.len()]);
            }
        }
        assert forall|i: int| 0 <= i < t.results.len() implies sc.result_ok(
            #[trigger] t.results[i],
        ) && sc.depth(t.results[i]) <= sc.depth(d) + 1 && (i >= s.results.len() ==> sc.depth(
            t.results[i],
        ) == sc.depth(d) + 1) by {
            if i < s.results.len() {
                assert(t.results[i] == s.results[i]);
            } else {
                assert(t.results[i] == files[i - s.results.len()]);
            }
        }
        assert(t.in_breadth_order()) by {
            assert forall|i: int, j: int| 0 <= i <= j < t.results.len() implies sc.depth(
                #[trigger] t.results[i],
            ) <= sc.depth(#[trigger] t.results[j]) by {
                if j < s.results.len() {
                    assert(t.results[i] == s.results[i]);
                    assert(t.results[j] == s.results[j]);
                }
            }
            assert forall|k: int, l: int| 0 <= k <= l < t.queue.len() implies sc.depth(
                #[trigger] t.queue[k],
            ) <= sc.depth(#[trigger] t.queue[l]) by {
                if l < s.queue.len() {
                    assert(t.queue[k] == s.queue[k]);
                    assert(t.queue[l] == s.queue[l]);
                }
            }
        }
    }
}

/// The invariant holds of every state that a walk reaches, whatever the
/// caller finds in the directories it is asked to read.
pub proof fn lemma_reached_wf(sc: Scope, answers: Seq<Option<Seq<Listed>>>)
    ensures
        WalkState::start(sc).after(answers).wf(),
    decreases answers.len(),
{
    if answers.len() == 0 {
        lemma_start_wf(sc);
    } else {
        let s = WalkState::start(sc).after(answers.drop_last());
        lemma_reached_wf(sc, answers.drop_last());
        lemma_advance_wf(s);
        if let Some(entries) = answers.last() {
            lemma_accept_wf(s.advance(), entries);
        }
    }
}

} // verus!
