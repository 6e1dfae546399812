//! The traversal engine: a breadth-first walk as a state machine.
//!
//! A [`Walker`] owns the queue of directories that are still to be read and
//! the list of files selected so far. The caller alternates two calls:
//! [`Walker::next_dir`] hands out the next directory that is worth reading,
//! and [`Walker::accept_listing`] takes what the caller found in it. A
//! directory that cannot be read is simply not answered; the walk goes on
//! with the next one.

use vstd::prelude::*;
use std::collections::VecDeque;
use crate::glob::{
    byte_seqs, check_patterns, is_first_fault, matches_any, matches_any_spec, patterns_ok,
    PatternFault,
};
use crate::reach::{lemma_accept_wf, lemma_advance_opens, lemma_advance_wf, lemma_start_wf};
use crate::path::{
    copy_bytes, has_hidden_segment, hidden_segment, is_segment, join, join_spec, match_string,
    segment, to_match_str,
};

verus! {

/// What kind of thing a directory entry is. Anything that is neither a
/// directory nor a regular file, a symbolic link above all, is `Other`, and
/// so is an entry whose kind could not be found out.
#[derive(Clone, Copy, Debug, PartialEq, Eq, Structural)]
pub enum EntryKind {
    Directory,
    File,
    Other,
}

/// One entry of a directory listing: the entry's own name and its kind.
#[derive(Debug)]
pub struct DirEntry {
    pub name: Vec<u8>,
    pub kind: EntryKind,
}

/// A directory entry as plain values.
pub struct Listed {
    pub name: Seq<u8>,
    pub kind: EntryKind,
}

impl View for DirEntry {
    type V = Listed;

    open spec fn view(&self) -> Listed {
        Listed { name: self.name@, kind: self.kind }
    }
}

/// The views of the entries of a listing.
pub open spec fn listing(entries: Seq<DirEntry>) -> Seq<Listed> {
    entries.map_values(|e: DirEntry| e@)
}

/// The pattern list in which a defective pattern was found.
#[derive(Clone, Copy, Debug, PartialEq, Eq, Structural)]
pub enum PatternList {
    Includes,
    Excludes,
}

/// A pattern that cannot be used, found before the walk began.
#[derive(Clone, Copy, Debug, PartialEq, Eq, Structural)]
pub struct PatternError {
    pub list: PatternList,
    pub fault: PatternFault,
}

/// What a walk looks for, as plain values: where it begins and which
/// patterns select and exclude.
pub struct Scope {
    /// Where the walk begins.
    pub root: Seq<u8>,
    /// A file must match one of these.
    pub includes: Seq<Seq<u8>>,
    /// A file or directory must match none of these.
    pub excludes: Seq<Seq<u8>>,
}

impl Scope {
    /// Whether the directory `dir` is excluded, and its subtree with it.
    pub open spec fn prunes(self, dir: Seq<u8>) -> bool {
        matches_any_spec(self.excludes, match_string(dir, self.root, true))
    }

    /// Whether the file `file` belongs to the result: it has no hidden
    /// segment, matches a pattern of `includes` and none of `excludes`.
    pub open spec fn selects(self, file: Seq<u8>) -> bool {
        let s = match_string(file, self.root, false);
        &&& !has_hidden_segment(s)
        &&& matches_any_spec(self.includes, s)
        &&& !matches_any_spec(self.excludes, s)
    }

    /// Whether the entry `e` of `dir` is a file that belongs to the result.
    pub open spec fn takes_file(self, dir: Seq<u8>, e: Listed) -> bool {
        &&& e.kind == EntryKind::File
        &&& is_segment(e.name)
        &&& self.selects(join_spec(dir, e.name))
    }

    /// Whether the entry `e` of `dir` is a directory that is to be read.
    pub open spec fn takes_dir(self, dir: Seq<u8>, e: Listed) -> bool {
        &&& e.kind == EntryKind::Directory
        &&& is_segment(e.name)
        &&& !self.prunes(join_spec(dir, e.name))
    }

    /// The files among `entries` of `dir` that belong to the result, in the
    /// order of the listing.
    pub open spec fn files_in(self, dir: Seq<u8>, entries: Seq<Listed>) -> Seq<Seq<u8>>
        decreases entries.len(),
    {
        if entries.len() == 0 {
            Seq::empty()
        } else {
            let before = self.files_in(dir, entries.drop_last());
            if self.takes_file(dir, entries.last()) {
                before.push(join_spec(dir, entries.last().name))
            } else {
                before
            }
        }
    }

    /// The directories among `entries` of `dir` that are to be read, in the
    /// order of the listing.
    pub open spec fn dirs_in(self, dir: Seq<u8>, entries: Seq<Listed>) -> Seq<Seq<u8>>
        decreases entries.len(),
    {
        if entries.len() == 0 {
            Seq::empty()
        } else {
            let before = self.dirs_in(dir, entries.drop_last());
            if self.takes_dir(dir, entries.last()) {
                before.push(join_spec(dir, entries.last().name))
            } else {
                before
            }
        }
    }

    /// How many directories at the front of `queue` are excluded.
    pub open spec fn pruned_run(self, queue: Seq<Seq<u8>>) -> nat
        decreases queue.len(),
    {
        if queue.len() > 0 && self.prunes(queue[0]) {
            1 + self.pruned_run(queue.skip(1))
        } else {
            0
        }
    }
}

/// The state of a walk as plain values.
pub struct WalkState {
    /// What the walk looks for.
    pub scope: Scope,
    /// Directories waiting to be read, the next one first.
    pub queue: Seq<Seq<u8>>,
    /// The directory that was handed out and not answered yet.
    pub current: Option<Seq<u8>>,
    /// The files selected so far, in discovery order.
    pub results: Seq<Seq<u8>>,
}

impl WalkState {
    /// The state in which a walk begins: only the root is queued.
    pub open spec fn start(scope: Scope) -> Self {
        WalkState { scope, queue: seq![scope.root], current: None, results: Seq::empty() }
    }

    /// The state after the listing of the current directory has been taken
    /// in. Without a current directory nothing changes.
    pub open spec fn accept(self, entries: Seq<Listed>) -> Self {
        match self.current {
            Some(dir) => WalkState {
                queue: self.queue + self.scope.dirs_in(dir, entries),
                results: self.results + self.scope.files_in(dir, entries),
                current: None,
                ..self
            },
            None => self,
        }
    }

    /// The state after moving on to the next directory: excluded ones at
    /// the front of the queue are dropped, the first other one becomes the
    /// current directory. A current directory that was never answered is
    /// forgotten.
    pub open spec fn advance(self) -> Self {
        let n = self.scope.pruned_run(self.queue) as int;
        if n < self.queue.len() {
            WalkState { queue: self.queue.skip(n + 1), current: Some(self.queue[n]), ..self }
        } else {
            WalkState { queue: Seq::empty(), current: None, ..self }
        }
    }
}

/// A breadth-first walk in progress.
pub struct Walker {
    root: Vec<u8>,
    includes: Vec<Vec<u8>>,
    excludes: Vec<Vec<u8>>,
    queue: VecDeque<Vec<u8>>,
    current: Option<Vec<u8>>,
    results: Vec<Vec<u8>>,
}

impl View for Walker {
    type V = WalkState;

    closed spec fn view(&self) -> WalkState {
        WalkState {
            scope: Scope {
                root: self.root@,
                includes: byte_seqs(self.includes@),
                excludes: byte_seqs(self.excludes@),
            },
            queue: byte_seqs(self.queue@),
            current: match self.current {
                Some(d) => Some(d@),
                None => None,
            },
            results: byte_seqs(self.results@),
        }
    }
}

impl Walker {
    /// Begins a walk at `root`. Both pattern lists are checked first, the
    /// `includes` before `excludes`; the first defective pattern is
    /// reported and no walk begins.
    pub fn new(root: Vec<u8>, includes: Vec<Vec<u8>>, excludes: Vec<Vec<u8>>) -> (r: Result<
        Walker,
        PatternError,
    >)
        ensures
            r is Ok <==> patterns_ok(byte_seqs(includes@)) && patterns_ok(byte_seqs(excludes@)),
            r matches Ok(w) ==> w@ == WalkState::start(
                (Scope {
                    root: root@,
                    includes: byte_seqs(includes@),
                    excludes: byte_seqs(excludes@),
                }),
            ),
            r matches Ok(w) ==> w@.wf(),
            r matches Err(e) ==> match e.list {
                PatternList::Includes => is_first_fault(byte_seqs(includes@), e.fault),
                PatternList::Excludes => patterns_ok(byte_seqs(includes@)) && is_first_fault(
                    byte_seqs(excludes@),
                    e.fault,
                ),
            },
    {
        match check_patterns(&includes) {
            Err(fault) => {
                return Err(PatternError { list: PatternList::Includes, fault });
            },
            Ok(()) => {},
        }
        match check_patterns(&excludes) {
            Err(fault) => {
                return Err(PatternError { list: PatternList::Excludes, fault });
            },
            Ok(()) => {},
        }
        let mut queue: VecDeque<Vec<u8>> = VecDeque::new();
        queue.push_back(copy_bytes(root.as_slice()));
        let w = Walker { root, includes, excludes, queue, current: None, results: Vec::new() };
        assert(w@.queue =~= seq![root@]);
        assert(w@.results =~= Seq::<Seq<u8>>::empty());
        proof {
            lemma_start_wf(w@.scope);
        }
        Ok(w)
    }

    /// Tells whether the directory `dir` is excluded.
    fn is_pruned(&self, dir: &[u8]) -> (r: bool)
        ensures
            r == self@.scope.prunes(dir@),
    {
        let s = to_match_str(dir, self.root.as_slice(), true);
        matches_any(&self.excludes, s.as_slice())
    }

    /// Tells whether the file `file` belongs to the result.
    fn is_selected(&self, file: &[u8]) -> (r: bool)
        ensures
            r == self@.scope.selects(file@),
    {
        let s = to_match_str(file, self.root.as_slice(), false);
        if hidden_segment(s.as_slice()) {
            return false;
        }
        matches_any(&self.includes, s.as_slice()) && !matches_any(&self.excludes, s.as_slice())
    }

    /// Moves on to the next directory that is to be read and returns it, or
    /// `None` when the walk is over. Excluded directories are dropped from
    /// the queue without being handed out.
    pub fn next_dir(&mut self) -> (r: Option<Vec<u8>>)
        ensures
            final(self)@ == old(self)@.advance(),
            match r {
                Some(d) => final(self)@.current == Some(d@) && !final(self)@.scope.prunes(d@),
                None => final(self)@.current is None,
            },
            old(self)@.wf() ==> final(self)@.wf(),
    {
        proof {
            lemma_advance_opens(old(self)@);
            if old(self)@.wf() {
                lemma_advance_wf(old(self)@);
            }
        }
        self.current = None;
        loop
            invariant
                self.root == old(self).root,
                self.includes == old(self).includes,
                self.excludes == old(self).excludes,
                self.results == old(self).results,
                self.current is None,
                old(self)@.advance() == self@.advance(),
                old(self)@.wf() ==> old(self)@.advance().wf(),
            decreases self.queue@.len(),
        {
            let ghost before = self@;
            match self.queue.pop_front() {
                None => {
                    assert(self@.queue =~= Seq::<Seq<u8>>::empty());
                    return None;
                },
                Some(dir) => {
                    assert(self@.queue =~= before.queue.skip(1));
                    assert(before.queue[0] == dir@);
                    if !self.is_pruned(dir.as_slice()) {
                        let handed = copy_bytes(dir.as_slice());
                        self.current = Some(dir);
                        return Some(handed);
                    }
                    proof {
                        let rest = before.queue.skip(1);
                        let n = before.scope.pruned_run(rest) as int;
                        assert(before.scope.pruned_run(before.queue) == 1 + n);
                        if n < rest.len() {
                            assert(before.queue.skip(n + 2) =~= rest.skip(n + 1));
                        }
                    }
                },
            }
        }
    }

    /// Takes in the listing of the directory that `next_dir` handed out
    /// last. Each directory that is not excluded joins the queue, each
    /// regular file that is selected joins the result, both in the order of
    /// the listing. Entries of any other kind are ignored, and so are
    /// entries whose name is empty or holds a separator. Without a pending
    /// directory the call does nothing.
    pub fn accept_listing(&mut self, entries: &Vec<DirEntry>)
        ensures
            final(self)@ == old(self)@.accept(listing(entries@)),
            old(self)@.wf() ==> final(self)@.wf(),
    {
        proof {
            if old(self)@.wf() {
                lemma_accept_wf(old(self)@, listing(entries@));
            }
        }
        let dir = match self.current.take() {
            Some(d) => d,
            None => {
                return ;
            },
        };
        let ghost before = old(self)@;
        let ghost all = listing(entries@);
        let mut i: usize = 0;
        while i < entries.len()
            invariant
                i <= entries.len(),
                all == listing(entries@),
                before == old(self)@,
                before.current == Some(dir@),
                self.root == old(self).root,
                self.includes == old(self).includes,
                self.excludes == old(self).excludes,
                self.current is None,
                self@.queue == before.queue + before.scope.dirs_in(dir@, all.take(i as int)),
                self@.results == before.results + before.scope.files_in(dir@, all.take(i as int)),
            decreases entries.len() - i,
        {
            let e = &entries[i];
            let ghost seen = all.take(i as int);
            let ghost next = all.take(i as int + 1);
            assert(next.drop_last() == seen);
            assert(next.last() == e@);
            let ghost me = self@;
            if segment(e.name.as_slice()) {
                match e.kind {
                    EntryKind::Directory => {
                        let path = join(dir.as_slice(), e.name.as_slice());
                        if !self.is_pruned(path.as_slice()) {
                            self.queue.push_back(path);
                            assert(self@.queue =~= me.queue.push(path@));
                        }
                    },
                    EntryKind::File => {
                        let path = join(dir.as_slice(), e.name.as_slice());
                        if self.is_selected(path.as_slice()) {
                            self.results.push(path);
                            assert(self@.results =~= me.results.push(path@));
                        }
                    },
                    EntryKind::Other => {},
                }
            }
            assert(self@.queue =~= before.queue + before.scope.dirs_in(dir@, next));
            assert(self@.results =~= before.results + before.scope.files_in(dir@, next));
            i += 1;
        }
        assert(all.take(entries@.len() as int) == all);
    }

    /// Ends the walk and gives the selected files in discovery order.
    pub fn into_results(self) -> (r: Vec<Vec<u8>>)
        ensures
            byte_seqs(r@) == self@.results,
    {
        self.results
    }
}

} // verus!
