//! Sifting what a ready-made directory walker has found.
//!
//! Other walkers match the patterns themselves and report directories and
//! files alike. What is left to decide is which of the reported paths
//! count: directories never do, and with some walkers hidden paths have to
//! be dropped afterwards.

use vstd::prelude::*;
use crate::glob::byte_seqs;
use crate::path::{copy_bytes, has_hidden_component, hidden_component, DOT, SLASH};

verus! {

/// A path that a walker has reported, with what it said of its kind.
#[derive(Debug)]
pub struct Found {
    pub path: Vec<u8>,
    pub is_dir: bool,
}

impl View for Found {
    type V = (Seq<u8>, bool);

    open spec fn view(&self) -> (Seq<u8>, bool) {
        (self.path@, self.is_dir)
    }
}

/// The views of a list of reported paths.
pub open spec fn found_views(found: Seq<Found>) -> Seq<(Seq<u8>, bool)> {
    found.map_values(|f: Found| f@)
}

/// The reported paths that are not directories, in the order reported.
pub open spec fn files_of(found: Seq<(Seq<u8>, bool)>) -> Seq<Seq<u8>> {
    found.filter(|f: (Seq<u8>, bool)| !f.1).map_values(|f: (Seq<u8>, bool)| f.0)
}

/// The reported paths that are not directories and have no hidden
/// component, in the order reported.
pub open spec fn visible_files_of(found: Seq<(Seq<u8>, bool)>) -> Seq<Seq<u8>> {
    found.filter(|f: (Seq<u8>, bool)| !f.1 && !has_hidden_component(f.0)).map_values(
        |f: (Seq<u8>, bool)| f.0,
    )
}

/// The pattern `!.*`, which takes hidden entries at the top out of a
/// pattern list.
pub open spec fn hide_top() -> Seq<u8> {
    seq![33u8, 46u8, 42u8]
}

/// The pattern `!.*/**`, which takes whatever lies below a hidden entry at
/// the top out of a pattern list.
pub open spec fn hide_below() -> Seq<u8> {
    seq![33u8, 46u8, 42u8, 47u8, 42u8, 42u8]
}

/// Filtering a list grown by one element keeps or drops that element and
/// leaves the rest as it was.
proof fn lemma_filter_step<A>(s: Seq<A>, i: int, keep: spec_fn(A) -> bool)
    requires
        0 <= i < s.len(),
    ensures
        s.take(i + 1).filter(keep) == if keep(s[i]) {
            s.take(i).filter(keep).push(s[i])
        } else {
            s.take(i).filter(keep)
        },
{
    reveal(Seq::filter);
    assert(s.take(i + 1).drop_last() == s.take(i));
}

/// Keeps the paths that are not directories.
pub fn files_only(found: &Vec<Found>) -> (files: Vec<Vec<u8>>)
    ensures
        byte_seqs(files@) == files_of(found_views(found@)),
{
    let ghost all = found_views(found@);
    let ghost keep = |f: (Seq<u8>, bool)| !f.1;
    let mut files: Vec<Vec<u8>> = Vec::new();
    let mut i: usize = 0;
    assert(all.take(0).filter(keep) =~= Seq::empty()) by {
        reveal(Seq::filter);
    }
    while i < found.len()
        invariant
            i <= found.len(),
            all == found_views(found@),
            keep == |f: (Seq<u8>, bool)| !f.1,
            byte_seqs(files@) =~= files_of(all.take(i as int)),
        decreases found.len() - i,
    {
        let ghost kept = all.take(i as int).filter(keep);
        let ghost before = byte_seqs(files@);
        proof {
            lemma_filter_step(all, i as int, keep);
            assert(all[i as int] == found@[i as int]@);
        }
        if !found[i].is_dir {
            files.push(copy_bytes(found[i].path.as_slice()));
            assert(byte_seqs(files@) =~= before.push(found@[i as int].path@));
            assert(kept.push(all[i as int]).map_values(|f: (Seq<u8>, bool)| f.0) =~= before.push(
                all[i as int].0,
            ));
        }
        i += 1;
    }
    assert(all.take(found@.len() as int) == all);
    files
}

/// Keeps the paths that are neither directories nor hidden.
pub fn visible_files(found: &Vec<Found>) -> (files: Vec<Vec<u8>>)
    ensures
        byte_seqs(files@) == visible_files_of(found_views(found@)),
{
    let ghost all = found_views(found@);
    let ghost keep = |f: (Seq<u8>, bool)| !f.1 && !has_hidden_component(f.0);
    let mut files: Vec<Vec<u8>> = Vec::new();
    let mut i: usize = 0;
    assert(all.take(0).filter(keep) =~= Seq::empty()) by {
        reveal(Seq::filter);
    }
    while i < found.len()
        invariant
            i <= found.len(),
            all == found_views(found@),
            keep == |f: (Seq<u8>, bool)| !f.1 && !has_hidden_component(f.0),
            byte_seqs(files@) =~= visible_files_of(all.take(i as int)),
        decreases found.len() - i,
    {
        let ghost kept = all.take(i as int).filter(keep);
        let ghost before = byte_seqs(files@);
        proof {
            lemma_filter_step(all, i as int, keep);
            assert(all[i as int] == found@[i as int]@);
        }
        if !found[i].is_dir && !hidden_component(found[i].path.as_slice()) {
            files.push(copy_bytes(found[i].path.as_slice()));
            assert(byte_seqs(files@) =~= before.push(found@[i as int].path@));
            assert(kept.push(all[i as int]).map_values(|f: (Seq<u8>, bool)| f.0) =~= before.push(
                all[i as int].0,
            ));
        }
        i += 1;
    }
    assert(all.take(found@.len() as int) == all);
    files
}

/// Extends a pattern list by the two negated patterns that keep a walker
/// out of hidden entries at the top of the tree and of what lies below
/// them.
pub fn with_hidden_excluded(patterns: &Vec<Vec<u8>>) -> (all: Vec<Vec<u8>>)
    ensures
        byte_seqs(all@) == byte_seqs(patterns@).push(hide_top()).push(hide_below()),
{
    let mut all: Vec<Vec<u8>> = Vec::new();
    let mut i: usize = 0;
    while i < patterns.len()
        invariant
            i <= patterns.len(),
            byte_seqs(all@) =~= byte_seqs(patterns@).take(i as int),
        decreases patterns.len() - i,
    {
        let ghost before = byte_seqs(all@);
        all.push(copy_bytes(patterns[i].as_slice()));
        assert(byte_seqs(all@) =~= before.push(patterns@[i as int]@));
        i += 1;
    }
    let ghost copied = byte_seqs(all@);
    assert(copied =~= byte_seqs(patterns@));
    let mut top: Vec<u8> = Vec::new();
    top.push(33u8);
    top.push(DOT);
    top.push(42u8);
    let mut below: Vec<u8> = Vec::new();
    below.push(33u8);
    below.push(DOT);
    below.push(42u8);
    below.push(SLASH);
    below.push(42u8);
    below.push(42u8);
    assert(top@ =~= hide_top());
    assert(below@ =~= hide_below());
    all.push(top);
    assert(byte_seqs(all@) =~= copied.push(hide_top()));
    all.push(below);
    assert(byte_seqs(all@) =~= copied.push(hide_top()).push(hide_below()));
    all
}

} // verus!
