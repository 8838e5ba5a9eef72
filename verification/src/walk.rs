//! Discovery of marker directories in a directory tree.
//!
//! The walker descends a snapshot of the directory hierarchy and emits every
//! directory whose name equals the marker name.  A marker directory is
//! emitted and not descended into, so a marker directory nested inside
//! another is never independently discovered: only the outermost one of any
//! chain is processed.

use vstd::prelude::*;

use crate::key::str_eq;
use crate::plan::paths_view;

verus! {

/// One directory of the scanned hierarchy: its full path, its own name, and
/// its direct subdirectories.  Plain files play no part in discovery and are
/// not recorded.
pub struct DirTree {
    pub path: String,
    pub name: String,
    pub subdirs: Vec<DirTree>,
}

/// The paths that the walk of `t` emits: `t`'s own path when `t` is a marker
/// directory, else whatever the walks of its subdirectories emit.
pub open spec fn marker_paths(t: DirTree, marker: Seq<char>) -> Seq<Seq<char>>
    decreases t,
{
    if t.name@ == marker {
        seq![t.path@]
    } else {
        marker_paths_seq(t.subdirs@, marker)
    }
}

/// The concatenated emissions of a sequence of sibling directories, in order.
pub open spec fn marker_paths_seq(ts: Seq<DirTree>, marker: Seq<char>) -> Seq<Seq<char>>
    decreases ts,
{
    if ts.len() == 0 {
        Seq::empty()
    } else {
        marker_paths_seq(ts.drop_last(), marker) + marker_paths(ts.last(), marker)
    }
}

/// Whether the walk of `t` reaches directory `n` and processes it: `n` is a
/// marker directory, and no marker directory stands strictly between `t` and
/// `n`.
pub open spec fn discovered_from(t: DirTree, marker: Seq<char>, n: DirTree) -> bool
    decreases t,
{
    if t.name@ == marker {
        n == t
    } else {
        exists|i: int| 0 <= i < t.subdirs@.len() && discovered_from(t.subdirs@[i], marker, n)
    }
}

/// Walks the directory snapshot and returns the path of every marker
/// directory that no other marker directory encloses, in depth-first order.
pub fn find_markers(t: &DirTree, marker: &str) -> (r: Vec<String>)
    ensures
        paths_view(r@) == marker_paths(*t, marker@),
    decreases *t,
{
    if str_eq(t.name.as_str(), marker) {
        let mut r: Vec<String> = Vec::new();
        r.push(t.path.clone());
        proof {
            assert(paths_view(r@) =~= seq![t.path@]);
        }
        r
    } else {
        let mut r: Vec<String> = Vec::new();
        let mut i: usize = 0;
        proof {
            assert(t.subdirs@.take(0) =~= Seq::<DirTree>::empty());
        }
        while i < t.subdirs.len()
            invariant
                i <= t.subdirs@.len(),
                paths_view(r@) == marker_paths_seq(t.subdirs@.take(i as int), marker@),
            decreases t.subdirs@.len() - i,
        {
            proof {
                assert(decreases_to!(*t => t.subdirs@[i as int]));
            }
            let mut sub = find_markers(&t.subdirs[i], marker);
            proof {
                let pre = t.subdirs@.take(i as int);
                let post = t.subdirs@.take(i as int + 1);
                assert(post.drop_last() =~= pre);
                assert(post.last() == t.subdirs@[i as int]);
                assert(paths_view(r@ + sub@) =~= paths_view(r@) + paths_view(sub@));
            }
            r.append(&mut sub);
            i = i + 1;
        }
        proof {
            assert(t.subdirs@.take(t.subdirs@.len() as int) =~= t.subdirs@);
        }
        r
    }
}

/// A marker directory is emitted alone: the walk does not descend into it,
/// so nothing beneath it — a nested marker directory included — is ever
/// discovered.
pub proof fn lemma_marker_boundary(t: DirTree, marker: Seq<char>)
    requires
        t.name@ == marker,
    ensures
        marker_paths(t, marker) == seq![t.path@],
{
}

/// Every directory the walk processes is a marker directory.
pub proof fn lemma_discovered_is_marker(t: DirTree, marker: Seq<char>, n: DirTree)
    requires
        discovered_from(t, marker, n),
    ensures
        n.name@ == marker,
    decreases t,
{
    if t.name@ == marker {
    } else {
        let i = choose|i: int|
            0 <= i < t.subdirs@.len() && discovered_from(t.subdirs@[i], marker, n);
        lemma_discovered_is_marker(t.subdirs@[i], marker, n);
    }
}

proof fn lemma_emitted_sound_seq(ts: Seq<DirTree>, marker: Seq<char>, p: Seq<char>)
    requires
        marker_paths_seq(ts, marker).contains(p),
    ensures
        exists|i: int, n: DirTree|
            0 <= i < ts.len() && discovered_from(ts[i], marker, n) && n.path@ == p,
    decreases ts,
{
    let left = marker_paths_seq(ts.drop_last(), marker);
    let right = marker_paths(ts.last(), marker);
    let idx = choose|idx: int|
        0 <= idx < marker_paths_seq(ts, marker).len() && marker_paths_seq(ts, marker)[idx] == p;
    if idx < left.len() {
        assert(left[idx] == p);
        lemma_emitted_sound_seq(ts.drop_last(), marker, p);
        let (i, n) = choose|i: int, n: DirTree|
            0 <= i < ts.drop_last().len() && discovered_from(ts.drop_last()[i], marker, n)
                && n.path@ == p;
        assert(discovered_from(ts[i], marker, n));
    } else {
        assert(right[idx - left.len()] == p);
        lemma_emitted_sound_tree(ts.last(), marker, p);
        let n = choose|n: DirTree| discovered_from(ts.last(), marker, n) && n.path@ == p;
        assert(discovered_from(ts[ts.len() - 1], marker, n));
    }
}

proof fn lemma_emitted_sound_tree(t: DirTree, marker: Seq<char>, p: Seq<char>)
    requires
        marker_paths(t, marker).contains(p),
    ensures
        exists|n: DirTree| discovered_from(t, marker, n) && n.path@ == p,
    decreases t,
{
    if t.name@ == marker {
        assert(p == t.path@);
        assert(discovered_from(t, marker, t) && t.path@ == p);
    } else {
        lemma_emitted_sound_seq(t.subdirs@, marker, p);
        let (i, n) = choose|i: int, n: DirTree|
            0 <= i < t.subdirs@.len() && discovered_from(t.subdirs@[i], marker, n) && n.path@
                == p;
        assert(discovered_from(t, marker, n) && n.path@ == p);
    }
}

proof fn lemma_emitted_complete_seq(ts: Seq<DirTree>, marker: Seq<char>, i: int, n: DirTree)
    requires
        0 <= i < ts.len(),
        discovered_from(ts[i], marker, n),
    ensures
        marker_paths_seq(ts, marker).contains(n.path@),
    decreases ts,
{
    let left = marker_paths_seq(ts.drop_last(), marker);
    let right = marker_paths(ts.last(), marker);
    if i == ts.len() - 1 {
        lemma_emitted_complete_tree(ts.last(), marker, n);
        let idx = choose|idx: int| 0 <= idx < right.len() && right[idx] == n.path@;
        assert(marker_paths_seq(ts, marker)[left.len() + idx] == n.path@);
    } else {
        lemma_emitted_complete_seq(ts.drop_last(), marker, i, n);
        let idx = choose|idx: int| 0 <= idx < left.len() && left[idx] == n.path@;
        assert(marker_paths_seq(ts, marker)[idx] == n.path@);
    }
}

proof fn lemma_emitted_complete_tree(t: DirTree, marker: Seq<char>, n: DirTree)
    requires
        discovered_from(t, marker, n),
    ensures
        marker_paths(t, marker).contains(n.path@),
    decreases t,
{
    if t.name@ == marker {
        assert(marker_paths(t, marker)[0] == t.path@);
    } else {
        let i = choose|i: int|
            0 <= i < t.subdirs@.len() && discovered_from(t.subdirs@[i], marker, n);
        lemma_emitted_complete_seq(t.subdirs@, marker, i, n);
    }
}

/// The walk emits exactly the paths of the outermost marker directories: a
/// path is emitted precisely when it belongs to a marker directory that the
/// walk reaches without first entering another marker directory.  In
/// particular a marker directory nested inside another is never emitted on
/// its own.
pub proof fn lemma_walk_finds_outer_markers(t: DirTree, marker: Seq<char>, p: Seq<char>)
    ensures
        marker_paths(t, marker).contains(p) <==> exists|n: DirTree|
            discovered_from(t, marker, n) && n.path@ == p,
{
    if marker_paths(t, marker).contains(p) {
        lemma_emitted_sound_tree(t, marker, p);
    }
    if exists|n: DirTree| discovered_from(t, marker, n) && n.path@ == p {
        let n = choose|n: DirTree| discovered_from(t, marker, n) && n.path@ == p;
        lemma_emitted_complete_tree(t, marker, n);
    }
}

} // verus!
