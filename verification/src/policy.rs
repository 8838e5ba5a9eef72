//! The deletion policy applied to one group of artifacts.
//!
//! The last entry of a group is its newest build, called the latest.  With a
//! zero tolerance every other entry goes.  With a positive tolerance the group
//! is only touched when some member lags the latest by more than the
//! tolerance; staleness of any one member then prunes every entry older than
//! the latest, while a group whose duplicates all sit inside the window is
//! retained whole.  An entry whose time lies after the latest — possible under
//! clock skew — never counts as stale and is never deleted.

use vstd::prelude::*;

use crate::group::{mtimes, ArtifactFile};

verus! {

/// Whether an entry of time `t` lags the newest time `latest` by more than
/// `tolerance` seconds.  A time at or after `latest` never exceeds.
pub open spec fn exceeds(latest: u64, t: u64, tolerance: u64) -> bool {
    t < latest && latest - t > tolerance
}

/// Whether some member of a group with times `ts` lags the latest (the last
/// entry) by more than the tolerance.
pub open spec fn group_is_stale(ts: Seq<u64>, tolerance: u64) -> bool {
    exists|i: int| 0 <= i < ts.len() && exceeds(ts.last(), ts[i], tolerance)
}

/// Whether the entry at position `i` of a group with times `ts` is to be
/// deleted.  Groups of fewer than two entries are never touched.  Tolerance
/// zero deletes everything but the last entry; a positive tolerance deletes
/// every entry strictly older than the latest, but only when some member of
/// the group exceeds the tolerance.
pub open spec fn delete_at(ts: Seq<u64>, tolerance: u64, i: int) -> bool {
    &&& ts.len() >= 2
    &&& if tolerance == 0 {
        i < ts.len() - 1
    } else {
        group_is_stale(ts, tolerance) && ts[i] < ts.last()
    }
}

/// Decides, for every file of one group, whether it is superseded and may be
/// deleted.  The group is given as grouping produced it: ascending by
/// modification time, the latest build last.
pub fn prune_decision(files: &Vec<ArtifactFile>, tolerance: u64) -> (r: Vec<bool>)
    ensures
        r.len() == files.len(),
        forall|i: int| 0 <= i < files.len() ==> r@[i] == delete_at(
            mtimes(files@),
            tolerance,
            i,
        ),
{
    let n = files.len();
    let mut r: Vec<bool> = Vec::new();
    if n < 2 {
        while r.len() < n
            invariant
                r.len() <= n,
                forall|i: int| 0 <= i < r.len() ==> r@[i] == false,
            decreases n - r.len(),
        {
            r.push(false);
        }
        return r;
    }
    let latest = files[n - 1].mtime;
    proof {
        assert(mtimes(files@).last() == latest);
    }
    if tolerance == 0 {
        let mut i: usize = 0;
        while i < n
            invariant
                i <= n,
                n == files.len(),
                n >= 2,
                tolerance == 0,
                r.len() == i,
                forall|j: int| 0 <= j < i ==> r@[j] == delete_at(mtimes(files@), tolerance, j),
            decreases n - i,
        {
            r.push(i < n - 1);
            i = i + 1;
        }
        return r;
    }
    let mut stale = false;
    let mut i: usize = 0;
    while i < n
        invariant
            i <= n,
            n == files.len(),
            latest == mtimes(files@).last(),
            stale == exists|j: int|
                0 <= j < i && exceeds(latest, mtimes(files@)[j], tolerance),
        decreases n - i,
    {
        let t = files[i].mtime;
        proof {
            assert(mtimes(files@)[i as int] == t);
        }
        if t < latest && latest - t > tolerance {
            stale = true;
            proof {
                assert(exceeds(latest, mtimes(files@)[i as int], tolerance));
            }
        } else {
            proof {
                assert(!exceeds(latest, mtimes(files@)[i as int], tolerance));
            }
        }
        i = i + 1;
    }
    proof {
        assert(stale == group_is_stale(mtimes(files@), tolerance));
    }
    let mut i: usize = 0;
    while i < n
        invariant
            i <= n,
            n == files.len(),
            n >= 2,
            tolerance != 0,
            latest == mtimes(files@).last(),
            stale == group_is_stale(mtimes(files@), tolerance),
            r.len() == i,
            forall|j: int| 0 <= j < i ==> r@[j] == delete_at(mtimes(files@), tolerance, j),
        decreases n - i,
    {
        r.push(stale && files[i].mtime < latest);
        i = i + 1;
    }
    r
}

/// A group of fewer than two entries is never acted upon, whatever the
/// tolerance.
pub proof fn lemma_single_file_group_kept(ts: Seq<u64>, tolerance: u64)
    requires
        ts.len() < 2,
    ensures
        forall|i: int| !delete_at(ts, tolerance, i),
{
}

/// With a positive tolerance, a group whose members all sit within the
/// tolerance window of the latest is retained whole.
pub proof fn lemma_fresh_group_retained(ts: Seq<u64>, tolerance: u64)
    requires
        tolerance > 0,
        forall|i: int| 0 <= i < ts.len() ==> !exceeds(ts.last(), ts[i], tolerance),
    ensures
        forall|i: int| !delete_at(ts, tolerance, i),
{
}

/// With a positive tolerance, one member past the window prunes the whole
/// group: exactly the entries strictly older than the latest are deleted,
/// those within the window included.
pub proof fn lemma_stale_group_pruned(ts: Seq<u64>, tolerance: u64)
    requires
        tolerance > 0,
        ts.len() >= 2,
        group_is_stale(ts, tolerance),
    ensures
        forall|i: int|
            0 <= i < ts.len() ==> (delete_at(ts, tolerance, i) <==> ts[i] < ts.last()),
{
}

/// Clock skew is harmless: with a positive tolerance, an entry whose time
/// lies at or after the latest never counts toward staleness and is never a
/// deletion candidate.
pub proof fn lemma_skewed_entry_kept(ts: Seq<u64>, tolerance: u64, i: int)
    requires
        tolerance > 0,
        0 <= i < ts.len(),
        ts[i] >= ts.last(),
    ensures
        !delete_at(ts, tolerance, i),
        !exceeds(ts.last(), ts[i], tolerance),
{
}

/// The times of the first `n` entries that the decision leaves in place, in
/// their given order.
pub open spec fn kept_from(ts: Seq<u64>, tolerance: u64, n: int) -> Seq<u64>
    decreases n,
{
    if n <= 0 {
        Seq::empty()
    } else {
        let r = kept_from(ts, tolerance, n - 1);
        if delete_at(ts, tolerance, n - 1) {
            r
        } else {
            r.push(ts[n - 1])
        }
    }
}

/// The times of the entries that survive one application of the decision.
pub open spec fn survivors(ts: Seq<u64>, tolerance: u64) -> Seq<u64> {
    kept_from(ts, tolerance, ts.len() as int)
}

/// When nothing is deleted, the survivors are the group itself.
proof fn lemma_kept_all(ts: Seq<u64>, tolerance: u64, n: int)
    requires
        0 <= n <= ts.len(),
        forall|m: int| !delete_at(ts, tolerance, m),
    ensures
        kept_from(ts, tolerance, n) =~= ts.take(n),
    decreases n,
{
    if n > 0 {
        lemma_kept_all(ts, tolerance, n - 1);
    }
}

/// Under tolerance zero only the last entry survives.
proof fn lemma_kept_zero_tolerance(ts: Seq<u64>, n: int)
    requires
        ts.len() >= 2,
        0 <= n <= ts.len(),
    ensures
        kept_from(ts, 0, n) =~= if n < ts.len() {
            Seq::<u64>::empty()
        } else {
            seq![ts.last()]
        },
    decreases n,
{
    if n > 0 {
        lemma_kept_zero_tolerance(ts, n - 1);
    }
}

/// In a stale group every survivor's time is at least the latest, and the
/// latest itself survives in last position.
proof fn lemma_kept_stale(ts: Seq<u64>, tolerance: u64, n: int)
    requires
        tolerance > 0,
        ts.len() >= 2,
        group_is_stale(ts, tolerance),
        0 <= n <= ts.len(),
    ensures
        forall|i: int|
            0 <= i < kept_from(ts, tolerance, n).len() ==> kept_from(ts, tolerance, n)[i]
                >= ts.last(),
        n == ts.len() ==> kept_from(ts, tolerance, n).len() >= 1 && kept_from(
            ts,
            tolerance,
            n,
        ).last() == ts.last(),
    decreases n,
{
    if n > 0 {
        lemma_kept_stale(ts, tolerance, n - 1);
        let r = kept_from(ts, tolerance, n - 1);
        if !delete_at(ts, tolerance, n - 1) {
            assert(ts[n - 1] >= ts.last());
            assert forall|i: int| 0 <= i < r.push(ts[n - 1]).len() implies #[trigger] r.push(
                ts[n - 1],
            )[i] >= ts.last() by {
                if i < r.len() {
                    assert(r[i] >= ts.last());
                }
            }
        }
    }
}

/// Pruning is idempotent: applying the decision to the survivors of a group
/// deletes nothing further.  A surviving group either has a single member, or
/// every member's time equals the latest, or it was retained whole because no
/// member exceeded the tolerance.
pub proof fn lemma_prune_idempotent(ts: Seq<u64>, tolerance: u64)
    ensures
        forall|i: int| !delete_at(survivors(ts, tolerance), tolerance, i),
{
    let s = survivors(ts, tolerance);
    if ts.len() < 2 {
        lemma_kept_all(ts, tolerance, ts.len() as int);
        assert(s.len() < 2);
    } else if tolerance == 0 {
        lemma_kept_zero_tolerance(ts, ts.len() as int);
        assert(s.len() < 2);
    } else if group_is_stale(ts, tolerance) {
        lemma_kept_stale(ts, tolerance, ts.len() as int);
        assert(s.last() == ts.last());
        assert forall|i: int| !delete_at(s, tolerance, i) by {
            if 0 <= i < s.len() {
                assert(s[i] >= ts.last());
            }
            assert(!group_is_stale(s, tolerance)) by {
                assert forall|j: int| 0 <= j < s.len() implies !exceeds(
                    s.last(),
                    s[j],
                    tolerance,
                ) by {
                    assert(s[j] >= ts.last());
                }
            }
        }
    } else {
        assert forall|m: int| !delete_at(ts, tolerance, m) by {}
        lemma_kept_all(ts, tolerance, ts.len() as int);
        assert(s =~= ts);
    }
}

/// The first `n` files of a group that the decision leaves in place, in
/// their given order.
pub open spec fn surviving_from(fs: Seq<ArtifactFile>, tolerance: u64, n: int) -> Seq<ArtifactFile>
    decreases n,
{
    if n <= 0 {
        Seq::empty()
    } else {
        let r = surviving_from(fs, tolerance, n - 1);
        if delete_at(mtimes(fs), tolerance, n - 1) {
            r
        } else {
            r.push(fs[n - 1])
        }
    }
}

/// The files of a group that survive one application of the decision.
pub open spec fn surviving_files(fs: Seq<ArtifactFile>, tolerance: u64) -> Seq<ArtifactFile> {
    surviving_from(fs, tolerance, fs.len() as int)
}

/// The surviving files carry exactly the surviving times.
proof fn lemma_surviving_mtimes(fs: Seq<ArtifactFile>, tolerance: u64, n: int)
    requires
        0 <= n <= fs.len(),
    ensures
        mtimes(surviving_from(fs, tolerance, n)) =~= kept_from(mtimes(fs), tolerance, n),
    decreases n,
{
    if n > 0 {
        lemma_surviving_mtimes(fs, tolerance, n - 1);
        let r = surviving_from(fs, tolerance, n - 1);
        if !delete_at(mtimes(fs), tolerance, n - 1) {
            assert(mtimes(r.push(fs[n - 1])) =~= mtimes(r).push(fs[n - 1].mtime));
            assert(mtimes(fs)[n - 1] == fs[n - 1].mtime);
        }
    }
}

/// Pruning a group of files is idempotent: the decision applied to what one
/// application leaves behind deletes nothing further.
pub proof fn lemma_group_prune_idempotent(fs: Seq<ArtifactFile>, tolerance: u64)
    ensures
        forall|i: int| !delete_at(mtimes(surviving_files(fs, tolerance)), tolerance, i),
{
    lemma_surviving_mtimes(fs, tolerance, fs.len() as int);
    lemma_prune_idempotent(mtimes(fs), tolerance);
    assert(mtimes(fs).len() == fs.len());
    assert(mtimes(surviving_files(fs, tolerance)) == survivors(mtimes(fs), tolerance));
}

} // verus!
