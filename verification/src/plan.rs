//! The complete pruning plan for one marker directory: grouping composed with
//! the deletion policy, yielding the paths of every superseded artifact.

use vstd::prelude::*;

use crate::group::{
    build_groups, eligible, group_files, groups_view, lemma_only_artifacts_grouped, mtimes,
    ArtifactFile, Group, GroupV,
};
use crate::policy::{delete_at, prune_decision};

verus! {

/// The paths that the decision deletes among the first `n` entries of one
/// group, in order.
pub open spec fn deleted_paths_from(fs: Seq<ArtifactFile>, tolerance: u64, n: int) -> Seq<
    Seq<char>,
>
    decreases n,
{
    if n <= 0 {
        Seq::empty()
    } else {
        let r = deleted_paths_from(fs, tolerance, n - 1);
        if delete_at(mtimes(fs), tolerance, n - 1) {
            r.push(fs[n - 1].path@)
        } else {
            r
        }
    }
}

/// The paths that the decision deletes in one group.
pub open spec fn deleted_paths(fs: Seq<ArtifactFile>, tolerance: u64) -> Seq<Seq<char>> {
    deleted_paths_from(fs, tolerance, fs.len() as int)
}

/// The paths that the plan deletes over a sequence of groups, group by group.
pub open spec fn plan_paths(gs: Seq<GroupV>, tolerance: u64) -> Seq<Seq<char>>
    decreases gs.len(),
{
    if gs.len() == 0 {
        Seq::empty()
    } else {
        deleted_paths(gs.first().files, tolerance) + plan_paths(gs.drop_first(), tolerance)
    }
}

/// The views of a sequence of path strings.
pub open spec fn paths_view(ps: Seq<String>) -> Seq<Seq<char>> {
    ps.map_values(|p: String| p@)
}

/// The paths of the files of one group that the deletion policy condemns.
pub fn group_deletions(g: &Group, tolerance: u64) -> (r: Vec<String>)
    ensures
        paths_view(r@) == deleted_paths(g.files@, tolerance),
{
    let flags = prune_decision(&g.files, tolerance);
    let mut r: Vec<String> = Vec::new();
    let mut i: usize = 0;
    while i < g.files.len()
        invariant
            i <= g.files.len(),
            flags.len() == g.files.len(),
            forall|j: int|
                0 <= j < g.files.len() ==> flags@[j] == delete_at(
                    mtimes(g.files@),
                    tolerance,
                    j,
                ),
            paths_view(r@) == deleted_paths_from(g.files@, tolerance, i as int),
        decreases g.files.len() - i,
    {
        if flags[i] {
            r.push(g.files[i].path.clone());
            proof {
                assert(paths_view(r@) =~= deleted_paths_from(
                    g.files@,
                    tolerance,
                    i + 1,
                ));
            }
        } else {
            proof {
                assert(paths_view(r@) =~= deleted_paths_from(
                    g.files@,
                    tolerance,
                    i + 1,
                ));
            }
        }
        i = i + 1;
    }
    r
}

/// The pruning plan of one marker directory: the listing is bucketed by
/// library-identity key, and every bucket's superseded entries are condemned
/// under the tolerance policy.  The result holds exactly the paths to delete,
/// bucket by bucket; no path of a retained file appears in it.
pub fn prune_plan(entries: Vec<ArtifactFile>, ext: &str, tolerance: u64) -> (r: Vec<String>)
    ensures
        paths_view(r@) == plan_paths(build_groups(entries@, ext@), tolerance),
{
    let groups = group_files(entries, ext);
    let ghost gvs = groups_view(groups@);
    let mut r: Vec<String> = Vec::new();
    let mut i: usize = 0;
    proof {
        assert(gvs.skip(0) =~= gvs);
        assert(paths_view(r@) + plan_paths(gvs, tolerance) =~= plan_paths(gvs, tolerance));
    }
    while i < groups.len()
        invariant
            i <= groups.len(),
            gvs == groups_view(groups@),
            plan_paths(gvs, tolerance) == paths_view(r@) + plan_paths(
                gvs.skip(i as int),
                tolerance,
            ),
        decreases groups.len() - i,
    {
        let mut dels = group_deletions(&groups[i], tolerance);
        proof {
            let rest = gvs.skip(i as int);
            assert(rest.first() == gvs[i as int]);
            assert(rest.drop_first() =~= gvs.skip(i as int + 1));
            assert(paths_view(r@ + dels@) =~= paths_view(r@) + paths_view(dels@));
            assert(paths_view(r@) + (paths_view(dels@) + plan_paths(
                gvs.skip(i as int + 1),
                tolerance,
            )) =~= (paths_view(r@) + paths_view(dels@)) + plan_paths(
                gvs.skip(i as int + 1),
                tolerance,
            ));
        }
        r.append(&mut dels);
        i = i + 1;
    }
    proof {
        assert(gvs.skip(groups@.len() as int) =~= Seq::<GroupV>::empty());
        assert(paths_view(r@) + Seq::<Seq<char>>::empty() =~= paths_view(r@));
    }
    r
}

/// A path condemned within one group is the path of one of its files, and
/// that file is one the decision marks superseded.
proof fn lemma_deleted_paths_membership(fs: Seq<ArtifactFile>, tolerance: u64, n: int, p: Seq<char>)
    requires
        0 <= n <= fs.len(),
        deleted_paths_from(fs, tolerance, n).contains(p),
    ensures
        exists|i: int|
            0 <= i < fs.len() && fs[i].path@ == p && delete_at(mtimes(fs), tolerance, i),
    decreases n,
{
    if n > 0 {
        let r = deleted_paths_from(fs, tolerance, n - 1);
        if delete_at(mtimes(fs), tolerance, n - 1) {
            let full = r.push(fs[n - 1].path@);
            let idx = choose|idx: int| 0 <= idx < full.len() && #[trigger] full[idx] == p;
            if idx < r.len() {
                assert(r[idx] == p);
                lemma_deleted_paths_membership(fs, tolerance, n - 1, p);
            } else {
                assert(fs[n - 1].path@ == p && delete_at(mtimes(fs), tolerance, n - 1));
            }
        } else {
            lemma_deleted_paths_membership(fs, tolerance, n - 1, p);
        }
    }
}

/// A path of the plan comes from one of the groups.
proof fn lemma_plan_paths_membership(gs: Seq<GroupV>, tolerance: u64, p: Seq<char>)
    requires
        plan_paths(gs, tolerance).contains(p),
    ensures
        exists|i: int| 0 <= i < gs.len() && deleted_paths(gs[i].files, tolerance).contains(p),
    decreases gs.len(),
{
    let left = deleted_paths(gs.first().files, tolerance);
    let right = plan_paths(gs.drop_first(), tolerance);
    let idx = choose|idx: int|
        0 <= idx < plan_paths(gs, tolerance).len() && plan_paths(gs, tolerance)[idx] == p;
    if idx < left.len() {
        assert(left[idx] == p);
        assert(deleted_paths(gs[0].files, tolerance).contains(p));
    } else {
        assert(right[idx - left.len()] == p);
        lemma_plan_paths_membership(gs.drop_first(), tolerance, p);
        let i = choose|i: int|
            0 <= i < gs.drop_first().len() && deleted_paths(
                gs.drop_first()[i].files,
                tolerance,
            ).contains(p);
        assert(deleted_paths(gs[i + 1].files, tolerance).contains(p));
    }
}

/// The plan touches only artifacts: every path it condemns is the path of a
/// listed file whose extension matches and whose stem yields a key, marked
/// superseded by the policy within its own group.  A file with a different
/// extension, or with a hyphen-free stem, is never deleted.
pub proof fn lemma_plan_deletes_only_artifacts(
    entries: Seq<ArtifactFile>,
    ext: Seq<char>,
    tolerance: u64,
    p: Seq<char>,
)
    requires
        plan_paths(build_groups(entries, ext), tolerance).contains(p),
    ensures
        exists|f: ArtifactFile| entries.contains(f) && eligible(f, ext) && f.path@ == p,
{
    let gs = build_groups(entries, ext);
    lemma_plan_paths_membership(gs, tolerance, p);
    let i = choose|i: int| 0 <= i < gs.len() && deleted_paths(gs[i].files, tolerance).contains(p);
    lemma_deleted_paths_membership(gs[i].files, tolerance, gs[i].files.len() as int, p);
    let l = choose|l: int|
        0 <= l < gs[i].files.len() && gs[i].files[l].path@ == p && delete_at(
            mtimes(gs[i].files),
            tolerance,
            l,
        );
    lemma_only_artifacts_grouped(entries, ext, i, l);
    assert(entries.contains(gs[i].files[l]) && eligible(gs[i].files[l], ext) && gs[i].files[l].path@
        == p);
}

} // verus!
