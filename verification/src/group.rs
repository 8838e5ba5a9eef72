//! Grouping of artifact files by library-identity key.
//!
//! The listing of one marker directory is reduced to the files whose extension
//! matches the recognized artifact extension and whose stem yields a key; the
//! survivors are bucketed by key, and every bucket is kept sorted ascending by
//! modification time.  Ties keep their insertion order, so a bucket is a
//! stable sort of the eligible files in enumeration order.

use vstd::prelude::*;
use vstd::multiset::group_multiset_axioms;
use vstd::seq_lib::{group_to_multiset_ensures, lemma_multiset_commutative};

use crate::key::{library_key, stem_key, str_eq};

verus! {

/// One file of a marker directory's listing: its full path, the file name
/// split into stem and extension, and its modification time in whole seconds.
#[derive(Debug, Clone)]
pub struct ArtifactFile {
    pub path: String,
    pub stem: String,
    pub extension: String,
    pub mtime: u64,
}

/// All artifacts that share one library-identity key, sorted ascending by
/// modification time.
pub struct Group {
    pub key: String,
    pub files: Vec<ArtifactFile>,
}

/// The mathematical value of a [`Group`]: its key as a character sequence and
/// its files in order.
pub ghost struct GroupV {
    pub key: Seq<char>,
    pub files: Seq<ArtifactFile>,
}

impl View for Group {
    type V = GroupV;

    open spec fn view(&self) -> GroupV {
        GroupV { key: self.key@, files: self.files@ }
    }
}

/// The views of a sequence of groups.
pub open spec fn groups_view(gs: Seq<Group>) -> Seq<GroupV> {
    gs.map_values(|g: Group| g@)
}

/// A file takes part in grouping exactly when its extension is the recognized
/// one and its stem yields a key.
pub open spec fn eligible(f: ArtifactFile, ext: Seq<char>) -> bool {
    f.extension@ == ext && stem_key(f.stem@) is Some
}

/// The modification times of a file sequence, in the same order.
pub open spec fn mtimes(fs: Seq<ArtifactFile>) -> Seq<u64> {
    fs.map_values(|f: ArtifactFile| f.mtime)
}

/// A file sequence ordered ascending by modification time.
pub open spec fn sorted_by_mtime(fs: Seq<ArtifactFile>) -> bool {
    forall|p: int, q: int| 0 <= p < q < fs.len() ==> fs[p].mtime <= fs[q].mtime
}

/// Stable ascending insertion: `f` goes in front of the first entry whose
/// modification time strictly exceeds `f`'s, so equal times keep insertion
/// order.
pub open spec fn insert_sorted(fs: Seq<ArtifactFile>, f: ArtifactFile) -> Seq<ArtifactFile>
    decreases fs.len(),
{
    if fs.len() == 0 {
        seq![f]
    } else if fs.first().mtime <= f.mtime {
        seq![fs.first()] + insert_sorted(fs.drop_first(), f)
    } else {
        seq![f] + fs
    }
}

/// Inserting at the first position whose entry is strictly younger than `f`
/// realizes `insert_sorted`.
proof fn lemma_insert_sorted_at(fs: Seq<ArtifactFile>, f: ArtifactFile, j: int)
    requires
        0 <= j <= fs.len(),
        forall|l: int| 0 <= l < j ==> fs[l].mtime <= f.mtime,
        j < fs.len() ==> fs[j].mtime > f.mtime,
    ensures
        insert_sorted(fs, f) =~= fs.subrange(0, j) + seq![f] + fs.subrange(j, fs.len() as int),
    decreases fs.len(),
{
    if fs.len() == 0 {
    } else if fs.first().mtime <= f.mtime {
        lemma_insert_sorted_at(fs.drop_first(), f, j - 1);
        assert(fs.drop_first().subrange(0, j - 1) =~= fs.subrange(1, j));
        assert(fs.drop_first().subrange(j - 1, fs.drop_first().len() as int) =~= fs.subrange(
            j,
            fs.len() as int,
        ));
    } else {
        assert(j == 0);
    }
}

/// Inserts `f` into `files` keeping the ascending order by modification time,
/// placing it after every entry whose time does not exceed `f`'s.
fn insert_sorted_file(files: &mut Vec<ArtifactFile>, f: ArtifactFile)
    ensures
        final(files)@ == insert_sorted(old(files)@, f),
{
    let mut j: usize = 0;
    while j < files.len() && files[j].mtime <= f.mtime
        invariant
            j <= files.len(),
            forall|l: int| 0 <= l < j ==> files@[l].mtime <= f.mtime,
        decreases files.len() - j,
    {
        j = j + 1;
    }
    proof {
        lemma_insert_sorted_at(files@, f, j as int);
    }
    files.insert(j, f);
    proof {
        assert(files@ =~= old(files)@.subrange(0, j as int) + seq![f] + old(files)@.subrange(
            j as int,
            old(files)@.len() as int,
        ));
    }
}

/// Files a new artifact under key `k`: the first group carrying `k` receives
/// it by stable sorted insertion; when no group carries `k`, a fresh group is
/// appended at the end.
pub open spec fn insert_into(gs: Seq<GroupV>, k: Seq<char>, f: ArtifactFile) -> Seq<GroupV>
    decreases gs.len(),
{
    if gs.len() == 0 {
        seq![GroupV { key: k, files: seq![f] }]
    } else if gs.first().key == k {
        seq![GroupV { key: k, files: insert_sorted(gs.first().files, f) }] + gs.drop_first()
    } else {
        seq![gs.first()] + insert_into(gs.drop_first(), k, f)
    }
}

/// When the first group carrying `k` stands at index `j`, `insert_into` only
/// rewrites that group.
proof fn lemma_insert_into_at(gs: Seq<GroupV>, k: Seq<char>, f: ArtifactFile, j: int)
    requires
        0 <= j < gs.len(),
        gs[j].key == k,
        forall|l: int| 0 <= l < j ==> gs[l].key != k,
    ensures
        insert_into(gs, k, f) =~= gs.update(
            j,
            GroupV { key: k, files: insert_sorted(gs[j].files, f) },
        ),
    decreases gs.len(),
{
    if j == 0 {
    } else {
        lemma_insert_into_at(gs.drop_first(), k, f, j - 1);
    }
}

/// When no group carries `k`, `insert_into` appends a fresh singleton group.
proof fn lemma_insert_into_missing(gs: Seq<GroupV>, k: Seq<char>, f: ArtifactFile)
    requires
        forall|l: int| 0 <= l < gs.len() ==> gs[l].key != k,
    ensures
        insert_into(gs, k, f) =~= gs.push(GroupV { key: k, files: seq![f] }),
    decreases gs.len(),
{
    if gs.len() > 0 {
        lemma_insert_into_missing(gs.drop_first(), k, f);
    }
}

/// Files one artifact under key `k` among the groups built so far.
fn insert_file(groups: &mut Vec<Group>, k: String, f: ArtifactFile)
    ensures
        groups_view(final(groups)@) == insert_into(groups_view(old(groups)@), k@, f),
{
    let mut j: usize = 0;
    while j < groups.len()
        invariant
            j <= groups.len(),
            groups@ == old(groups)@,
            forall|l: int| 0 <= l < j ==> groups@[l].key@ != k@,
        decreases groups.len() - j,
    {
        if groups[j].key == k {
            proof {
                assert(groups_view(groups@)[j as int].key == k@);
                lemma_insert_into_at(groups_view(groups@), k@, f, j as int);
            }
            let mut g = groups.remove(j);
            insert_sorted_file(&mut g.files, f);
            let ghost gsnap = g;
            groups.insert(j, g);
            proof {
                let gv0 = groups_view(old(groups)@);
                assert(gsnap@ == GroupV { key: k@, files: insert_sorted(gv0[j as int].files, f) });
                assert(groups@ =~= old(groups)@.update(j as int, gsnap));
                assert(groups_view(groups@) =~= gv0.update(j as int, gsnap@));
                assert(groups_view(groups@) =~= insert_into(gv0, k@, f));
            }
            return;
        }
        j = j + 1;
    }
    proof {
        lemma_insert_into_missing(groups_view(groups@), k@, f);
    }
    let mut first_files: Vec<ArtifactFile> = Vec::new();
    first_files.push(f);
    proof {
        assert(first_files@ =~= seq![f]);
    }
    groups.push(Group { key: k, files: first_files });
    proof {
        assert(groups@.last()@ == GroupV { key: k@, files: seq![f] });
        assert(groups_view(groups@) =~= insert_into(groups_view(old(groups)@), k@, f));
    }
}

/// The groups that one directory listing gives rise to, in order of first
/// appearance of each key; files that are not eligible leave no trace.
pub open spec fn build_groups(entries: Seq<ArtifactFile>, ext: Seq<char>) -> Seq<GroupV>
    decreases entries.len(),
{
    if entries.len() == 0 {
        Seq::empty()
    } else {
        let gs = build_groups(entries.drop_last(), ext);
        let f = entries.last();
        if eligible(f, ext) {
            insert_into(gs, stem_key(f.stem@).unwrap(), f)
        } else {
            gs
        }
    }
}

/// Buckets a directory listing by library-identity key.  Only files whose
/// extension matches `ext` and whose stem yields a key take part; every
/// bucket is sorted ascending by modification time, ties keeping enumeration
/// order.
pub fn group_files(entries: Vec<ArtifactFile>, ext: &str) -> (r: Vec<Group>)
    ensures
        groups_view(r@) == build_groups(entries@, ext@),
        wf_groups(groups_view(r@), ext@),
{
    proof {
        lemma_build_groups_wf(entries@, ext@);
    }
    let ghost all = entries@;
    let mut entries = entries;
    let mut groups: Vec<Group> = Vec::new();
    let ghost mut done: int = 0;
    while entries.len() > 0
        invariant
            0 <= done <= all.len(),
            entries@ == all.subrange(done, all.len() as int),
            groups_view(groups@) == build_groups(all.subrange(0, done), ext@),
        decreases entries.len(),
    {
        let f = entries.remove(0);
        proof {
            assert(f == all[done]);
            assert(entries@ =~= all.subrange(done + 1, all.len() as int));
            assert(all.subrange(0, done + 1).drop_last() =~= all.subrange(0, done));
            assert(all.subrange(0, done + 1).last() == f);
        }
        if str_eq(f.extension.as_str(), ext) {
            match library_key(f.stem.as_str()) {
                Some(k) => {
                    proof {
                        assert(eligible(f, ext@));
                        assert(stem_key(f.stem@).unwrap() == k@);
                    }
                    insert_file(&mut groups, k, f);
                },
                None => {
                    proof {
                        assert(!eligible(f, ext@));
                    }
                },
            }
        } else {
            proof {
                assert(!eligible(f, ext@));
            }
        }
        proof {
            done = done + 1;
        }
    }
    proof {
        assert(all.subrange(0, all.len() as int) =~= all);
    }
    groups
}

/// The files of the first group carrying key `k`, or the empty sequence when
/// no group does.
pub open spec fn files_for_key(gs: Seq<GroupV>, k: Seq<char>) -> Seq<ArtifactFile>
    decreases gs.len(),
{
    if gs.len() == 0 {
        Seq::empty()
    } else if gs.first().key == k {
        gs.first().files
    } else {
        files_for_key(gs.drop_first(), k)
    }
}

/// The eligible files of a listing whose key is `k`, in enumeration order.
pub open spec fn with_key(entries: Seq<ArtifactFile>, ext: Seq<char>, k: Seq<char>) -> Seq<
    ArtifactFile,
>
    decreases entries.len(),
{
    if entries.len() == 0 {
        Seq::empty()
    } else {
        let r = with_key(entries.drop_last(), ext, k);
        let f = entries.last();
        if eligible(f, ext) && stem_key(f.stem@) == Some(k) {
            r.push(f)
        } else {
            r
        }
    }
}

/// No two files of the sequence share a modification time.
pub open spec fn distinct_mtimes(fs: Seq<ArtifactFile>) -> bool {
    forall|i: int, j: int| 0 <= i < j < fs.len() ==> fs[i].mtime != fs[j].mtime
}

/// Inserting keeps the contents: one more copy of `f`, nothing else changed.
proof fn lemma_insert_sorted_multiset(fs: Seq<ArtifactFile>, f: ArtifactFile)
    ensures
        insert_sorted(fs, f).to_multiset() =~= fs.to_multiset().insert(f),
    decreases fs.len(),
{
    broadcast use group_multiset_axioms;
    broadcast use group_to_multiset_ensures;

    if fs.len() == 0 {
        assert(seq![f] =~= Seq::<ArtifactFile>::empty().push(f));
    } else if fs.first().mtime <= f.mtime {
        lemma_insert_sorted_multiset(fs.drop_first(), f);
        lemma_multiset_commutative(seq![fs.first()], insert_sorted(fs.drop_first(), f));
        lemma_multiset_commutative(seq![fs.first()], fs.drop_first());
        assert(seq![fs.first()] + fs.drop_first() =~= fs);
    } else {
        lemma_multiset_commutative(seq![f], fs);
        assert(seq![f] =~= Seq::<ArtifactFile>::empty().push(f));
    }
}

/// Inserting into a sorted sequence keeps it sorted, and adds no file other
/// than `f`.
proof fn lemma_insert_sorted_sorted(fs: Seq<ArtifactFile>, f: ArtifactFile)
    requires
        sorted_by_mtime(fs),
    ensures
        sorted_by_mtime(insert_sorted(fs, f)),
    decreases fs.len(),
{
    broadcast use group_multiset_axioms;
    broadcast use group_to_multiset_ensures;

    if fs.len() == 0 {
    } else if fs.first().mtime <= f.mtime {
        assert(sorted_by_mtime(fs.drop_first()));
        lemma_insert_sorted_sorted(fs.drop_first(), f);
        lemma_insert_sorted_multiset(fs.drop_first(), f);
        let r = insert_sorted(fs, f);
        let r1 = insert_sorted(fs.drop_first(), f);
        assert forall|p: int, q: int| 0 <= p < q < r.len() implies r[p].mtime <= r[q].mtime by {
            if p == 0 {
                assert(r[q] == r1[q - 1]);
                assert(r1.contains(r1[q - 1]));
                assert(r1.to_multiset().count(r1[q - 1]) > 0);
                if r1[q - 1] == f {
                } else {
                    assert(fs.drop_first().to_multiset().count(r1[q - 1]) > 0);
                    assert(fs.drop_first().contains(r1[q - 1]));
                    let w = choose|w: int|
                        0 <= w < fs.drop_first().len() && fs.drop_first()[w] == r1[q - 1];
                    assert(fs[0].mtime <= fs[w + 1].mtime);
                }
            } else {
                assert(r[p] == r1[p - 1] && r[q] == r1[q - 1]);
            }
        }
    } else {
    }
}

/// How filing one artifact changes the bucket of each key: the bucket of the
/// artifact's own key receives it by sorted insertion, every other bucket
/// stands unchanged.
proof fn lemma_files_for_key_insert(gs: Seq<GroupV>, k2: Seq<char>, f: ArtifactFile, k: Seq<char>)
    ensures
        files_for_key(insert_into(gs, k2, f), k) == if k == k2 {
            insert_sorted(files_for_key(gs, k), f)
        } else {
            files_for_key(gs, k)
        },
    decreases gs.len(),
{
    if gs.len() == 0 {
        if k == k2 {
            assert(insert_sorted(Seq::<ArtifactFile>::empty(), f) =~= seq![f]);
            assert(files_for_key(insert_into(gs, k2, f), k) =~= seq![f]);
        } else {
            let r = insert_into(gs, k2, f);
            assert(r.first().key == k2);
            assert(r.drop_first().len() == 0);
            assert(files_for_key(r.drop_first(), k) =~= Seq::<ArtifactFile>::empty());
            assert(files_for_key(r, k) =~= Seq::<ArtifactFile>::empty());
            assert(files_for_key(gs, k) =~= Seq::<ArtifactFile>::empty());
        }
    } else if gs.first().key == k2 {
        let updated = GroupV { key: k2, files: insert_sorted(gs.first().files, f) };
        let r = seq![updated] + gs.drop_first();
        assert(insert_into(gs, k2, f) == r);
        assert(r.first() == updated);
        assert(r.drop_first() =~= gs.drop_first());
        if k == k2 {
            assert(files_for_key(r, k) == updated.files);
            assert(files_for_key(gs, k) == gs.first().files);
        } else {
            assert(files_for_key(r, k) == files_for_key(gs.drop_first(), k));
            assert(files_for_key(gs, k) == files_for_key(gs.drop_first(), k));
        }
    } else {
        let rest = insert_into(gs.drop_first(), k2, f);
        let r = seq![gs.first()] + rest;
        assert(insert_into(gs, k2, f) == r);
        assert(r.first() == gs.first());
        assert(r.drop_first() =~= rest);
        lemma_files_for_key_insert(gs.drop_first(), k2, f, k);
        if gs.first().key == k {
            assert(files_for_key(r, k) == gs.first().files);
            assert(files_for_key(gs, k) == gs.first().files);
            assert(k != k2);
        } else {
            assert(files_for_key(r, k) == files_for_key(rest, k));
            assert(files_for_key(gs, k) == files_for_key(gs.drop_first(), k));
        }
    }
}

/// The bucket of key `k` holds exactly the eligible files of the listing
/// whose key is `k`.
proof fn lemma_build_groups_content(entries: Seq<ArtifactFile>, ext: Seq<char>, k: Seq<char>)
    ensures
        files_for_key(build_groups(entries, ext), k).to_multiset() =~= with_key(
            entries,
            ext,
            k,
        ).to_multiset(),
    decreases entries.len(),
{
    broadcast use group_multiset_axioms;
    broadcast use group_to_multiset_ensures;

    if entries.len() > 0 {
        lemma_build_groups_content(entries.drop_last(), ext, k);
        let f = entries.last();
        if eligible(f, ext) {
            let kf = stem_key(f.stem@).unwrap();
            lemma_files_for_key_insert(build_groups(entries.drop_last(), ext), kf, f, k);
            if k == kf {
                lemma_insert_sorted_multiset(
                    files_for_key(build_groups(entries.drop_last(), ext), k),
                    f,
                );
            }
        }
    }
}

/// Every bucket that grouping builds is sorted ascending by modification
/// time.
proof fn lemma_build_groups_sorted(entries: Seq<ArtifactFile>, ext: Seq<char>, k: Seq<char>)
    ensures
        sorted_by_mtime(files_for_key(build_groups(entries, ext), k)),
    decreases entries.len(),
{
    if entries.len() > 0 {
        lemma_build_groups_sorted(entries.drop_last(), ext, k);
        let f = entries.last();
        if eligible(f, ext) {
            let kf = stem_key(f.stem@).unwrap();
            lemma_files_for_key_insert(build_groups(entries.drop_last(), ext), kf, f, k);
            if k == kf {
                lemma_insert_sorted_sorted(
                    files_for_key(build_groups(entries.drop_last(), ext), k),
                    f,
                );
            }
        }
    }
}

/// A value carried at two positions of a sequence counts at least twice in
/// its contents.
proof fn lemma_dup_count(s: Seq<ArtifactFile>, i: int, j: int)
    requires
        0 <= i < j < s.len(),
        s[i] == s[j],
    ensures
        s.to_multiset().count(s[i]) >= 2,
{
    broadcast use group_multiset_axioms;
    broadcast use group_to_multiset_ensures;

    assert(s.remove(j).to_multiset() =~= s.to_multiset().remove(s[j]));
    assert(s.remove(j)[i] == s[i]);
    assert(s.remove(j).contains(s[i]));
    assert(s.remove(j).to_multiset().count(s[i]) > 0);
}

/// A value counted at least twice is carried at two positions.
proof fn lemma_count_two_indices(s: Seq<ArtifactFile>, a: ArtifactFile)
    requires
        s.to_multiset().count(a) >= 2,
    ensures
        exists|i: int, j: int| 0 <= i < j < s.len() && s[i] == a && s[j] == a,
{
    broadcast use group_multiset_axioms;
    broadcast use group_to_multiset_ensures;

    assert(s.contains(a));
    let i0 = choose|i0: int| 0 <= i0 < s.len() && s[i0] == a;
    assert(s.remove(i0).to_multiset() =~= s.to_multiset().remove(a));
    assert(s.remove(i0).to_multiset().count(a) >= 1);
    assert(s.remove(i0).contains(a));
    let i1 = choose|i1: int| 0 <= i1 < s.remove(i0).len() && s.remove(i0)[i1] == a;
    if i1 < i0 {
        assert(s[i1] == a);
        assert(s[i1] == a && s[i0] == a && i1 < i0);
    } else {
        assert(s[i1 + 1] == a);
        assert(s[i0] == a && s[i1 + 1] == a && i0 < i1 + 1);
    }
}

/// Distinct modification times carry over to any sequence with the same
/// contents.
proof fn lemma_distinct_mtimes_transfer(x: Seq<ArtifactFile>, y: Seq<ArtifactFile>)
    requires
        x.to_multiset() == y.to_multiset(),
        distinct_mtimes(x),
    ensures
        distinct_mtimes(y),
{
    broadcast use group_multiset_axioms;
    broadcast use group_to_multiset_ensures;

    assert forall|i: int, j: int| 0 <= i < j < y.len() implies y[i].mtime != y[j].mtime by {
        if y[i].mtime == y[j].mtime {
            if y[i] == y[j] {
                lemma_dup_count(y, i, j);
                lemma_count_two_indices(x, y[i]);
                let (p, q) = choose|p: int, q: int|
                    0 <= p < q < x.len() && x[p] == y[i] && x[q] == y[i];
                assert(x[p].mtime == x[q].mtime);
            } else {
                assert(y.contains(y[i]) && y.contains(y[j]));
                assert(x.to_multiset().count(y[i]) > 0 && x.to_multiset().count(y[j]) > 0);
                assert(x.contains(y[i]) && x.contains(y[j]));
                let p = choose|p: int| 0 <= p < x.len() && x[p] == y[i];
                let q = choose|q: int| 0 <= q < x.len() && x[q] == y[j];
                assert(p != q);
                if p < q {
                    assert(x[p].mtime != x[q].mtime);
                } else {
                    assert(x[q].mtime != x[p].mtime);
                }
            }
        }
    }
}

/// Two sequences sorted ascending by modification time that hold the same
/// files coincide, provided no two of those files share a time.
pub proof fn lemma_sorted_distinct_unique(x: Seq<ArtifactFile>, y: Seq<ArtifactFile>)
    requires
        sorted_by_mtime(x),
        sorted_by_mtime(y),
        x.to_multiset() == y.to_multiset(),
        distinct_mtimes(x),
    ensures
        x =~= y,
    decreases x.len(),
{
    broadcast use group_multiset_axioms;
    broadcast use group_to_multiset_ensures;

    if x.len() == 0 || y.len() == 0 {
        assert(x.to_multiset().len() == y.to_multiset().len());
    } else {
        assert(x.contains(x[0]));
        assert(y.contains(y[0]));
        assert(x.to_multiset().count(y[0]) > 0);
        assert(y.to_multiset().count(x[0]) > 0);
        assert(x.contains(y[0]));
        assert(y.contains(x[0]));
        let i = choose|i: int| 0 <= i < x.len() && x[i] == y[0];
        let j = choose|j: int| 0 <= j < y.len() && y[j] == x[0];
        assert(x[0].mtime <= x[i].mtime);
        assert(y[0].mtime <= y[j].mtime);
        assert(x[i].mtime == x[0].mtime);
        if i != 0 {
            assert(x[0].mtime != x[i].mtime);
        }
        assert(x[0] == y[0]);
        assert(x.drop_first().to_multiset() =~= x.to_multiset().remove(x[0])) by {
            assert(x.remove(0) =~= x.drop_first());
            assert(x.remove(0).to_multiset() =~= x.to_multiset().remove(x[0]));
        }
        assert(y.drop_first().to_multiset() =~= y.to_multiset().remove(y[0])) by {
            assert(y.remove(0) =~= y.drop_first());
            assert(y.remove(0).to_multiset() =~= y.to_multiset().remove(y[0]));
        }
        assert(sorted_by_mtime(x.drop_first()));
        assert(sorted_by_mtime(y.drop_first()));
        assert(distinct_mtimes(x.drop_first()));
        lemma_sorted_distinct_unique(x.drop_first(), y.drop_first());
        assert forall|m: int| 0 <= m < x.len() implies x[m] == y[m] by {
            if m > 0 {
                assert(x.drop_first()[m - 1] == y.drop_first()[m - 1]);
            }
        }
    }
}

/// Well-formed grouping: no key twice, no empty bucket, every bucket sorted,
/// and every file in a bucket an eligible artifact carrying the bucket's key.
pub open spec fn wf_groups(gs: Seq<GroupV>, ext: Seq<char>) -> bool {
    &&& forall|i: int, j: int| 0 <= i < j < gs.len() ==> gs[i].key != gs[j].key
    &&& forall|i: int| 0 <= i < gs.len() ==> gs[i].files.len() > 0
    &&& forall|i: int| 0 <= i < gs.len() ==> sorted_by_mtime(#[trigger] gs[i].files)
    &&& forall|i: int, l: int|
        0 <= i < gs.len() && 0 <= l < gs[i].files.len() ==> eligible(#[trigger] gs[i].files[l], ext)
            && stem_key(gs[i].files[l].stem@) == Some(gs[i].key)
}

/// Sorted insertion grows the sequence by one.
proof fn lemma_insert_sorted_len(fs: Seq<ArtifactFile>, f: ArtifactFile)
    ensures
        insert_sorted(fs, f).len() == fs.len() + 1,
    decreases fs.len(),
{
    if fs.len() > 0 && fs.first().mtime <= f.mtime {
        lemma_insert_sorted_len(fs.drop_first(), f);
    }
}

/// Every key present after filing `f` under `k2` is `k2` or was present
/// before.
proof fn lemma_insert_into_keys(gs: Seq<GroupV>, k2: Seq<char>, f: ArtifactFile, j: int)
    requires
        0 <= j < insert_into(gs, k2, f).len(),
    ensures
        insert_into(gs, k2, f)[j].key == k2 || exists|l: int|
            0 <= l < gs.len() && gs[l].key == insert_into(gs, k2, f)[j].key,
    decreases gs.len(),
{
    let r = insert_into(gs, k2, f);
    if gs.len() == 0 {
    } else if gs.first().key == k2 {
        if j > 0 {
            assert(gs[j].key == r[j].key);
        }
    } else {
        if j == 0 {
            assert(gs[0].key == r[0].key);
        } else {
            lemma_insert_into_keys(gs.drop_first(), k2, f, j - 1);
            if r[j].key != k2 {
                let l = choose|l: int|
                    0 <= l < gs.drop_first().len() && gs.drop_first()[l].key == insert_into(
                        gs.drop_first(),
                        k2,
                        f,
                    )[j - 1].key;
                assert(gs[l + 1].key == r[j].key);
            }
        }
    }
}

/// Filing an eligible artifact under its own key preserves well-formedness.
proof fn lemma_insert_into_wf(gs: Seq<GroupV>, k2: Seq<char>, f: ArtifactFile, ext: Seq<char>)
    requires
        wf_groups(gs, ext),
        eligible(f, ext),
        stem_key(f.stem@) == Some(k2),
    ensures
        wf_groups(insert_into(gs, k2, f), ext),
    decreases gs.len(),
{
    let r = insert_into(gs, k2, f);
    if gs.len() == 0 {
        assert(r[0].files == seq![f]);
        assert(r[0].files[0] == f);
    } else if gs.first().key == k2 {
        lemma_insert_sorted_len(gs.first().files, f);
        lemma_insert_sorted_sorted(gs.first().files, f);
        assert forall|i: int, j: int| 0 <= i < j < r.len() implies r[i].key != r[j].key by {
            assert(r[i].key == gs[i].key && r[j].key == gs[j].key);
        }
        assert forall|i: int, l: int|
            0 <= i < r.len() && 0 <= l < r[i].files.len() implies eligible(
            #[trigger] r[i].files[l],
            ext,
        ) && stem_key(r[i].files[l].stem@) == Some(r[i].key) by {
            if i == 0 {
                lemma_insert_sorted_membership(gs.first().files, f, l);
                if r[0].files[l] != f {
                    let q = choose|q: int|
                        0 <= q < gs.first().files.len() && gs.first().files[q] == r[0].files[l];
                    assert(eligible(gs[0].files[q], ext));
                }
            } else {
                assert(r[i] == gs[i]);
                assert(eligible(gs[i].files[l], ext));
            }
        }
    } else {
        lemma_insert_into_wf(gs.drop_first(), k2, f, ext);
        let rest = insert_into(gs.drop_first(), k2, f);
        assert forall|i: int, j: int| 0 <= i < j < r.len() implies r[i].key != r[j].key by {
            if i == 0 {
                lemma_insert_into_keys(gs.drop_first(), k2, f, j - 1);
                assert(r[j].key == rest[j - 1].key);
                if rest[j - 1].key != k2 {
                    let l = choose|l: int|
                        0 <= l < gs.drop_first().len() && gs.drop_first()[l].key == rest[j
                            - 1].key;
                    assert(gs[0].key != gs[l + 1].key);
                }
            } else {
                assert(r[i].key == rest[i - 1].key && r[j].key == rest[j - 1].key);
            }
        }
        assert forall|i: int| 0 <= i < r.len() implies r[i].files.len() > 0 by {
            if i == 0 {
                assert(gs[0].files.len() > 0);
            } else {
                assert(rest[i - 1].files.len() > 0);
            }
        }
        assert forall|i: int| 0 <= i < r.len() implies sorted_by_mtime(#[trigger] r[i].files) by {
            if i == 0 {
                assert(sorted_by_mtime(gs[0].files));
            } else {
                assert(sorted_by_mtime(rest[i - 1].files));
            }
        }
        assert forall|i: int, l: int|
            0 <= i < r.len() && 0 <= l < r[i].files.len() implies eligible(
            #[trigger] r[i].files[l],
            ext,
        ) && stem_key(r[i].files[l].stem@) == Some(r[i].key) by {
            if i == 0 {
                assert(eligible(gs[0].files[l], ext));
            } else {
                assert(eligible(rest[i - 1].files[l], ext));
                assert(r[i].files[l] == rest[i - 1].files[l]);
            }
        }
    }
}

/// Grouping is well-formed: the buckets carry pairwise-distinct keys, none is
/// empty, each is sorted ascending by modification time, and every file of a
/// bucket is an eligible artifact whose stem yields the bucket's key.
pub proof fn lemma_build_groups_wf(entries: Seq<ArtifactFile>, ext: Seq<char>)
    ensures
        wf_groups(build_groups(entries, ext), ext),
    decreases entries.len(),
{
    if entries.len() > 0 {
        lemma_build_groups_wf(entries.drop_last(), ext);
        let f = entries.last();
        if eligible(f, ext) {
            lemma_insert_into_wf(
                build_groups(entries.drop_last(), ext),
                stem_key(f.stem@).unwrap(),
                f,
                ext,
            );
        }
    }
}

/// An element of `insert_sorted(fs, f)` is `f` itself or an element of `fs`.
proof fn lemma_insert_sorted_membership(fs: Seq<ArtifactFile>, f: ArtifactFile, l: int)
    requires
        0 <= l < insert_sorted(fs, f).len(),
    ensures
        insert_sorted(fs, f)[l] == f || fs.contains(insert_sorted(fs, f)[l]),
{
    broadcast use group_multiset_axioms;
    broadcast use group_to_multiset_ensures;

    lemma_insert_sorted_multiset(fs, f);
    let x = insert_sorted(fs, f)[l];
    assert(insert_sorted(fs, f).contains(x));
    assert(insert_sorted(fs, f).to_multiset().count(x) > 0);
    if x != f {
        assert(fs.to_multiset().count(x) > 0);
    }
}

/// A file found in any group after filing `f` is `f` itself or was already in
/// some group.
proof fn lemma_insert_into_files(gs: Seq<GroupV>, k2: Seq<char>, f: ArtifactFile, i: int, l: int)
    requires
        0 <= i < insert_into(gs, k2, f).len(),
        0 <= l < insert_into(gs, k2, f)[i].files.len(),
    ensures
        insert_into(gs, k2, f)[i].files[l] == f || exists|p: int, q: int|
            0 <= p < gs.len() && 0 <= q < gs[p].files.len() && gs[p].files[q] == insert_into(
                gs,
                k2,
                f,
            )[i].files[l],
    decreases gs.len(),
{
    let r = insert_into(gs, k2, f);
    let x = r[i].files[l];
    if gs.len() == 0 {
        assert(x == f);
    } else if gs.first().key == k2 {
        if i == 0 {
            lemma_insert_sorted_membership(gs.first().files, f, l);
            if x != f {
                let q = choose|q: int| 0 <= q < gs.first().files.len() && gs.first().files[q] == x;
                assert(gs[0].files[q] == x);
            }
        } else {
            assert(r[i] == gs[i]);
            assert(gs[i].files[l] == x);
        }
    } else {
        if i == 0 {
            assert(r[0] == gs.first());
            assert(gs[0].files[l] == x);
        } else {
            assert(r[i] == insert_into(gs.drop_first(), k2, f)[i - 1]);
            lemma_insert_into_files(gs.drop_first(), k2, f, i - 1, l);
            if x != f {
                let (p, q) = choose|p: int, q: int|
                    0 <= p < gs.drop_first().len() && 0 <= q < gs.drop_first()[p].files.len()
                        && gs.drop_first()[p].files[q] == x;
                assert(gs[p + 1].files[q] == x);
            }
        }
    }
}

/// Only artifacts are ever grouped: every file of every bucket is an entry of
/// the listing whose extension matches and whose stem yields a key.  A file
/// with a different extension, or a hyphen-free stem, appears in no bucket.
pub proof fn lemma_only_artifacts_grouped(
    entries: Seq<ArtifactFile>,
    ext: Seq<char>,
    i: int,
    l: int,
)
    requires
        0 <= i < build_groups(entries, ext).len(),
        0 <= l < build_groups(entries, ext)[i].files.len(),
    ensures
        eligible(build_groups(entries, ext)[i].files[l], ext),
        entries.contains(build_groups(entries, ext)[i].files[l]),
    decreases entries.len(),
{
    let gs = build_groups(entries, ext);
    let x = gs[i].files[l];
    if entries.len() > 0 {
        let prev = build_groups(entries.drop_last(), ext);
        let f = entries.last();
        if eligible(f, ext) {
            lemma_insert_into_files(prev, stem_key(f.stem@).unwrap(), f, i, l);
            if x == f {
                assert(entries[entries.len() - 1] == x);
            } else {
                let (p, q) = choose|p: int, q: int|
                    0 <= p < prev.len() && 0 <= q < prev[p].files.len() && prev[p].files[q] == x;
                lemma_only_artifacts_grouped(entries.drop_last(), ext, p, q);
                let w = choose|w: int|
                    0 <= w < entries.drop_last().len() && entries.drop_last()[w] == x;
                assert(entries[w] == x);
            }
        } else {
            lemma_only_artifacts_grouped(entries.drop_last(), ext, i, l);
            let w = choose|w: int|
                0 <= w < entries.drop_last().len() && entries.drop_last()[w] == x;
            assert(entries[w] == x);
        }
    }
}

/// Grouping is deterministic: the bucket of key `k` depends only on which
/// eligible files carry `k`, not on the order a directory enumerates them in,
/// provided no two of those files share a modification time.  (Files with
/// equal times keep enumeration order instead, by stable insertion.)
pub proof fn lemma_grouping_deterministic(
    e1: Seq<ArtifactFile>,
    e2: Seq<ArtifactFile>,
    ext: Seq<char>,
    k: Seq<char>,
)
    requires
        with_key(e1, ext, k).to_multiset() == with_key(e2, ext, k).to_multiset(),
        distinct_mtimes(with_key(e1, ext, k)),
    ensures
        files_for_key(build_groups(e1, ext), k) == files_for_key(build_groups(e2, ext), k),
{
    lemma_build_groups_content(e1, ext, k);
    lemma_build_groups_content(e2, ext, k);
    lemma_build_groups_sorted(e1, ext, k);
    lemma_build_groups_sorted(e2, ext, k);
    lemma_distinct_mtimes_transfer(
        with_key(e1, ext, k),
        files_for_key(build_groups(e1, ext), k),
    );
    lemma_sorted_distinct_unique(
        files_for_key(build_groups(e1, ext), k),
        files_for_key(build_groups(e2, ext), k),
    );
}

} // verus!
