use cargo_prune::group::{group_files, ArtifactFile};
use cargo_prune::key::library_key;
use cargo_prune::plan::prune_plan;
use cargo_prune::policy::prune_decision;
use cargo_prune::walk::{find_markers, DirTree};
use cargo_prune::DEFAULT_TOLERANCE_SECS;

fn file(stem: &str, ext: &str, mtime: u64) -> ArtifactFile {
    ArtifactFile {
        path: format!("deps/{}.{}", stem, ext),
        stem: stem.to_string(),
        extension: ext.to_string(),
        mtime,
    }
}

fn dir(path: &str, name: &str, subdirs: Vec<DirTree>) -> DirTree {
    DirTree {
        path: path.to_string(),
        name: name.to_string(),
        subdirs,
    }
}

#[test]
fn key_extracts_before_last_hyphen() {
    assert_eq!(
        library_key("foo-bar-abcdef123"),
        Some("foo-bar".to_string())
    );
}

#[test]
fn key_absent_without_hyphen() {
    assert_eq!(library_key("nohyphen"), None);
}

#[test]
fn key_edge_cases() {
    assert_eq!(library_key(""), None);
    assert_eq!(library_key("-abc"), Some(String::new()));
    assert_eq!(library_key("abc-"), Some("abc".to_string()));
    assert_eq!(library_key("a-b-c"), Some("a-b".to_string()));
}

#[test]
fn grouping_buckets_by_key_and_sorts() {
    let entries = vec![
        file("liba-h3", "rlib", 30),
        file("libb-h1", "rlib", 5),
        file("liba-h1", "rlib", 10),
        file("liba-h2", "rlib", 20),
    ];
    let groups = group_files(entries, "rlib");
    assert_eq!(groups.len(), 2);
    assert_eq!(groups[0].key, "liba");
    assert_eq!(groups[1].key, "libb");
    let times: Vec<u64> = groups[0].files.iter().map(|f| f.mtime).collect();
    assert_eq!(times, vec![10, 20, 30]);
    assert_eq!(groups[1].files.len(), 1);
}

#[test]
fn grouping_keeps_enumeration_order_on_ties() {
    let entries = vec![
        file("lib-first", "rlib", 10),
        file("lib-second", "rlib", 10),
        file("lib-third", "rlib", 10),
    ];
    let groups = group_files(entries, "rlib");
    assert_eq!(groups.len(), 1);
    let stems: Vec<&str> = groups[0].files.iter().map(|f| f.stem.as_str()).collect();
    assert_eq!(stems, vec!["lib-first", "lib-second", "lib-third"]);
}

#[test]
fn grouping_is_deterministic_under_permutation() {
    let a = vec![
        file("lib-h1", "rlib", 10),
        file("lib-h2", "rlib", 20),
        file("lib-h3", "rlib", 30),
    ];
    let b = vec![
        file("lib-h3", "rlib", 30),
        file("lib-h1", "rlib", 10),
        file("lib-h2", "rlib", 20),
    ];
    let ga = group_files(a, "rlib");
    let gb = group_files(b, "rlib");
    assert_eq!(ga.len(), 1);
    assert_eq!(gb.len(), 1);
    let pa: Vec<&str> = ga[0].files.iter().map(|f| f.path.as_str()).collect();
    let pb: Vec<&str> = gb[0].files.iter().map(|f| f.path.as_str()).collect();
    assert_eq!(pa, pb);
}

#[test]
fn grouping_ignores_other_extensions() {
    let entries = vec![
        file("lib-h1", "rlib", 10),
        file("lib-h2", "so", 20),
        file("lib-h3", "d", 30),
    ];
    let groups = group_files(entries, "rlib");
    assert_eq!(groups.len(), 1);
    assert_eq!(groups[0].files.len(), 1);
    assert_eq!(groups[0].files[0].stem, "lib-h1");
}

#[test]
fn grouping_skips_hyphen_free_stems() {
    let entries = vec![file("nohyphen", "rlib", 10), file("lib-h1", "rlib", 20)];
    let groups = group_files(entries, "rlib");
    assert_eq!(groups.len(), 1);
    assert_eq!(groups[0].key, "lib");
}

#[test]
fn tolerance_zero_prunes_all_but_newest() {
    let g = vec![
        file("lib-h1", "rlib", 100),
        file("lib-h2", "rlib", 200),
        file("lib-h3", "rlib", 300),
    ];
    let flags = prune_decision(&g, 0);
    assert_eq!(flags, vec![true, true, false]);
}

#[test]
fn fresh_group_is_retained() {
    let g = vec![
        file("lib-h1", "rlib", 950),
        file("lib-h2", "rlib", 980),
        file("lib-h3", "rlib", 1000),
    ];
    let flags = prune_decision(&g, 100);
    assert_eq!(flags, vec![false, false, false]);
}

#[test]
fn one_stale_member_prunes_whole_group() {
    // The entry at 980 sits within the window, yet goes as well: staleness of
    // any member condemns everything older than the latest.
    let g = vec![
        file("lib-h1", "rlib", 100),
        file("lib-h2", "rlib", 980),
        file("lib-h3", "rlib", 1000),
    ];
    let flags = prune_decision(&g, 100);
    assert_eq!(flags, vec![true, true, false]);
}

#[test]
fn single_file_group_is_never_touched() {
    let g = vec![file("lib-h1", "rlib", 1)];
    assert_eq!(prune_decision(&g, 0), vec![false]);
    assert_eq!(prune_decision(&g, DEFAULT_TOLERANCE_SECS), vec![false]);
}

#[test]
fn entry_newer_than_latest_is_never_deleted() {
    // Clock skew: an entry dated after the designated latest neither counts
    // as stale nor becomes a deletion candidate.
    let g = vec![
        file("lib-h1", "rlib", 10),
        file("lib-h2", "rlib", 50),
        file("lib-h3", "rlib", 20),
    ];
    let flags = prune_decision(&g, 5);
    assert_eq!(flags, vec![true, false, false]);
}

#[test]
fn plan_lists_superseded_paths_only() {
    let entries = vec![
        file("liba-h1", "rlib", 100),
        file("liba-h2", "rlib", 20000),
        file("libb-h1", "rlib", 100),
        file("noext-h1", "so", 1),
        file("nohyphen", "rlib", 1),
    ];
    let plan = prune_plan(entries, "rlib", DEFAULT_TOLERANCE_SECS);
    assert_eq!(plan, vec!["deps/liba-h1.rlib".to_string()]);
}

#[test]
fn plan_is_idempotent() {
    let entries = vec![
        file("liba-h1", "rlib", 100),
        file("liba-h2", "rlib", 20000),
        file("liba-h3", "rlib", 20050),
        file("libb-h1", "rlib", 40),
        file("libb-h2", "rlib", 60),
    ];
    let plan = prune_plan(entries.clone(), "rlib", 100);
    assert_eq!(
        plan,
        vec![
            "deps/liba-h1.rlib".to_string(),
            "deps/liba-h2.rlib".to_string()
        ]
    );
    let remaining: Vec<ArtifactFile> = entries
        .into_iter()
        .filter(|f| !plan.contains(&f.path))
        .collect();
    let second = prune_plan(remaining, "rlib", 100);
    assert!(second.is_empty());
}

#[test]
fn walker_finds_marker_directories() {
    let tree = dir(
        "target",
        "target",
        vec![
            dir("target/debug", "debug", vec![
                dir("target/debug/deps", "deps", vec![]),
            ]),
            dir("target/release", "release", vec![
                dir("target/release/deps", "deps", vec![]),
            ]),
        ],
    );
    let found = find_markers(&tree, "deps");
    assert_eq!(
        found,
        vec![
            "target/debug/deps".to_string(),
            "target/release/deps".to_string()
        ]
    );
}

#[test]
fn walker_does_not_descend_into_markers() {
    // A marker directory nested inside another marker directory is never
    // independently discovered: the outer one is emitted alone.
    let tree = dir(
        "target",
        "target",
        vec![dir("target/deps", "deps", vec![
            dir("target/deps/deps", "deps", vec![]),
            dir("target/deps/sub", "sub", vec![]),
        ])],
    );
    let found = find_markers(&tree, "deps");
    assert_eq!(found, vec!["target/deps".to_string()]);
}

#[test]
fn walker_emits_marker_root_itself() {
    let tree = dir("deps", "deps", vec![]);
    assert_eq!(find_markers(&tree, "deps"), vec!["deps".to_string()]);
}

#[test]
fn default_tolerance_is_two_hours() {
    assert_eq!(DEFAULT_TOLERANCE_SECS, 2 * 3600);
}
