use gitinspector_core::analysis::FileStats;
use gitinspector_core::health::{
    branch_times_within, compute_repo_health, counts_as_pull_request, largest_files, populate_file_metrics,
    read_branches, read_tree_files,
};

fn file(path: &str) -> FileStats {
    FileStats {
        path: path.to_string(),
        commits: 1,
        insertions: 2,
        deletions: 3,
        total_lines: 0,
        loc: 0,
        last_updated: "Jan 01, 2024".to_string(),
    }
}

#[test]
fn branches_and_staleness() {
    let now: u64 = 1700000000;
    let out = "main|1699990000|Ann\nold|1600000000|Bob\nbroken line\nodd|x|Cy\n";
    assert!(branch_times_within(out, now));
    let (branches, stale) = read_branches(out, now);
    assert_eq!(branches.len(), 3);
    assert_eq!(branches[0].name, "main");
    assert_eq!(branches[0].last_author, "Ann");
    assert_eq!(branches[0].last_commit_date, "Nov 14, 2023");
    assert!(!branches[0].is_stale);
    assert!(branches[1].is_stale);
    assert_eq!(branches[1].last_commit_date, "Sep 13, 2020");
    assert_eq!(branches[2].last_commit_date, "Jan 01, 1970");
    assert!(branches[2].is_stale);
    assert_eq!(stale, 2);
}

#[test]
fn staleness_threshold_is_ninety_days() {
    let now: u64 = 7776000 + 100;
    let (exact, _) = read_branches("a|100|x", now);
    assert!(!exact[0].is_stale);
    let (older, stale) = read_branches("a|99|x", now);
    assert!(older[0].is_stale);
    assert_eq!(stale, 1);
}

#[test]
fn branch_times_in_the_future_are_reported() {
    assert!(!branch_times_within("a|2000|x", 1000));
    assert!(branch_times_within("a|1000|x", 1000));
}

#[test]
fn tree_listing_and_largest_files() {
    let out = "100644 blob aaa 120\tsrc/a.rs\n100644 blob bbb 900\tsrc/big file.rs\n160000 commit ccc -\tsub\nshort line\n100644 blob ddd 120\tsrc/c.rs\n";
    let files = read_tree_files(out);
    assert_eq!(files.len(), 4);
    assert_eq!(files[1].path, "src/big file.rs");
    assert_eq!(files[1].total_lines, 900);
    assert_eq!(files[2].total_lines, 0);
    let large = largest_files(out);
    assert_eq!(large.len(), 4);
    assert_eq!(large[0].path, "src/big file.rs");
    assert_eq!(large[1].path, "src/a.rs");
    assert_eq!(large[2].path, "src/c.rs");
    assert_eq!(large[3].path, "sub");
}

#[test]
fn largest_files_keeps_ten() {
    let mut out = String::new();
    for i in 0..15 {
        out.push_str(&format!("100644 blob h {}\tf{}.rs\n", i, i));
    }
    let large = largest_files(&out);
    assert_eq!(large.len(), 10);
    assert_eq!(large[0].path, "f14.rs");
    assert_eq!(large[9].path, "f5.rs");
}

#[test]
fn health_report() {
    let h = compute_repo_health(Some("main|1699990000|Ann\nold|1600000000|Bob"), Some("100644 blob a 5\tx.rs"), 1700000000);
    assert_eq!(h.active_branches.len(), 2);
    assert_eq!(h.stale_branches_count, 1);
    assert_eq!(h.estimated_prs_count, 0);
    assert_eq!(h.large_files.len(), 1);
    assert_eq!(h.large_files[0].total_lines, 5);
    let none = compute_repo_health(None, None, 0);
    assert!(none.active_branches.is_empty());
    assert!(none.large_files.is_empty());
}

#[test]
fn file_metrics_from_listings() {
    let mut stats = vec![file("src/a.rs"), file("src/big file.rs"), file("README.md")];
    let sizes = "100644 blob aaa 120\tsrc/a.rs\n100644 blob bbb 900\tsrc/big file.rs\n100644 blob ccc 7\tother.rs";
    let locs = "HEAD:src/a.rs:12\nHEAD:README.md:3\nHEAD:nowhere.rs:9\nbad";
    populate_file_metrics(&mut stats, Some(sizes), Some(locs));
    assert_eq!(stats[0].total_lines, 120);
    assert_eq!(stats[0].loc, 12);
    assert_eq!(stats[1].total_lines, 900);
    assert_eq!(stats[1].loc, 0);
    assert_eq!(stats[2].total_lines, 0);
    assert_eq!(stats[2].loc, 3);
    assert_eq!(stats[2].commits, 1);
    assert_eq!(stats[2].last_updated, "Jan 01, 2024");
    let mut untouched = vec![file("x.rs")];
    populate_file_metrics(&mut untouched, None, None);
    assert_eq!(untouched[0].total_lines, 0);
}

#[test]
fn pull_request_subjects() {
    assert!(counts_as_pull_request("Merge pull request #42 from a/b"));
    assert!(counts_as_pull_request("x Merge pull request #"));
    assert!(!counts_as_pull_request("Merge pull request 42"));
    assert!(!counts_as_pull_request(""));
}
