use gitinspector_core::analysis::{
    compute_author_stats, compute_file_stats, parse_commits, try_compute_author_stats, try_parse_commits, Commit,
    CommitParser, FileChange, IncrementalAggregator,
};
use gitinspector_core::config::Config;
use gitinspector_core::filtering::Filter;

fn commit(hash: &str, name: &str, email: &str, date: &str, ins: u32, del: u32, files: &[(&str, u32, u32)]) -> Commit {
    Commit {
        hash: hash.to_string(),
        author_name: name.to_string(),
        author_email: email.to_string(),
        date: date.to_string(),
        subject: "s".to_string(),
        insertions: ins,
        deletions: del,
        changes: files
            .iter()
            .map(|(p, i, d)| FileChange { path: p.to_string(), insertions: *i, deletions: *d })
            .collect(),
    }
}

#[test]
fn test_parse_commits_basic() {
    let raw = "commit|hash123|Author Name|email@example.com|1600000000|Subject\n10\t5\tfile.rs";
    let config = Config::default();
    let filter = Filter::new(&[]).unwrap();
    let commits = parse_commits(raw, &config, &filter);

    assert_eq!(commits.len(), 1, "Should have parsed exactly one commit");
    assert_eq!(commits[0].author_name, "Author Name");
    assert_eq!(commits[0].insertions, 10);
    assert_eq!(commits[0].deletions, 5);
    assert_eq!(commits[0].changes.len(), 1);
    assert_eq!(commits[0].changes[0].path, "file.rs");
}

#[test]
fn test_incremental_aggregator() {
    let mut agg = IncrementalAggregator::new();
    let commit = Commit {
        hash: "h1".into(),
        author_name: "User".into(),
        author_email: "user@test.com".into(),
        date: "1600000000".into(),
        subject: "Fix".into(),
        insertions: 10,
        deletions: 2,
        changes: vec![FileChange { path: "a.rs".into(), insertions: 10, deletions: 2 }],
    };
    agg.add_commit(&commit);
    let (stats, _) = agg.finalize();

    assert_eq!(stats.len(), 1);
    assert_eq!(stats[0].commits, 1);
    assert_eq!(stats[0].impact(), 8);
    assert!(!stats[0].daily_activity.is_empty());
}

#[test]
fn test_parser_streaming_logic() {
    let config = Config::default();
    let filter = Filter::new(&[]).unwrap();
    let mut parser = CommitParser::new(&config, &filter);

    let line1 = "commit|h1|A|e|100|S";
    let line2 = "5\t0\tf1.rs";
    let line3 = "commit|h2|B|e2|200|S2";
    let line4 = "1\t0\tf2.rs";

    assert!(parser.parse_line(line1).is_none());
    assert!(parser.parse_line(line2).is_none());

    let c1 = parser.parse_line(line3).expect("Should return first commit");
    assert_eq!(c1.hash, "h1");
    assert_eq!(c1.insertions, 5);

    assert!(parser.parse_line(line4).is_none());
    let c2 = parser.finalize().expect("Should return second commit");
    assert_eq!(c2.hash, "h2");
    assert_eq!(c2.insertions, 1);
}

#[test]
fn parser_drops_commits_without_counted_files() {
    let config = Config::default();
    let filter = Filter::new(&[]).unwrap();
    let raw = "commit|h1|A|a@x|100|S\n3\t1\tnotes.txt\ncommit|h2|B|b@x|200|T\n2\t2\tmain.rs\n-\t-\timage.png\n";
    let commits = parse_commits(raw, &config, &filter);
    assert_eq!(commits.len(), 1);
    assert_eq!(commits[0].hash, "h2");
    assert_eq!(commits[0].subject, "T");
    assert_eq!(commits[0].changes.len(), 1);
}

#[test]
fn parser_counts_binary_changes_as_zero_and_sums_totals() {
    let mut config = Config::default();
    config.extensions = vec![];
    let filter = Filter::new(&[]).unwrap();
    let raw = "commit|h|A|a@x|100|S|with|bars\n4\t1\ta.rs\n-\t-\tb.png\n  \n6\t2\tc.rs";
    let commits = parse_commits(raw, &config, &filter);
    assert_eq!(commits.len(), 1);
    assert_eq!(commits[0].subject, "S|with|bars");
    assert_eq!(commits[0].insertions, 10);
    assert_eq!(commits[0].deletions, 3);
    assert_eq!(commits[0].changes.len(), 3);
    assert_eq!(commits[0].changes[1].insertions, 0);
}

#[test]
fn parser_skips_excluded_headers_and_files() {
    let config = Config::default();
    let filter = Filter::new(&["author:Bot".to_string(), "file:vendor/".to_string()]).unwrap();
    let raw = "commit|h1|Bot|bot@x|100|S\n1\t1\ta.rs\ncommit|h2|Ann|ann@x|200|T\n1\t0\tvendor/lib.rs\n2\t0\tsrc/lib.rs";
    let commits = parse_commits(raw, &config, &filter);
    assert_eq!(commits.len(), 1);
    assert_eq!(commits[0].author_name, "Ann");
    assert_eq!(commits[0].insertions, 2);
    assert_eq!(commits[0].changes[0].path, "src/lib.rs");
}

#[test]
fn parser_reports_overflowing_totals() {
    let config = Config::default();
    let filter = Filter::new(&[]).unwrap();
    let raw = "commit|h|A|a@x|100|S\n4294967295\t0\ta.rs\n1\t0\tb.rs";
    assert!(try_parse_commits(raw, &config, &filter).is_none());
    let mut parser = CommitParser::new(&config, &filter);
    assert!(parser.can_parse_line("commit|h|A|a@x|100|S"));
    parser.parse_line("commit|h|A|a@x|100|S");
    assert!(parser.can_parse_line("4294967295\t0\ta.rs"));
    parser.parse_line("4294967295\t0\ta.rs");
    assert!(!parser.can_parse_line("1\t0\tb.rs"));
    assert!(try_parse_commits("commit|h|A|a@x|100|S\n1\t0\ta.rs", &config, &filter).is_some());
}

#[test]
fn author_totals_and_ranking() {
    let commits = vec![
        commit("1", "Ann", "ann@x", "1600000000", 3, 1, &[("a.rs", 3, 1)]),
        commit("2", "Bob", "bob@x", "1600000100", 5, 0, &[("b.rs", 5, 0)]),
        commit("3", "Bob B.", "bob@x", "1600700000", 1, 4, &[("a.rs", 1, 4)]),
        commit("4", "Cy", "cy@x", "not a date", 7, 7, &[("c.rs", 7, 7)]),
    ];
    let authors = compute_author_stats(&commits);
    assert_eq!(authors.len(), 3);
    assert_eq!(authors[0].email, "bob@x");
    assert_eq!(authors[0].name, "Bob");
    assert_eq!(authors[0].commits, 2);
    assert_eq!(authors[0].insertions, 6);
    assert_eq!(authors[0].deletions, 4);
    assert_eq!(authors[0].impact(), 2);
    assert_eq!(authors[1].email, "ann@x");
    assert_eq!(authors[2].email, "cy@x");
    assert!(authors[2].daily_activity.is_empty());
    assert_eq!(authors[0].daily_activity.len(), 2);
    assert_eq!(authors[0].daily_activity[0].date, "2020-09-13");
    assert_eq!(authors[0].activity.len(), 2);
    assert_eq!(authors[0].activity[0].week_id, "2020-37");
    assert_eq!(authors[0].activity[0].top_files[0].path, "b.rs");
    let again = try_compute_author_stats(&commits).unwrap();
    assert_eq!(again.len(), 3);
}

#[test]
fn file_totals_and_ranking() {
    let commits = vec![
        commit("1", "Ann", "ann@x", "1600000000", 3, 1, &[("a.rs", 3, 1)]),
        commit("2", "Bob", "bob@x", "1600000100", 5, 0, &[("b.rs", 5, 0)]),
        commit("3", "Bob", "bob@x", "1600700000", 1, 4, &[("a.rs", 1, 4)]),
        commit("4", "Cy", "cy@x", "not a date", 7, 7, &[("c.rs", 7, 7)]),
    ];
    let files = compute_file_stats(&commits);
    assert_eq!(files.len(), 2);
    assert_eq!(files[0].path, "a.rs");
    assert_eq!(files[0].commits, 2);
    assert_eq!(files[0].insertions, 4);
    assert_eq!(files[0].deletions, 5);
    assert_eq!(files[0].last_updated, "Sep 21, 2020");
    assert_eq!(files[0].filename(), "a.rs");
    assert_eq!(files[1].path, "b.rs");
}

#[test]
fn aggregator_checks_before_adding() {
    let mut agg = IncrementalAggregator::new();
    let big = commit("1", "Ann", "ann@x", "1600000000", 4294967295, 0, &[("a.rs", 4294967295, 0)]);
    assert!(agg.can_add_commit(&big));
    agg.add_commit(&big);
    let more = commit("2", "Ann", "ann@x", "1600000000", 1, 0, &[("b.rs", 1, 0)]);
    assert!(!agg.can_add_commit(&more));
    assert!(agg.can_finalize());
}

#[test]
fn file_stats_filename() {
    let f = gitinspector_core::analysis::FileStats {
        path: "src/deep/mod.rs".to_string(),
        commits: 0,
        insertions: 0,
        deletions: 0,
        total_lines: 0,
        loc: 0,
        last_updated: String::new(),
    };
    assert_eq!(f.filename(), "mod.rs");
}

#[test]
fn streaming_matches_batch() {
    let config = Config::default();
    let filter = Filter::new(&[]).unwrap();
    let raw = "commit|h1|Ann|ann@x|1600000000|a\n1\t2\ta.rs\n\ncommit|h2|Bob|bob@x|1600100000|b\n3\t0\tb.rs\n4\t4\ta.rs\ncommit|h3|Ann|ann@x|1600200000|c\n5\t5\tc.rs\n";
    let batch = parse_commits(raw, &config, &filter);

    let mut parser = CommitParser::new(&config, &filter);
    let mut streamed = Vec::new();
    for line in raw.lines() {
        if let Some(c) = parser.parse_line(line) {
            streamed.push(c);
        }
    }
    if let Some(c) = parser.finalize() {
        streamed.push(c);
    }
    assert_eq!(streamed.len(), batch.len());
    for (s, b) in streamed.iter().zip(batch.iter()) {
        assert_eq!(s.hash, b.hash);
        assert_eq!(s.insertions, b.insertions);
        assert_eq!(s.deletions, b.deletions);
        assert_eq!(s.changes.len(), b.changes.len());
    }

    let mut agg = IncrementalAggregator::new();
    for c in &streamed {
        agg.add_commit(c);
    }
    let (authors, files) = agg.finalize();
    let batch_authors = compute_author_stats(&batch);
    let batch_files = compute_file_stats(&batch);
    assert_eq!(authors.len(), batch_authors.len());
    assert_eq!(authors[0].email, "ann@x");
    assert_eq!(authors[0].commits, 2);
    assert_eq!(authors[0].insertions, 6);
    assert_eq!(batch_authors[0].insertions, 6);
    assert_eq!(files.len(), batch_files.len());
    assert_eq!(files[0].path, "a.rs");
    assert_eq!(files[0].insertions, 5);
}

#[test]
fn weekly_activity_uses_the_iso_week_year() {
    let commits = vec![
        commit("1", "Ann", "ann@x", "1672099200", 1, 0, &[("a.rs", 1, 0)]),
        commit("2", "Ann", "ann@x", "1672531200", 2, 0, &[("a.rs", 2, 0)]),
    ];
    let authors = compute_author_stats(&commits);
    assert_eq!(authors[0].activity.len(), 1);
    assert_eq!(authors[0].activity[0].week_id, "2022-52");
    assert_eq!(authors[0].activity[0].commits, 2);
    assert_eq!(authors[0].daily_activity.len(), 2);
}
