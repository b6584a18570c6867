use gitinspector_core::analysis::AuthorStats;
use gitinspector_core::blame::{BlameStats, FileBlame};
use gitinspector_core::formatters::text;
use gitinspector_core::formatters::Report;
use gitinspector_core::timeline::TimelinePeriod;

fn author(name: &str, commits: u32, ins: u32, del: u32) -> AuthorStats {
    AuthorStats {
        name: name.to_string(),
        email: format!("{}@x", name),
        commits,
        insertions: ins,
        deletions: del,
        activity: vec![],
        daily_activity: vec![],
    }
}

fn report() -> Report {
    Report {
        repo_name: "tool".to_string(),
        branch_name: "main".to_string(),
        remote_url: None,
        authors: vec![author("Ann", 3, 40, 2)],
        file_stats: vec![],
        timeline: None,
        blame: None,
        health: None,
        metrics_enabled: false,
        version: "0.1.0".to_string(),
        duration: "0.01s".to_string(),
    }
}

#[test]
fn text_report_minimal() {
    let out = text::format(&report());
    let expected = "Repository: tool\nBranch:     main\nFound 1 authors.\n\n".to_string()
        + &format!("{:<25} | {:>10} | {:>15} | {:>15}\n", "Author", "Commits", "Insertions", "Deletions")
        + &format!("{:-<25}-|-{:-<10}-|-{:-<15}-|-{:-<15}\n", "", "", "", "")
        + &format!("{:<25} | {:>10} | {:>15} | {:>15}\n", "Ann", 3, 40, 2)
        + "\n";
    assert_eq!(out, expected);
}

#[test]
fn text_report_all_sections() {
    let mut r = report();
    r.remote_url = Some("https://example.org/t".to_string());
    r.timeline = Some(vec![TimelinePeriod { period_name: "2023-01".to_string(), commits: 2, insertions: 12, deletions: 6 }]);
    r.blame = Some(vec![BlameStats {
        author_name: "Ann".to_string(),
        author_email: "ann@x".to_string(),
        lines: 7,
        top_files: vec![FileBlame { path: "src/a.rs".to_string(), lines: 7 }],
    }]);
    r.metrics_enabled = true;
    let out = text::format(&r);
    let expected = "Repository: tool\nBranch:     main\nRemote:     https://example.org/t\nFound 1 authors.\n\n".to_string()
        + &format!("{:<25} | {:>10} | {:>15} | {:>15}\n", "Author", "Commits", "Insertions", "Deletions")
        + &format!("{:-<25}-|-{:-<10}-|-{:-<15}-|-{:-<15}\n", "", "", "", "")
        + &format!("{:<25} | {:>10} | {:>15} | {:>15}\n", "Ann", 3, 40, 2)
        + "\n"
        + "--- Timeline ---\n"
        + &format!("{:<10} | {:>10} | {:>10} | {:>10}\n", "Period", "Commits", "Insertions", "Deletions")
        + &format!("{:-<10}-|-{:-<10}-|-{:-<10}-|-{:-<10}\n", "", "", "", "")
        + &format!("{:<10} | {:>10} | {:>10} | {:>10}\n", "2023-01", 2, 12, 6)
        + "\n"
        + "--- Blame Responsibilities ---\n"
        + "\nAnn (7 lines)\n"
        + &format!("  {:<40} | {:>10}\n", "src/a.rs", 7)
        + "\n"
        + "--- Metrics ---\n"
        + "Cyclomatic complexity feature is active.\n";
    assert_eq!(out, expected);
}

#[test]
fn text_report_long_names_are_not_cut() {
    let mut r = report();
    r.authors = vec![author("A very long author name that overflows", 1, 1, 1)];
    let out = text::format(&r);
    assert!(out.contains("A very long author name that overflows |          1 |"));
}
