use gitinspector_core::blame::{blame_candidates, merge_blame, parse_blame_output, try_merge_blame, try_parse_blame_output, BlameStats, FileBlame};
use gitinspector_core::config::Config;
use gitinspector_core::filtering::Filter;

const PORCELAIN: &str = "abc 1 1 1\nauthor Ann\nauthor-mail <ann@x>\nsummary s\n\tfn a() {}\nabc 2 2\nauthor Bob\nauthor-mail <bob@x>\n\tlet x = 1;\nabc 3 3\nauthor Ann Again\nauthor-mail <ann@x>\n\tlet y = 2;\n";

#[test]
fn porcelain_lines_are_counted_per_mail() {
    let filter = Filter::new(&[]).unwrap();
    let stats = parse_blame_output(PORCELAIN, &filter);
    assert_eq!(stats.len(), 2);
    assert_eq!(stats[0].author_email, "ann@x");
    assert_eq!(stats[0].author_name, "Ann");
    assert_eq!(stats[0].lines, 2);
    assert_eq!(stats[1].author_email, "bob@x");
    assert_eq!(stats[1].lines, 1);
    assert!(try_parse_blame_output(PORCELAIN, &filter).is_some());
}

#[test]
fn excluded_authors_own_nothing() {
    let filter = Filter::new(&["author:Bob".to_string()]).unwrap();
    let stats = parse_blame_output(PORCELAIN, &filter);
    assert_eq!(stats.len(), 1);
    assert_eq!(stats[0].author_email, "ann@x");
    let no_mail = parse_blame_output("author Zed\n\tline\n", &Filter::new(&[]).unwrap());
    assert!(no_mail.is_empty());
}

fn owner(email: &str, name: &str, lines: u32) -> BlameStats {
    BlameStats { author_name: name.to_string(), author_email: email.to_string(), lines, top_files: vec![] }
}

#[test]
fn ownership_merges_files_and_ranks() {
    let results = vec![
        ("a.rs".to_string(), vec![owner("ann@x", "Ann", 3), owner("bob@x", "Bob", 10)]),
        ("b.rs".to_string(), vec![owner("ann@x", "Ann", 9)]),
    ];
    let merged = merge_blame(&results);
    assert_eq!(merged.len(), 2);
    assert_eq!(merged[0].author_email, "ann@x");
    assert_eq!(merged[0].lines, 12);
    assert_eq!(merged[0].top_files.len(), 2);
    assert_eq!(merged[0].top_files[0].path, "b.rs");
    assert_eq!(merged[0].top_files[0].lines, 9);
    assert_eq!(merged[1].lines, 10);
    assert!(try_merge_blame(&results).is_some());
}

#[test]
fn ownership_keeps_ten_files() {
    let mut results = Vec::new();
    for i in 0..12u32 {
        results.push((format!("f{}.rs", i), vec![owner("ann@x", "Ann", i + 1)]));
    }
    let merged = merge_blame(&results);
    assert_eq!(merged[0].top_files.len(), 10);
    assert_eq!(merged[0].top_files[0].path, "f11.rs");
    assert_eq!(merged[0].lines, (1..=12).sum::<u32>());
}

#[test]
fn blame_targets_follow_extensions_and_filters() {
    let config = Config::default();
    let filter = Filter::new(&["file:^vendor/".to_string()]).unwrap();
    let files = vec!["src/a.rs".to_string(), "vendor/b.rs".to_string(), "notes.txt".to_string(), "c.py".to_string()];
    let picked = blame_candidates(&config, &filter, &files);
    assert_eq!(picked, vec!["src/a.rs".to_string(), "c.py".to_string()]);
}

#[test]
fn file_blame_filename() {
    let f = FileBlame { path: "a/b/c.txt".to_string(), lines: 1 };
    assert_eq!(f.filename(), "c.txt");
    let g = FileBlame { path: "..".to_string(), lines: 1 };
    assert_eq!(g.filename(), "..");
}
