use gitinspector_core::metrics::{complexity_from_count, source_complexity};
use gitinspector_core::provider::{git_log_args, parse_branches, parse_tracked_files, CliGitProvider};
use gitinspector_core::config::Config;

#[test]
fn test_calculate_file_complexity() {
    let content = "fn main() {\n if true { println!(\"true\"); }\n while false {} \n}";
    let m = source_complexity(content).unwrap();
    assert_eq!(m.complexity, 3);
    assert_eq!(source_complexity("").unwrap().complexity, 1);
    assert_eq!(source_complexity("if x && y { } else { }").unwrap().complexity, 3);
    assert_eq!(complexity_from_count(4).complexity, 5);
}

#[test]
fn provider_reads_git_output() {
    let _p = CliGitProvider::new();
    assert_eq!(parse_tracked_files("a.rs\nsrc/b.rs\n"), vec!["a.rs".to_string(), "src/b.rs".to_string()]);
    assert_eq!(
        parse_branches("* main\n  dev\n\n  remotes/origin/main\n"),
        vec!["main".to_string(), "dev".to_string(), "remotes/origin/main".to_string()]
    );
    let mut c = Config::default();
    assert_eq!(git_log_args(&c).len(), 5);
    c.since = Some("2020-01-01".to_string());
    let args = git_log_args(&c);
    assert_eq!(args[2], "--pretty=format:commit|%h|%an|%ae|%ad|%s");
    assert_eq!(args[5], "--since=2020-01-01");
}
