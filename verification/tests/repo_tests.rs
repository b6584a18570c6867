use gitinspector_core::options::{choose_format, config_from_args, format_for, parse_extension_list, ReportFormat};
use gitinspector_core::repo::{get_branch_name, get_remote_url, get_repo_name};

#[test]
fn repo_name_prefers_the_resolved_path() {
    assert_eq!(get_repo_name(".", Some("/home/u/projects/tool")), "tool");
    assert_eq!(get_repo_name("some/dir", None), "dir");
    assert_eq!(get_repo_name(".", None), "Repository");
    assert_eq!(get_repo_name("..", None), "Repository");
    assert_eq!(get_repo_name("/", Some("/")), "Repository");
}

#[test]
fn branch_name_defaults_to_head() {
    assert_eq!(get_branch_name(Some("feature/x\n")), "feature/x");
    assert_eq!(get_branch_name(Some("  \n")), "HEAD");
    assert_eq!(get_branch_name(None), "HEAD");
}

#[test]
fn remote_urls_become_web_addresses() {
    assert_eq!(get_remote_url(Some("git@github.com:owner/repo.git\n")).unwrap(), "https://github.com/owner/repo");
    assert_eq!(get_remote_url(Some("https://example.org/a/b.git")).unwrap(), "https://example.org/a/b");
    assert_eq!(get_remote_url(Some("https://example.org/a/b")).unwrap(), "https://example.org/a/b");
    assert_eq!(get_remote_url(Some("git@host:git@x")).unwrap(), "https://host/https://x");
    assert!(get_remote_url(None).is_none());
}

#[test]
fn extension_lists_are_trimmed() {
    assert_eq!(parse_extension_list("rs, js ,py"), vec!["rs".to_string(), "js".to_string(), "py".to_string()]);
    assert_eq!(parse_extension_list(""), vec!["".to_string()]);
    assert_eq!(parse_extension_list("a,,b"), vec!["a".to_string(), "".to_string(), "b".to_string()]);
}

#[test]
fn grading_turns_everything_on() {
    let c = config_from_args("/repo", true, false, false, false, None);
    assert!(c.timeline && c.responsibilities && c.include_metrics);
    assert_eq!(c.repo_path, "/repo");
    assert_eq!(c.extensions.len(), 20);
    let d = config_from_args(".", false, true, false, true, Some("rs,c"));
    assert!(d.timeline && !d.responsibilities && d.include_metrics);
    assert_eq!(d.extensions, vec!["rs".to_string(), "c".to_string()]);
}

#[test]
fn formats_by_name() {
    assert_eq!(choose_format("JSON"), ReportFormat::Json);
    assert_eq!(choose_format("Xml"), ReportFormat::Xml);
    assert_eq!(choose_format("html"), ReportFormat::Html);
    assert_eq!(choose_format("MD"), ReportFormat::Markdown);
    assert_eq!(choose_format("markdown"), ReportFormat::Markdown);
    assert_eq!(choose_format("text"), ReportFormat::Text);
    assert_eq!(choose_format("pdf"), ReportFormat::Text);
    assert_eq!(format_for("JSON"), ReportFormat::Text);
}

#[test]
fn repo_name_reads_the_final_component() {
    assert_eq!(get_repo_name("some/dir/", None), "dir");
    assert_eq!(get_repo_name("x/./", None), "x");
    assert_eq!(get_repo_name("a//b", None), "b");
    assert_eq!(get_repo_name("a/..", None), "Repository");
    assert_eq!(get_repo_name("a/..", Some("/home/u/a/..")), "Repository");
}
