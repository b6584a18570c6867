//! The command-line options of an analysis run: the settings they give and the report
//! format they ask for.
use vstd::prelude::*;
use crate::blame::string_views;
use crate::config::{default_extension_list, default_extensions, Config};
use crate::strutil::{chars_eq, chars_of, string_of, trim, trim_chars};
use crate::textops::{split_on, split_on_chars};
use crate::seqs::views;

verus! {

/// The extensions named in a comma-separated list, each trimmed.
pub open spec fn extension_list(types: Seq<char>) -> Seq<Seq<char>> {
    split_on(types, ',').map_values(|p: Seq<char>| trim(p))
}

/// The extensions of a comma-separated list (`extension_list`).
pub fn parse_extension_list(types: &str) -> (r: Vec<String>)
    ensures
        string_views(r@) == extension_list(types@),
{
    let parts = split_on_chars(&chars_of(types), ',');
    let ghost want = extension_list(types@);
    let mut out: Vec<String> = Vec::new();
    let mut i: usize = 0;
    while i < parts.len()
        invariant
            i <= parts@.len() == want.len(),
            views(parts@) == split_on(types@, ','),
            want == extension_list(types@),
            out@.len() == i,
            forall|k: int| 0 <= k < i ==> #[trigger] out@[k]@ == want[k],
        decreases parts@.len() - i,
    {
        assert(parts@[i as int]@ == views(parts@)[i as int]);
        out.push(string_of(&trim_chars(&parts[i])));
        i = i + 1;
    }
    assert(string_views(out@) =~= want);
    out
}

/// The settings of a run on the repository at `repo_path`: `grading` turns on the timeline,
/// the responsibilities and the metrics; otherwise each follows its own option. A list of
/// file types replaces the default extensions.
pub fn config_from_args(
    repo_path: &str,
    grading: bool,
    timeline: bool,
    responsibilities: bool,
    metrics: bool,
    file_types: Option<&str>,
) -> (r: Config)
    ensures
        r.repo_path@ == repo_path@,
        r.timeline == (grading || timeline),
        r.responsibilities == (grading || responsibilities),
        r.include_metrics == (grading || metrics),
        !r.hard,
        !r.use_weeks,
        !r.list_file_types,
        r.since is None,
        r.until is None,
        r.ext_list() == match file_types {
            Some(t) => extension_list(t@),
            None => default_extension_list(),
        },
{
    let extensions = match file_types {
        Some(t) => {
            let e = parse_extension_list(t);
            assert(e@.map_values(|s: String| s@) =~= string_views(e@));
            e
        },
        None => default_extensions(),
    };
    Config {
        repo_path: repo_path.to_string(),
        hard: false,
        use_weeks: false,
        include_metrics: grading || metrics,
        list_file_types: false,
        responsibilities: grading || responsibilities,
        timeline: grading || timeline,
        since: None,
        until: None,
        extensions,
    }
}

/// A format in which a report can be written.
#[derive(Debug, Clone, Copy, PartialEq, Eq, Structural)]
pub enum ReportFormat {
    Json,
    Xml,
    Html,
    Markdown,
    Text,
}

/// The lower-case form of `s`, as `str::to_lowercase` gives it.
pub uninterp spec fn str_lowercase(s: Seq<char>) -> Seq<char>;

/// `str::to_lowercase` (std). Trusted: the result is `str_lowercase(s)`; what Unicode's
/// case mapping gives for each character is left unsaid.
#[verifier::external_body]
fn lowercase(s: &str) -> (r: String)
    ensures
        r@ == str_lowercase(s@),
{
    s.to_lowercase()
}

/// The format that a lower-case format name asks for: `json`, `xml`, `html`, `markdown` or
/// `md`; any other name asks for text.
pub open spec fn format_named(name: Seq<char>) -> ReportFormat {
    if name == "json"@ {
        ReportFormat::Json
    } else if name == "xml"@ {
        ReportFormat::Xml
    } else if name == "html"@ {
        ReportFormat::Html
    } else if name == "markdown"@ || name == "md"@ {
        ReportFormat::Markdown
    } else {
        ReportFormat::Text
    }
}

/// The format that the lower-case name `name` asks for (`format_named`).
pub fn format_for(name: &str) -> (r: ReportFormat)
    ensures
        r == format_named(name@),
{
    let n = chars_of(name);
    if chars_eq(&n, &chars_of("json")) {
        ReportFormat::Json
    } else if chars_eq(&n, &chars_of("xml")) {
        ReportFormat::Xml
    } else if chars_eq(&n, &chars_of("html")) {
        ReportFormat::Html
    } else if chars_eq(&n, &chars_of("markdown")) || chars_eq(&n, &chars_of("md")) {
        ReportFormat::Markdown
    } else {
        ReportFormat::Text
    }
}

/// The format that the option `format` asks for, in any case.
pub fn choose_format(format: &str) -> (r: ReportFormat)
    ensures
        r == format_named(str_lowercase(format@)),
{
    let lower = lowercase(format);
    format_for(lower.as_str())
}

} // verus!
