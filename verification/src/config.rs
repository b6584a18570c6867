//! Analysis settings.
use vstd::prelude::*;

verus! {

/// Settings of one analysis run.
#[derive(Debug, Clone)]
pub struct Config {
    pub repo_path: String,
    pub hard: bool,
    pub use_weeks: bool,
    pub include_metrics: bool,
    pub list_file_types: bool,
    pub responsibilities: bool,
    pub timeline: bool,
    pub since: Option<String>,
    pub until: Option<String>,
    pub extensions: Vec<String>,
}

impl Config {
    /// The file extensions that count, as character sequences.
    pub open spec fn ext_list(&self) -> Seq<Seq<char>> {
        self.extensions@.map_values(|e: String| e@)
    }
}

/// The extensions analysed by default.
pub open spec fn default_extension_list() -> Seq<Seq<char>> {
    seq![
        "java"@, "c"@, "cc"@, "cpp"@, "h"@, "hh"@, "hpp"@, "py"@, "glsl"@, "rb"@, "js"@,
        "sql"@, "rs"@, "ts"@, "tsx"@, "jsx"@, "go"@, "swift"@, "kt"@, "md"@,
    ]
}

/// The extensions analysed by default, as strings.
pub fn default_extensions() -> (r: Vec<String>)
    ensures
        r@.map_values(|e: String| e@) == default_extension_list(),
{
    let names = [
        "java", "c", "cc", "cpp", "h", "hh", "hpp", "py", "glsl", "rb", "js", "sql", "rs", "ts",
        "tsx", "jsx", "go", "swift", "kt", "md",
    ];
    let mut r: Vec<String> = Vec::new();
    let mut i: usize = 0;
    while i < 20
        invariant
            i <= 20,
            names@ == seq![
                "java", "c", "cc", "cpp", "h", "hh", "hpp", "py", "glsl", "rb", "js", "sql", "rs", "ts",
                "tsx", "jsx", "go", "swift", "kt", "md",
            ],
            r@.len() == i,
            forall|j: int| 0 <= j < i ==> #[trigger] r@[j]@ == names@[j]@,
        decreases 20 - i,
    {
        r.push(names[i].to_string());
        i = i + 1;
    }
    assert(r@.map_values(|e: String| e@) =~= default_extension_list());
    r
}

impl Default for Config {
    fn default() -> (r: Self)
        ensures
            r.repo_path@ == "."@,
            !r.hard,
            !r.use_weeks,
            !r.include_metrics,
            !r.list_file_types,
            !r.responsibilities,
            !r.timeline,
            r.since is None,
            r.until is None,
            r.ext_list() == default_extension_list(),
    {
        Config {
            repo_path: ".".to_string(),
            hard: false,
            use_weeks: false,
            include_metrics: false,
            list_file_types: false,
            responsibilities: false,
            timeline: false,
            since: None,
            until: None,
            extensions: default_extensions(),
        }
    }
}

} // verus!
