//! A simplified cyclomatic-complexity metric.
use vstd::prelude::*;
use crate::filtering::{compile_pattern, pattern_match_count, regex_compiles, regex_match_count};

verus! {

/// Simplified cyclomatic complexity of one file.
#[derive(Debug, Default, Clone)]
pub struct FileMetrics {
    pub complexity: u32,
}

/// The regular expression that finds branching points: common branching keywords and
/// operators of C-style languages and Python.
pub open spec fn branching_pattern() -> Seq<char> {
    "\\b(if|else|while|for|catch|case|switch|&&|\\|\\||\\?)\\b"@
}

/// The complexity of a source with `count` branching points: 1 for the single path, plus
/// one per branching point (the count taken modulo 2^32, as a `u32`).
pub fn complexity_from_count(count: usize) -> (r: FileMetrics)
    requires
        (count as u32) < u32::MAX,
    ensures
        r.complexity == 1 + (count as u32),
{
    FileMetrics { complexity: 1 + count as u32 }
}

/// The complexity of the source text `content`: `None` when the branching pattern does not
/// compile, or when the count would overflow `u32`.
pub fn source_complexity(content: &str) -> (r: Option<FileMetrics>)
    ensures
        r is Some <==> regex_compiles(branching_pattern())
            && (regex_match_count(branching_pattern(), content@) as u32) < u32::MAX,
        r matches Some(m) ==> m.complexity == 1 + (regex_match_count(branching_pattern(), content@) as u32),
{
    let pattern = "\\b(if|else|while|for|catch|case|switch|&&|\\|\\||\\?)\\b";
    let re = match compile_pattern(pattern) {
        Ok(re) => re,
        Err(_) => {
            return None;
        },
    };
    let count = pattern_match_count(&re, content);
    if (count as u32) < u32::MAX {
        Some(complexity_from_count(count))
    } else {
        None
    }
}

} // verus!
