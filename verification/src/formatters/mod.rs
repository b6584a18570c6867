//! The analysis report and its renderings.
pub mod text;

use vstd::prelude::*;
use crate::analysis::{AuthorStats, FileStats, RepoHealth};
use crate::blame::BlameStats;
use crate::timeline::TimelinePeriod;

verus! {

/// Everything an analysis run reports.
#[derive(Debug, Clone)]
pub struct Report {
    pub repo_name: String,
    pub branch_name: String,
    pub remote_url: Option<String>,
    pub authors: Vec<AuthorStats>,
    pub file_stats: Vec<FileStats>,
    pub timeline: Option<Vec<TimelinePeriod>>,
    pub blame: Option<Vec<BlameStats>>,
    pub health: Option<RepoHealth>,
    pub metrics_enabled: bool,
    pub version: String,
    pub duration: String,
}

} // verus!
