//! Statistical analysis of git history: commit-log parsing, per-author and per-file
//! aggregation, timelines, blame ownership, repository health and report rendering.
pub mod strutil;
pub mod textops;
pub mod seqs;
pub mod dates;
pub mod paths;
pub mod config;
pub mod filtering;
pub mod analysis;
pub mod timeline;
pub mod blame;
pub mod health;
pub mod metrics;
pub mod repo;
pub mod options;
pub mod provider;
pub mod formatters;
pub mod laws;
