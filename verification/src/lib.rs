//! Verified core of a source-tree line-counting and statistics tool.
//!
//! The pipeline walks a directory tree (modelled here as an in-memory tree;
//! the binary drives the same decisions over a real filesystem or a git
//! snapshot), filters candidate files by extension and ignored directory
//! names, measures line counts and sizes per file, aggregates per-extension
//! totals, ranks files by line count, and buckets line counts into a
//! logarithmic histogram.

pub mod config;
pub mod histogram;
pub mod ignore_dirs;
pub mod measure;
pub mod pipeline;
pub mod ranking;
pub mod stats;
pub mod text;
pub mod walk;
