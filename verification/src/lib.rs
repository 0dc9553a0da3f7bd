//! aish: the verified core of an agentic shell.

pub mod activity;
pub mod backend;
pub mod chars;
pub mod cli;
pub mod coordinator;
pub mod db;
pub mod diag;
pub mod dispatch_stats;
pub mod editor;
pub mod engine;
pub mod fd_shield;
pub mod git;
pub mod git_repo;
pub mod goal;
pub mod hash;
pub mod header;
pub mod hooks;
pub mod hwdetect;
pub mod ids;
pub mod jobs;
pub mod json;
pub mod keywatch;
pub mod lifecycle;
pub mod loopguard;
pub mod mcp;
pub mod md;
pub mod memory;
pub mod midturn_input;
pub mod text;
pub mod width;
