pub mod text;
pub mod orderer;
pub mod edit;
pub mod config;
pub mod aligner;
pub mod docstring;
pub mod scan;
pub mod section;
pub mod colon_targets;
pub mod rule;
pub mod slug;
pub mod cache;
pub mod diagnostics;
pub mod exit_status;
pub mod output;
pub mod report;
pub mod diff;
pub mod imports;
pub mod inline;
pub mod scope;
pub mod call_keywords;
pub mod binding;
pub mod pipeline;
pub mod file_uri;
pub mod args;
pub mod locator;
pub mod github;
pub mod process;
pub mod trivia;
