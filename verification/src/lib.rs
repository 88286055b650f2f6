//! Output condensers for command-line tools: grep/rg result grouping,
//! curl response shortening and line diffs, with their contracts.

pub mod utils;
pub mod grep_cmd;
pub mod curl_cmd;
pub mod diff_cmd;
pub mod grep_laws;
