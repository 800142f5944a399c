//! Review GitLab merge request threads: unified diff parsing, GitLab remote
//! and request handling, review-session state and OpenCode helpers.

pub mod text;
pub mod diff;
pub mod types;
pub mod gitlab;
pub mod review;
pub mod opencode;
pub mod screen;
pub mod highlight;
