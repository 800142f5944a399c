//! Typed representations of GitLab API objects.

use vstd::prelude::*;

verus! {

/// The screen the review session is on.
#[derive(Debug, Clone, Copy, PartialEq, Eq, Structural)]
pub enum AppState {
    MergeRequestList,
    CommentList,
    /// Confirmation popup for resolving selected comments.
    ConfirmResolve,
    Exiting,
}

impl Default for AppState {
    fn default() -> (r: AppState)
        ensures
            r == AppState::MergeRequestList,
    {
        AppState::MergeRequestList
    }
}

/// A GitLab user as returned by the GitLab REST API.
#[derive(Debug, Clone)]
pub struct User {
    pub id: u64,
    pub username: String,
    pub name: String,
    pub state: String,
    pub web_url: String,
}

impl Default for User {
    fn default() -> (r: User)
        ensures
            r.id == 0,
            r.username@.len() == 0,
            r.name@.len() == 0,
            r.state@.len() == 0,
            r.web_url@.len() == 0,
    {
        User {
            id: 0,
            username: String::new(),
            name: String::new(),
            state: String::new(),
            web_url: String::new(),
        }
    }
}

/// A GitLab merge request as returned by `GET /projects/:id/merge_requests`.
#[derive(Debug, Clone)]
pub struct MergeRequest {
    pub id: u64,
    pub iid: u64,
    pub title: String,
    pub description: Option<String>,
    pub state: String,
    pub source_branch: String,
    pub target_branch: String,
    pub author: User,
    pub assignee: Option<User>,
    pub labels: Vec<String>,
    pub created_at: String,
    pub updated_at: String,
    pub upvotes: u32,
    pub downvotes: u32,
    pub web_url: Option<String>,
}

/// Position information for a diff note, indicating which file and line(s)
/// the comment refers to.
#[derive(Debug, Clone)]
pub struct NotePosition {
    pub base_sha: Option<String>,
    pub start_sha: Option<String>,
    pub head_sha: Option<String>,
    pub position_type: Option<String>,
    pub new_path: Option<String>,
    pub old_path: Option<String>,
    pub new_line: Option<usize>,
    pub old_line: Option<usize>,
}

/// A single note (comment) within a discussion thread.
#[derive(Debug, Clone)]
pub struct Note {
    pub id: u64,
    pub note_type: Option<String>,
    pub body: String,
    pub author: User,
    /// `true` for automated system events (e.g. "requested review from @x").
    pub system: bool,
    pub created_at: String,
    pub updated_at: String,
    pub resolvable: bool,
    pub resolved: bool,
    pub resolved_at: Option<String>,
    pub resolved_by: Option<User>,
    pub position: Option<NotePosition>,
    pub internal: bool,
    pub confidential: bool,
    pub noteable_type: String,
    pub noteable_iid: Option<u64>,
}

/// A discussion thread, containing one or more [`Note`]s.
#[derive(Debug, Clone)]
pub struct Discussion {
    pub id: String,
    pub individual_note: bool,
    pub notes: Vec<Note>,
}

/// A full MR object combined with its discussion threads.
///
/// The MR fields come from `GET /projects/:id/merge_requests/:iid` and the
/// discussions come from a separate discussions endpoint; they are merged by
/// [`crate::gitlab::GitLabClient::get_merge_request_with_discussions`].
#[derive(Debug, Clone)]
pub struct MergeRequestWithDiscussions {
    pub id: u64,
    pub iid: u64,
    pub title: String,
    pub description: Option<String>,
    pub state: String,
    pub source_branch: String,
    pub target_branch: String,
    pub author: User,
    pub assignee: Option<User>,
    pub labels: Vec<String>,
    pub created_at: String,
    pub updated_at: String,
    pub upvotes: u32,
    pub downvotes: u32,
    pub web_url: Option<String>,
    /// Discussion threads — populated separately from the discussions API.
    pub discussions: Vec<Discussion>,
}

impl Default for MergeRequestWithDiscussions {
    fn default() -> (r: MergeRequestWithDiscussions)
        ensures
            r.id == 0,
            r.iid == 0,
            r.title@.len() == 0,
            r.description is None,
            r.state@.len() == 0,
            r.source_branch@.len() == 0,
            r.target_branch@.len() == 0,
            r.author.id == 0,
            r.author.username@.len() == 0,
            r.author.name@.len() == 0,
            r.author.state@.len() == 0,
            r.author.web_url@.len() == 0,
            r.created_at@.len() == 0,
            r.updated_at@.len() == 0,
            r.assignee is None,
            r.web_url is None,
            r.labels@.len() == 0,
            r.upvotes == 0,
            r.downvotes == 0,
            r.discussions@.len() == 0,
    {
        MergeRequestWithDiscussions {
            id: 0,
            iid: 0,
            title: String::new(),
            description: None,
            state: String::new(),
            source_branch: String::new(),
            target_branch: String::new(),
            author: User::default(),
            assignee: None,
            labels: Vec::new(),
            created_at: String::new(),
            updated_at: String::new(),
            upvotes: 0,
            downvotes: 0,
            web_url: None,
            discussions: Vec::new(),
        }
    }
}

} // verus!
