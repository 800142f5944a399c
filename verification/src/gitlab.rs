//! GitLab connection data: the host and project path taken from the git
//! remote, the token, and the REST requests made to GitLab.

use vstd::prelude::*;
use vstd::string::StringExecFns;

use crate::text::{
    chars_of, decimal, find_char, find_char_at, has_prefix, lossy_utf8, push_decimal, split_once,
    starts_with_at, string_of, trim, trim_end_matches, trim_end_matches_at, trim_range, utf8_lossy,
};
use crate::diff::{
    body_lines, current_header, header_path, is_body_line, lemma_lines_under_append, lemma_lines_under_push,
    lemma_parsed_files_are_headers, lemma_parsed_lines_are_lines_under_headers, lines_under, marked_lines,
    names_file, spec_parse_unified_diff,
};
use crate::text::{ends_line, lemma_line_in_lines, lemma_lines_add_newline, lemma_lines_concat, lemma_one_line, spec_lines};
use crate::types::{Discussion, MergeRequestWithDiscussions};
use vstd::std_specs::iter::IteratorSpec;

verus! {

/// Errors that can occur when constructing a [`GitLabClient`].
#[derive(Debug, Clone)]
pub enum GitLabError {
    /// Could not determine the git remote URL.
    NoRemote(String),
    /// Could not parse the remote URL into host + project path.
    ParseError(String),
    /// No token available (neither env var nor keyring).
    NoToken(String),
}

impl GitLabError {
    /// The text of the error, as it is shown to the user.
    pub fn message(&self) -> (r: String)
        ensures
            r@ == match self {
                GitLabError::NoRemote(m) => "git remote error: "@ + m@,
                GitLabError::ParseError(m) => "remote URL parse error: "@ + m@,
                GitLabError::NoToken(m) => "GitLab token error: "@ + m@,
            },
    {
        match self {
            GitLabError::NoRemote(m) => {
                let mut r = "git remote error: ".to_owned();
                r.append(m.as_str());
                r
            },
            GitLabError::ParseError(m) => {
                let mut r = "remote URL parse error: ".to_owned();
                r.append(m.as_str());
                r
            },
            GitLabError::NoToken(m) => {
                let mut r = "GitLab token error: ".to_owned();
                r.append(m.as_str());
                r
            },
        }
    }
}

// ---------------------------------------------------------------------------
// Remote URLs
// ---------------------------------------------------------------------------

pub open spec fn git_suffix() -> Seq<char> {
    seq!['.', 'g', 'i', 't']
}

/// `(host, project_path)` of a git remote URL, as `parse_remote_url` finds
/// them: `git@host:path`, or `ssh://`, `https://` or `http://`, an optional
/// `user@`, then `host/path`; every trailing `".git"` is removed from the path.
pub open spec fn spec_parse_remote_url(url: Seq<char>) -> Option<(Seq<char>, Seq<char>)> {
    if has_prefix(url, seq!['g', 'i', 't', '@']) && split_once(url.skip(4), ':') is Some {
        let (host, path) = split_once(url.skip(4), ':')->0;
        Some((host, trim_end_matches(path, git_suffix())))
    } else {
        let without_scheme = if has_prefix(url, seq!['s', 's', 'h', ':', '/', '/']) {
            Some(url.skip(6))
        } else if has_prefix(url, seq!['h', 't', 't', 'p', 's', ':', '/', '/']) {
            Some(url.skip(8))
        } else if has_prefix(url, seq!['h', 't', 't', 'p', ':', '/', '/']) {
            Some(url.skip(7))
        } else {
            None
        };
        match without_scheme {
            None => None,
            Some(ws) => {
                let without_user = match split_once(ws, '@') {
                    Some((_user, rest)) => rest,
                    None => ws,
                };
                match split_once(without_user, '/') {
                    Some((host, path)) => {
                        let project = trim_end_matches(path, git_suffix());
                        if host.len() > 0 && project.len() > 0 {
                            Some((host, project))
                        } else {
                            None
                        }
                    },
                    None => None,
                }
            },
        }
    }
}

proof fn lemma_split_at(s: Seq<char>, a: int, b: int, c: char, j: int)
    requires
        0 <= a <= j < b <= s.len(),
        find_char(s.subrange(a, b), c) == Some(j - a),
    ensures
        split_once(s.subrange(a, b), c) == Some((s.subrange(a, j), s.subrange(j + 1, b))),
{
    let t = s.subrange(a, b);
    assert(t.take(j - a) =~= s.subrange(a, j));
    assert(t.skip(j - a + 1) =~= s.subrange(j + 1, b));
}

/// Parse a git remote URL (SSH or HTTPS) into `(host, project_path)`.
///
/// Supported formats:
/// - `git@host:group/project.git`
/// - `ssh://git@host/group/project.git`
/// - `https://host/group/project.git`
pub fn parse_remote_url(url: &str) -> (r: Result<(String, String), GitLabError>)
    ensures
        match spec_parse_remote_url(url@) {
            Some((host, path)) => r matches Ok(v) && v.0@ == host && v.1@ == path,
            None => r matches Err(GitLabError::ParseError(m)) && m@
                == "unrecognised remote URL format: "@ + url@,
        },
{
    let s = chars_of(url);
    let n = s.len();
    proof {
        assert(s@.subrange(0, n as int) =~= s@);
    }
    if starts_with_at(&s, 0, n, &['g', 'i', 't', '@']) {
        assert(s@.skip(4) =~= s@.subrange(4, n as int));
        if let Some(c) = find_char_at(&s, 4, n, ':') {
            proof {
                lemma_split_at(s@, 4, n as int, ':', c as int);
            }
            let e = trim_end_matches_at(&s, c + 1, n, &['.', 'g', 'i', 't']);
            return Ok((string_of(&s, 4, c), string_of(&s, c + 1, e)));
        }
    }
    let start = if starts_with_at(&s, 0, n, &['s', 's', 'h', ':', '/', '/']) {
        Some(6usize)
    } else if starts_with_at(&s, 0, n, &['h', 't', 't', 'p', 's', ':', '/', '/']) {
        Some(8usize)
    } else if starts_with_at(&s, 0, n, &['h', 't', 't', 'p', ':', '/', '/']) {
        Some(7usize)
    } else {
        None
    };
    if let Some(st) = start {
        assert(s@.skip(st as int) =~= s@.subrange(st as int, n as int));
        let wu = match find_char_at(&s, st, n, '@') {
            Some(at) => {
                proof {
                    lemma_split_at(s@, st as int, n as int, '@', at as int);
                }
                at + 1
            },
            None => st,
        };
        if let Some(sl) = find_char_at(&s, wu, n, '/') {
            proof {
                lemma_split_at(s@, wu as int, n as int, '/', sl as int);
            }
            let e = trim_end_matches_at(&s, sl + 1, n, &['.', 'g', 'i', 't']);
            if sl > wu && e > sl + 1 {
                return Ok((string_of(&s, wu, sl), string_of(&s, sl + 1, e)));
            }
        }
    }
    let mut msg = "unrecognised remote URL format: ".to_owned();
    msg.append(url);
    Err(GitLabError::ParseError(msg))
}


// ---------------------------------------------------------------------------
// Percent-encoding of project paths
// ---------------------------------------------------------------------------

/// `s` with every `'/'` replaced by `"%2F"`.
pub open spec fn encode_slashes(s: Seq<char>) -> Seq<char>
    decreases s.len(),
{
    if s.len() == 0 {
        Seq::<char>::empty()
    } else {
        encode_slashes(s.drop_last()) + if s.last() == '/' {
            seq!['%', '2', 'F']
        } else {
            seq![s.last()]
        }
    }
}

/// Percent-encode a project path for use in GitLab API URLs.
/// Only `/` needs to become `%2F`; other characters in GitLab paths are safe.
pub fn urlencoding_encode(input: &str) -> (r: String)
    ensures
        r@ == encode_slashes(input@),
{
    let mut r = String::new();
    for c in it: input.chars()
        invariant
            it.seq() == input@,
            r@ == encode_slashes(it.seq().take(it.index() as int)),
    {
        let ghost k = it.index();
        proof {
            assert(it.seq().take(k + 1).drop_last() =~= it.seq().take(k as int));
        }
        if c == '/' {
            r.push('%');
            r.push('2');
            r.push('F');
        } else {
            r.push(c);
        }
        assert(r@ =~= encode_slashes(it.seq().take(k + 1)));
    }
    proof {
        assert(input@.take(input@.len() as int) =~= input@);
    }
    r
}

/// The encoded path holds no `'/'`.
pub proof fn lemma_encoded_path_has_no_slash(s: Seq<char>)
    ensures
        forall|k: int| 0 <= k < encode_slashes(s).len() ==> encode_slashes(s)[k] != '/',
    decreases s.len(),
{
    if s.len() > 0 {
        lemma_encoded_path_has_no_slash(s.drop_last());
        let a = encode_slashes(s.drop_last());
        let b = if s.last() == '/' {
            seq!['%', '2', 'F']
        } else {
            seq![s.last()]
        };
        assert forall|k: int| 0 <= k < encode_slashes(s).len() implies encode_slashes(s)[k] != '/' by {
            if k >= a.len() {
                assert(encode_slashes(s)[k] == b[k - a.len()]);
            }
        }
    }
}

/// A path without `'/'` is encoded as itself.
pub proof fn lemma_encode_keeps_slashless_path(s: Seq<char>)
    requires
        forall|k: int| 0 <= k < s.len() ==> s[k] != '/',
    ensures
        encode_slashes(s) == s,
    decreases s.len(),
{
    if s.len() > 0 {
        lemma_encode_keeps_slashless_path(s.drop_last());
        assert(s.drop_last() + seq![s.last()] =~= s);
    }
}

// ---------------------------------------------------------------------------
// The remote, the token
// ---------------------------------------------------------------------------

/// The remote URL from the output of `git remote get-url origin`: the trimmed
/// text of its standard output, if git succeeded and that text is not empty.
pub fn remote_url_from_git_output(success: bool, stdout: &[u8]) -> (r: Result<String, GitLabError>)
    ensures
        !success ==> (r matches Err(GitLabError::NoRemote(m)) && m@
            == "no 'origin' remote configured"@),
        success && trim(lossy_utf8(stdout@)).len() == 0 ==> (r matches Err(
            GitLabError::NoRemote(m),
        ) && m@ == "origin remote URL is empty"@),
        success && trim(lossy_utf8(stdout@)).len() > 0 ==> (r matches Ok(u) && u@ == trim(
            lossy_utf8(stdout@),
        )),
{
    if !success {
        return Err(GitLabError::NoRemote("no 'origin' remote configured".to_owned()));
    }
    let text = utf8_lossy(stdout);
    let s = chars_of(text.as_str());
    let (a, b) = trim_range(&s, 0, s.len());
    proof {
        assert(s@.subrange(0, s@.len() as int) =~= s@);
    }
    if a == b {
        return Err(GitLabError::NoRemote("origin remote URL is empty".to_owned()));
    }
    Ok(string_of(&s, a, b))
}

/// The token from a line the user typed: the line trimmed, if not empty.
pub fn token_from_prompt(input: &str) -> (r: Result<String, GitLabError>)
    ensures
        trim(input@).len() > 0 ==> (r matches Ok(t) && t@ == trim(input@)),
        trim(input@).len() == 0 ==> (r matches Err(GitLabError::NoToken(m)) && m@
            == "empty token provided"@),
{
    let s = chars_of(input);
    let (a, b) = trim_range(&s, 0, s.len());
    proof {
        assert(s@.subrange(0, s@.len() as int) =~= s@);
    }
    if a == b {
        return Err(GitLabError::NoToken("empty token provided".to_owned()));
    }
    Ok(string_of(&s, a, b))
}

// ---------------------------------------------------------------------------
// The client and its requests
// ---------------------------------------------------------------------------

/// The HTTP method of a request.
#[derive(Debug, Clone, Copy, PartialEq, Eq, Structural)]
pub enum HttpMethod {
    Get,
    Put,
}

/// A request to the GitLab REST API: the method, the URL, and the personal
/// access token that goes in its `PRIVATE-TOKEN` header.
#[derive(Debug, Clone)]
pub struct ApiRequest {
    pub method: HttpMethod,
    pub url: String,
    pub token: String,
}

/// Holds the resolved GitLab connection info needed for API calls.
#[derive(Debug, Clone)]
pub struct GitLabClient {
    /// Base API URL, e.g. `https://git.fronius.com/api/v4`.
    api_base: String,
    /// URL-encoded project path, e.g. `Danis.Gabriel%2Fmimimi`.
    project_id: String,
    /// Personal access token.
    token: String,
}

/// One changed file of a merge request, as the changes endpoint gives it.
#[derive(Debug, Clone)]
pub struct FileChange {
    pub old_path: String,
    pub new_path: String,
    pub diff: String,
}

/// The unified diff text of one changed file.
pub open spec fn change_block(c: FileChange) -> Seq<char> {
    "--- a/"@ + c.old_path@ + seq!['\n'] + "+++ b/"@ + c.new_path@ + seq!['\n'] + c.diff@ + if c.diff@.len() > 0 && c.diff@.last() == '\n' {
        Seq::<char>::empty()
    } else {
        seq!['\n']
    }
}

/// The unified diff text of the changed files, one after another.
pub open spec fn unified_diff_text(cs: Seq<FileChange>) -> Seq<char>
    decreases cs.len(),
{
    if cs.len() == 0 {
        Seq::<char>::empty()
    } else {
        unified_diff_text(cs.drop_last()) + change_block(cs.last())
    }
}

impl GitLabClient {
    pub closed spec fn api_base_of(self) -> Seq<char> {
        self.api_base@
    }

    pub closed spec fn project_id_of(self) -> Seq<char> {
        self.project_id@
    }

    pub closed spec fn token_of(self) -> Seq<char> {
        self.token@
    }

    /// `{api_base}/projects/{project_id}`.
    pub open spec fn project_url(self) -> Seq<char> {
        self.api_base_of() + "/projects/"@ + self.project_id_of()
    }

    /// `{api_base}/projects/{project_id}/merge_requests/{iid}`.
    pub open spec fn merge_request_url(self, iid: u64) -> Seq<char> {
        self.project_url() + "/merge_requests/"@ + decimal(iid as nat)
    }

    /// Create a client for the GitLab host and project of a git remote URL,
    /// with a personal access token.
    pub fn from_git_remote(remote_url: &str, token: String) -> (r: Result<Self, GitLabError>)
        ensures
            match spec_parse_remote_url(remote_url@) {
                Some((host, path)) => r matches Ok(c) && c.api_base_of() == "https://"@ + host
                    + "/api/v4"@ && c.project_id_of() == encode_slashes(path) && c.token_of()
                    == token@,
                None => r matches Err(GitLabError::ParseError(m)) && m@
                    == "unrecognised remote URL format: "@ + remote_url@,
            },
    {
        let (host, project_path) = match parse_remote_url(remote_url) {
            Ok(v) => v,
            Err(e) => return Err(e),
        };
        let mut api_base = "https://".to_owned();
        api_base.append(host.as_str());
        api_base.append("/api/v4");
        let project_id = urlencoding_encode(project_path.as_str());
        Ok(GitLabClient { api_base, project_id, token })
    }

    /// The personal access token.
    pub fn token(&self) -> (r: &str)
        ensures
            r@ == self.token_of(),
    {
        self.token.as_str()
    }

    fn project_url_string(&self) -> (r: String)
        ensures
            r@ == self.project_url(),
    {
        let mut url = self.api_base.clone();
        url.append("/projects/");
        url.append(self.project_id.as_str());
        url
    }

    fn merge_request_url_string(&self, mr_iid: u64) -> (r: String)
        ensures
            r@ == self.merge_request_url(mr_iid),
    {
        let mut url = self.project_url_string();
        url.append("/merge_requests/");
        push_decimal(&mut url, mr_iid);
        url
    }

    fn get(&self, url: String) -> (r: ApiRequest)
        ensures
            r.method == HttpMethod::Get,
            r.url == url,
            r.token@ == self.token_of(),
    {
        ApiRequest { method: HttpMethod::Get, url, token: self.token.clone() }
    }

    /// The request that lists the open merge requests of the project.
    pub fn list_merge_requests(&self) -> (r: ApiRequest)
        ensures
            r.method == HttpMethod::Get,
            r.url@ == self.project_url() + "/merge_requests?state=opened&per_page=100"@,
            r.token@ == self.token_of(),
    {
        let mut url = self.project_url_string();
        url.append("/merge_requests?state=opened&per_page=100");
        self.get(url)
    }

    /// The request for one merge request.
    pub fn merge_request(&self, mr_iid: u64) -> (r: ApiRequest)
        ensures
            r.method == HttpMethod::Get,
            r.url@ == self.merge_request_url(mr_iid),
            r.token@ == self.token_of(),
    {
        self.get(self.merge_request_url_string(mr_iid))
    }

    /// The request for the discussion threads of a merge request.
    pub fn merge_request_discussions(&self, mr_iid: u64) -> (r: ApiRequest)
        ensures
            r.method == HttpMethod::Get,
            r.url@ == self.merge_request_url(mr_iid) + "/discussions?per_page=100"@,
            r.token@ == self.token_of(),
    {
        let mut url = self.merge_request_url_string(mr_iid);
        url.append("/discussions?per_page=100");
        self.get(url)
    }

    /// The request for the changed files of a merge request.
    pub fn merge_request_changes(&self, mr_iid: u64) -> (r: ApiRequest)
        ensures
            r.method == HttpMethod::Get,
            r.url@ == self.merge_request_url(mr_iid) + "/changes"@,
            r.token@ == self.token_of(),
    {
        let mut url = self.merge_request_url_string(mr_iid);
        url.append("/changes");
        self.get(url)
    }

    /// The request that marks a discussion thread of a merge request resolved.
    pub fn resolve_discussion(&self, mr_iid: u64, discussion_id: &str) -> (r: ApiRequest)
        ensures
            r.method == HttpMethod::Put,
            r.url@ == self.merge_request_url(mr_iid) + "/discussions/"@ + discussion_id@
                + "?resolved=true"@,
            r.token@ == self.token_of(),
    {
        let mut url = self.merge_request_url_string(mr_iid);
        url.append("/discussions/");
        url.append(discussion_id);
        url.append("?resolved=true");
        ApiRequest { method: HttpMethod::Put, url, token: self.token.clone() }
    }

    /// The request for the discussion threads of merge request `mr_iid`, to
    /// be made only once the merge request itself was fetched: `None` when
    /// fetching it failed (`fetched` is `None`).
    pub fn discussions_request_after(
        &self,
        mr_iid: u64,
        fetched: &Option<MergeRequestWithDiscussions>,
    ) -> (r: Option<ApiRequest>)
        ensures
            fetched is None ==> r is None,
            fetched is Some ==> (r matches Some(q) && q.method == HttpMethod::Get && q.url@
                == self.merge_request_url(mr_iid) + "/discussions?per_page=100"@ && q.token@
                == self.token_of()),
    {
        match fetched {
            Some(_) => Some(self.merge_request_discussions(mr_iid)),
            None => None,
        }
    }

    /// The outcome of the request that resolves discussion `discussion_id`:
    /// `failure` is the error text of a request that failed.
    pub fn resolve_result(discussion_id: &str, failure: Option<String>) -> (r: Result<(), String>)
        ensures
            failure is None ==> r is Ok,
            failure matches Some(e) ==> (r matches Err(m) && m@ == "Failed to resolve discussion "@
                + discussion_id@ + ": "@ + e@),
    {
        match failure {
            None => Ok(()),
            Some(e) => {
                let mut m = "Failed to resolve discussion ".to_owned();
                m.append(discussion_id);
                m.append(": ");
                m.append(e.as_str());
                Err(m)
            },
        }
    }

    /// A merge request together with its discussion threads: `None` if the
    /// merge request could not be fetched; the threads are empty if they
    /// could not be fetched.
    pub fn get_merge_request_with_discussions(
        &self,
        mr: Option<MergeRequestWithDiscussions>,
        discussions: Option<Vec<Discussion>>,
    ) -> (r: Option<MergeRequestWithDiscussions>)
        ensures
            match mr {
                None => r is None,
                Some(m) => r matches Some(x) && x == (MergeRequestWithDiscussions {
                    discussions: x.discussions,
                    ..m
                }) && x.discussions@ == match discussions {
                    Some(d) => d@,
                    None => Seq::<Discussion>::empty(),
                },
            },
    {
        let m = match mr {
            Some(m) => m,
            None => return None,
        };
        let ds = match discussions {
            Some(d) => d,
            None => Vec::new(),
        };
        Some(MergeRequestWithDiscussions { discussions: ds, ..m })
    }

    /// The unified diff text of a merge request, rebuilt from its changed
    /// files so that [`crate::diff::parse_unified_diff`] can read it: for each
    /// file `"--- a/{old}\n+++ b/{new}\n"`, then its diff, ended by a newline.
    pub fn get_merge_request_diff(&self, changes: Option<Vec<FileChange>>) -> (r: Option<String>)
        ensures
            match changes {
                None => r is None,
                Some(cs) => r matches Some(t) && t@ == unified_diff_text(cs@),
            },
    {
        let cs = match changes {
            Some(cs) => cs,
            None => return None,
        };
        let mut unified = String::new();
        let mut i: usize = 0;
        proof {
            assert(cs@.take(0) =~= Seq::<FileChange>::empty());
        }
        while i < cs.len()
            invariant
                i <= cs@.len(),
                unified@ == unified_diff_text(cs@.take(i as int)),
            decreases cs@.len() - i,
        {
            let c = &cs[i];
            unified.append("--- a/");
            unified.append(c.old_path.as_str());
            unified.push('\n');
            unified.append("+++ b/");
            unified.append(c.new_path.as_str());
            unified.push('\n');
            unified.append(c.diff.as_str());
            let d = chars_of(c.diff.as_str());
            if d.len() > 0 && d[d.len() - 1] == '\n' {
            } else {
                unified.push('\n');
            }
            proof {
                assert(cs@.take(i + 1).drop_last() =~= cs@.take(i as int));
                assert(unified@ =~= unified_diff_text(cs@.take(i + 1)));
            }
            i = i + 1;
        }
        proof {
            assert(cs@.take(cs@.len() as int) =~= cs@);
        }
        Some(unified)
    }
}


// ---------------------------------------------------------------------------
// Connecting: the remote first, then the token sources in turn
// ---------------------------------------------------------------------------

/// Where a token can come from, in the order they are asked.
#[derive(Debug, Clone, Copy, PartialEq, Eq, Structural)]
pub enum TokenSource {
    /// The `GITLAB_TOKEN` environment variable.
    Environment,
    /// The token kept in the OS keyring.
    Keyring,
    /// A line the user types.
    Prompt,
}

/// The next step of connecting to GitLab.
#[derive(Debug)]
pub enum ConnectStep {
    /// Read this source and call again with what it gave.
    Read(TokenSource),
    Failed(GitLabError),
    Connected(GitLabClient),
}

/// The token decided from what the sources gave so far.
pub enum TokenDecision {
    Ask(TokenSource),
    Use(Seq<char>),
    NoToken,
}

/// The token from what the sources gave, in order: the environment's if
/// set and not empty, else the keyring's if there and not empty, else the
/// typed line trimmed, if that is not empty; the next source while one is
/// still unread.
pub open spec fn token_decision(read: Seq<Option<Seq<char>>>) -> TokenDecision {
    if read.len() == 0 {
        TokenDecision::Ask(TokenSource::Environment)
    } else if read[0] matches Some(e) && e.len() > 0 {
        TokenDecision::Use(read[0]->0)
    } else if read.len() == 1 {
        TokenDecision::Ask(TokenSource::Keyring)
    } else if read[1] matches Some(k) && k.len() > 0 {
        TokenDecision::Use(read[1]->0)
    } else if read.len() == 2 {
        TokenDecision::Ask(TokenSource::Prompt)
    } else if read[2] matches Some(l) && trim(l).len() > 0 {
        TokenDecision::Use(trim(read[2]->0))
    } else {
        TokenDecision::NoToken
    }
}

pub open spec fn read_view(read: Seq<Option<String>>) -> Seq<Option<Seq<char>>> {
    read.map_values(
        |o: Option<String>|
            match o {
                Some(t) => Some(t@),
                None => None,
            },
    )
}

/// One step of connecting to the GitLab project of `remote_url`: `read`
/// holds what the token sources gave so far, in the order of
/// [`TokenSource`] (`None` where a source had nothing).  The URL is checked
/// before any source is asked: a URL that does not parse fails at once.
pub fn connect_step(remote_url: &str, read: &Vec<Option<String>>) -> (r: ConnectStep)
    ensures
        spec_parse_remote_url(remote_url@) is None ==> (r matches ConnectStep::Failed(
            GitLabError::ParseError(m),
        ) && m@ == "unrecognised remote URL format: "@ + remote_url@),
        spec_parse_remote_url(remote_url@) matches Some((host, path)) ==> match token_decision(
            read_view(read@),
        ) {
            TokenDecision::Ask(source) => r == ConnectStep::Read(source),
            TokenDecision::Use(t) => r matches ConnectStep::Connected(c) && c.api_base_of()
                == "https://"@ + host + "/api/v4"@ && c.project_id_of() == encode_slashes(path)
                && c.token_of() == t,
            TokenDecision::NoToken => r matches ConnectStep::Failed(GitLabError::NoToken(m)) && m@
                == "empty token provided"@,
        },
{
    match parse_remote_url(remote_url) {
        Err(e) => return ConnectStep::Failed(e),
        Ok(_) => {},
    }
    let n = read.len();
    let mut token: Option<String> = None;
    if n == 0 {
        return ConnectStep::Read(TokenSource::Environment);
    }
    match &read[0] {
        Some(e) => if !e.as_str().is_empty() {
            token = Some(e.as_str().to_owned());
        },
        None => {},
    }
    if token.is_none() {
        if n == 1 {
            return ConnectStep::Read(TokenSource::Keyring);
        }
        match &read[1] {
            Some(k) => if !k.as_str().is_empty() {
                token = Some(k.as_str().to_owned());
            },
            None => {},
        }
    }
    if token.is_none() {
        if n == 2 {
            return ConnectStep::Read(TokenSource::Prompt);
        }
        match &read[2] {
            Some(line) => match token_from_prompt(line.as_str()) {
                Ok(t) => token = Some(t),
                Err(e) => return ConnectStep::Failed(e),
            },
            None => return ConnectStep::Failed(GitLabError::NoToken("empty token provided".to_owned())),
        }
    }
    let t = match token {
        Some(t) => t,
        None => return ConnectStep::Failed(GitLabError::NoToken("empty token provided".to_owned())),
    };
    match GitLabClient::from_git_remote(remote_url, t) {
        Ok(c) => ConnectStep::Connected(c),
        Err(e) => ConnectStep::Failed(e),
    }
}

// ---------------------------------------------------------------------------
// Properties of the remote parse
// ---------------------------------------------------------------------------

proof fn lemma_trim_end_matches_no_suffix(s: Seq<char>, p: Seq<char>)
    requires
        p.len() > 0,
    ensures
        !crate::text::has_suffix(trim_end_matches(s, p), p),
    decreases s.len(),
{
    if crate::text::has_suffix(s, p) {
        lemma_trim_end_matches_no_suffix(s.take(s.len() - p.len()), p);
    }
}

/// The project path that `parse_remote_url` finds never ends in `".git"`,
/// and that of an `ssh://`, `https://` or `http://` URL is not empty.
pub proof fn lemma_project_path_has_no_git_suffix(url: Seq<char>)
    ensures
        spec_parse_remote_url(url) matches Some((host, path)) ==> !crate::text::has_suffix(
            path,
            git_suffix(),
        ),
        !has_prefix(url, seq!['g', 'i', 't', '@']) ==> (spec_parse_remote_url(url) matches Some(
            (host, path),
        ) ==> host.len() > 0 && path.len() > 0),
{
    if let Some((host, path)) = spec_parse_remote_url(url) {
        if has_prefix(url, seq!['g', 'i', 't', '@']) && split_once(url.skip(4), ':') is Some {
            lemma_trim_end_matches_no_suffix((split_once(url.skip(4), ':')->0).1, git_suffix());
        } else {
            let ws = if has_prefix(url, seq!['s', 's', 'h', ':', '/', '/']) {
                url.skip(6)
            } else if has_prefix(url, seq!['h', 't', 't', 'p', 's', ':', '/', '/']) {
                url.skip(8)
            } else {
                url.skip(7)
            };
            let wu = match split_once(ws, '@') {
                Some((_u, rest)) => rest,
                None => ws,
            };
            lemma_trim_end_matches_no_suffix((split_once(wu, '/')->0).1, git_suffix());
        }
    }
}

/// A client made from a remote URL names the project by one URL path
/// segment: its project id holds no `'/'`.
pub proof fn lemma_client_project_id_is_one_segment(remote_url: Seq<char>, c: GitLabClient)
    requires
        spec_parse_remote_url(remote_url) matches Some((host, path)) && c.project_id_of()
            == encode_slashes(path),
    ensures
        forall|k: int| 0 <= k < c.project_id_of().len() ==> c.project_id_of()[k] != '/',
{
    let path = (spec_parse_remote_url(remote_url)->0).1;
    lemma_encoded_path_has_no_slash(path);
}


// ---------------------------------------------------------------------------
// The rebuilt diff text keeps the diff parser working
// ---------------------------------------------------------------------------

proof fn lemma_unified_concat(x: Seq<FileChange>, y: Seq<FileChange>)
    ensures
        unified_diff_text(x + y) == unified_diff_text(x) + unified_diff_text(y),
    decreases y.len(),
{
    if y.len() == 0 {
        assert(x + y =~= x);
        assert(unified_diff_text(x) + Seq::<char>::empty() =~= unified_diff_text(x));
    } else {
        lemma_unified_concat(x, y.drop_last());
        assert((x + y).drop_last() =~= x + y.drop_last());
        assert((x + y).last() == y.last());
        assert(unified_diff_text(x) + unified_diff_text(y.drop_last()) + change_block(y.last())
            =~= unified_diff_text(x) + (unified_diff_text(y.drop_last()) + change_block(y.last())));
    }
}

proof fn lemma_unified_ends_line(x: Seq<FileChange>)
    ensures
        ends_line(unified_diff_text(x)),
    decreases x.len(),
{
    if x.len() > 0 {
        let c = x.last();
        let d = c.diff@;
        let head = "--- a/"@ + c.old_path@ + seq!['\n'] + "+++ b/"@ + c.new_path@ + seq!['\n'];
        if d.len() > 0 && d.last() == '\n' {
            assert(change_block(c) =~= head + d);
        } else {
            assert(change_block(c) =~= head + d + seq!['\n']);
        }
        assert((unified_diff_text(x.drop_last()) + change_block(c)).last() == change_block(c).last());
    }
}

/// The file header line that the rebuilt text gives a changed file is read
/// back as naming that file, when its new path has no newline and does not
/// end with a carriage return.
pub open spec fn header_survives(c: FileChange) -> bool {
    &&& forall|k: int| 0 <= k < c.new_path@.len() ==> c.new_path@[k] != '\n'
    &&& !(c.new_path@.len() > 0 && c.new_path@.last() == '\r')
}

proof fn lemma_regroup(
    u1: Seq<char>,
    p1: Seq<char>,
    old: Seq<char>,
    h: Seq<char>,
    new: Seq<char>,
    d: Seq<char>,
    u2: Seq<char>,
)
    ensures
        u1 + (p1 + old + seq!['\n'] + h + new + seq!['\n'] + d) + u2 == (u1 + p1 + old + seq!['\n'])
            + ((h + new) + seq!['\n'] + (d + u2)),
{
    assert(u1 + (p1 + old + seq!['\n'] + h + new + seq!['\n'] + d) + u2 =~= (u1 + p1 + old
        + seq!['\n']) + ((h + new) + seq!['\n'] + (d + u2)));
}

proof fn lemma_header_line(new: Seq<char>)
    requires
        forall|k: int| 0 <= k < new.len() ==> new[k] != '\n',
        !(new.len() > 0 && new.last() == '\r'),
    ensures
        ({
            let l = seq!['+', '+', '+', ' ', 'b', '/'] + new;
            &&& forall|k: int| 0 <= k < l.len() ==> l[k] != '\n'
            &&& !(l.len() > 0 && l.last() == '\r')
            &&& header_path(l) == Some(new)
        }),
{
    let l = seq!['+', '+', '+', ' ', 'b', '/'] + new;
    assert forall|k: int| 0 <= k < l.len() implies l[k] != '\n' by {
        if k >= 6 {
            assert(l[k] == new[k - 6]);
        }
    }
    if new.len() > 0 {
        assert(l.last() == new.last());
    } else {
        assert(l.last() == '/');
    }
    assert(l.take(4) =~= seq!['+', '+', '+', ' ']);
    assert(l.skip(4).take(2) =~= seq!['b', '/']);
    assert(l.skip(4).skip(2) =~= new);
}

/// The diff text rebuilt from a merge request's changed files parses to a
/// diff that has an entry for the new path of every changed file (with a
/// path that a line can hold).
pub proof fn lemma_rebuilt_diff_names_every_file(cs: Seq<FileChange>, j: int)
    requires
        0 <= j < cs.len(),
        header_survives(cs[j]),
    ensures
        spec_parse_unified_diff(unified_diff_text(cs)).contains_key(cs[j].new_path@),
{
    let c = cs[j];
    let before = cs.take(j);
    let after = cs.skip(j + 1);
    let u1 = unified_diff_text(before);
    let u2 = unified_diff_text(after);
    assert(unified_diff_text(cs) == u1 + change_block(c) + u2) by {
        assert(cs =~= before.push(c) + after);
        lemma_unified_concat(before.push(c), after);
        assert(before.push(c).drop_last() =~= before);
    }
    lemma_unified_ends_line(before);
    reveal_strlit("+++ b/");
    let hdr = seq!['+', '+', '+', ' ', 'b', '/'];
    assert("+++ b/"@ =~= hdr);
    let tail = if c.diff@.len() > 0 && c.diff@.last() == '\n' {
        Seq::<char>::empty()
    } else {
        seq!['\n']
    };
    let d = c.diff@ + tail;
    assert(change_block(c) =~= "--- a/"@ + c.old_path@ + seq!['\n'] + hdr + c.new_path@ + seq!['\n'] + d);
    lemma_regroup(u1, "--- a/"@, c.old_path@, hdr, c.new_path@, d, u2);
    let a = u1 + "--- a/"@ + c.old_path@ + seq!['\n'];
    let l = hdr + c.new_path@;
    let b = d + u2;
    assert(unified_diff_text(cs) == a + (l + seq!['\n'] + b));
    assert(ends_line(a));
    lemma_header_line(c.new_path@);
    lemma_line_in_lines(a, l, b);
    let lines = spec_lines(unified_diff_text(cs));
    let i = spec_lines(a).len() as int;
    assert(header_path(lines[i]) == Some(c.new_path@));
    assert(names_file(lines, c.new_path@));
    lemma_parsed_files_are_headers(unified_diff_text(cs), c.new_path@);
}

/// The old path of a changed file has no newline, and no line of its diff is
/// a `"+++ "` file header.
pub open spec fn block_is_plain(c: FileChange) -> bool {
    &&& forall|k: int| 0 <= k < c.old_path@.len() ==> c.old_path@[k] != '\n'
    &&& forall|k: int|
        0 <= k < spec_lines(c.diff@).len() ==> header_path(#[trigger] spec_lines(c.diff@)[k]) is None
}

/// A line without a carriage return at its end names a file only if the
/// line without it does.
proof fn lemma_header_of_stripped(x: Seq<char>)
    ensures
        header_path(crate::text::strip_cr(x)) is Some ==> header_path(x) is Some,
{
    let y = crate::text::strip_cr(x);
    if header_path(y) is Some && y.len() < x.len() {
        assert(x.take(4) =~= y.take(4));
    }
}

/// The only file that the text of one changed file names is its new path.
proof fn lemma_block_names_new_path(c: FileChange, p: Seq<char>)
    requires
        header_survives(c),
        block_is_plain(c),
        names_file(spec_lines(change_block(c)), p),
    ensures
        p == c.new_path@,
{
    lemma_block_lines(c);
    let lines = spec_lines(change_block(c));
    let ld = spec_lines(block_diff(c));
    let k = choose|k: int| 0 <= k < lines.len() && header_path(#[trigger] lines[k]) == Some(p);
    if k >= 2 {
        assert(lines[k] == ld[k - 2]);
    }
}

/// Every file that the rebuilt text names is the new path of a changed file.
proof fn lemma_rebuilt_names_only_new_paths(cs: Seq<FileChange>, p: Seq<char>)
    requires
        forall|j: int| 0 <= j < cs.len() ==> header_survives(#[trigger] cs[j]) && block_is_plain(cs[j]),
        names_file(spec_lines(unified_diff_text(cs)), p),
    ensures
        exists|j: int| 0 <= j < cs.len() && (#[trigger] cs[j]).new_path@ == p,
    decreases cs.len(),
{
    if cs.len() == 0 {
        assert(spec_lines(Seq::<char>::empty()).len() == 0) by {
            crate::text::lemma_split_lf_len(Seq::<char>::empty());
        }
    } else {
        let init = cs.drop_last();
        let c = cs.last();
        lemma_unified_ends_line(init);
        lemma_lines_concat(unified_diff_text(init), change_block(c));
        let li = spec_lines(unified_diff_text(init));
        let lc = spec_lines(change_block(c));
        let lines = spec_lines(unified_diff_text(cs));
        assert(lines == li + lc);
        let k = choose|k: int| 0 <= k < lines.len() && header_path(#[trigger] lines[k]) == Some(p);
        if k < li.len() {
            assert(header_path(li[k]) == Some(p));
            assert(names_file(li, p));
            assert forall|j: int| 0 <= j < init.len() implies header_survives(#[trigger] init[j])
                && block_is_plain(init[j]) by {
                assert(init[j] == cs[j]);
            }
            lemma_rebuilt_names_only_new_paths(init, p);
            let j = choose|j: int| 0 <= j < init.len() && (#[trigger] init[j]).new_path@ == p;
            assert(cs[j] == init[j]);
        } else {
            assert(header_path(lc[k - li.len()]) == Some(p));
            assert(names_file(lc, p));
            assert(header_survives(cs[cs.len() - 1]));
            lemma_block_names_new_path(c, p);
            assert(cs[cs.len() - 1].new_path@ == p);
        }
    }
}

/// The files of the diff rebuilt from a merge request's changed files are
/// exactly their new paths, when each new path can stand on a line (no
/// newline, no carriage return at its end), no old path holds a newline and
/// no diff has a line that reads as a `"+++ "` file header.
pub proof fn lemma_rebuilt_diff_keys(cs: Seq<FileChange>, p: Seq<char>)
    requires
        forall|j: int| 0 <= j < cs.len() ==> header_survives(#[trigger] cs[j]) && block_is_plain(cs[j]),
    ensures
        spec_parse_unified_diff(unified_diff_text(cs)).contains_key(p) <==> exists|j: int|
            0 <= j < cs.len() && (#[trigger] cs[j]).new_path@ == p,
{
    lemma_parsed_files_are_headers(unified_diff_text(cs), p);
    if spec_parse_unified_diff(unified_diff_text(cs)).contains_key(p) {
        lemma_rebuilt_names_only_new_paths(cs, p);
    }
    if exists|j: int| 0 <= j < cs.len() && (#[trigger] cs[j]).new_path@ == p {
        let j = choose|j: int| 0 <= j < cs.len() && (#[trigger] cs[j]).new_path@ == p;
        lemma_rebuilt_diff_names_every_file(cs, j);
    }
}

/// `s` has no `c`.
pub open spec fn lacks(s: Seq<char>, c: char) -> bool {
    forall|k: int| 0 <= k < s.len() ==> s[k] != c
}

proof fn lemma_split_joined(a: Seq<char>, c: char, b: Seq<char>)
    requires
        lacks(a, c),
    ensures
        split_once(a + seq![c] + b, c) == Some((a, b)),
{
    let s = a + seq![c] + b;
    crate::text::lemma_find_char(s, c);
    assert(s[a.len() as int] == c);
    match find_char(s, c) {
        Some(i) => {
            assert(i == a.len());
        },
        None => {},
    }
    assert(s.take(a.len() as int) =~= a);
    assert(s.skip(a.len() + 1 as int) =~= b);
}

proof fn lemma_no_split(s: Seq<char>, c: char)
    requires
        lacks(s, c),
    ensures
        split_once(s, c) is None,
{
    crate::text::lemma_find_char(s, c);
}

proof fn lemma_trim_git(p: Seq<char>)
    requires
        !crate::text::has_suffix(p, git_suffix()),
    ensures
        trim_end_matches(p, git_suffix()) == p,
        trim_end_matches(p + git_suffix(), git_suffix()) == p,
{
    let q = p + git_suffix();
    assert(trim_end_matches(p, git_suffix()) == p);
    assert(q.skip(q.len() - 4) =~= git_suffix());
    assert(q.take(q.len() - 4) =~= p);
    assert(crate::text::has_suffix(q, git_suffix()));
    assert(trim_end_matches(q, git_suffix()) == trim_end_matches(q.take(q.len() - 4), git_suffix()));
}

/// The conditions of the round trip on a host and a project path.
pub open spec fn round_trip_parts(h: Seq<char>, p: Seq<char>) -> bool {
    &&& h.len() > 0
    &&& p.len() > 0
    &&& lacks(h, ':')
    &&& lacks(h, '/')
    &&& lacks(h, '@')
    &&& lacks(p, '@')
    &&& !crate::text::has_suffix(p, git_suffix())
}

proof fn lemma_round_trip_scp(h: Seq<char>, p: Seq<char>, tail: Seq<char>)
    requires
        round_trip_parts(h, p),
        tail == git_suffix() || tail.len() == 0,
    ensures
        spec_parse_remote_url(seq!['g', 'i', 't', '@'] + h + seq![':'] + p + tail) == Some((h, p)),
{
    lemma_trim_git(p);
    let git_at = seq!['g', 'i', 't', '@'];
    let u = git_at + h + seq![':'] + p + tail;
    assert(u.take(4) =~= git_at);
    assert(u.skip(4) =~= h + seq![':'] + (p + tail));
    lemma_split_joined(h, ':', p + tail);
    assert(p + Seq::<char>::empty() =~= p);
}

proof fn lemma_round_trip_ssh(h: Seq<char>, p: Seq<char>)
    requires
        round_trip_parts(h, p),
    ensures
        spec_parse_remote_url(
            seq!['s', 's', 'h', ':', '/', '/', 'g', 'i', 't', '@'] + h + seq!['/'] + p + git_suffix(),
        ) == Some((h, p)),
{
    lemma_trim_git(p);
    let u = seq!['s', 's', 'h', ':', '/', '/', 'g', 'i', 't', '@'] + h + seq!['/'] + p + git_suffix();
    assert(u.take(4)[0] == 's');
    assert(u.take(4) != seq!['g', 'i', 't', '@']);
    assert(u.take(6) =~= seq!['s', 's', 'h', ':', '/', '/']);
    let rest = h + seq!['/'] + (p + git_suffix());
    assert(u.skip(6) =~= seq!['g', 'i', 't'] + seq!['@'] + rest);
    lemma_split_joined(seq!['g', 'i', 't'], '@', rest);
    lemma_split_joined(h, '/', p + git_suffix());
}

proof fn lemma_round_trip_https(h: Seq<char>, p: Seq<char>, tail: Seq<char>)
    requires
        round_trip_parts(h, p),
        tail == git_suffix() || tail.len() == 0,
    ensures
        spec_parse_remote_url(seq!['h', 't', 't', 'p', 's', ':', '/', '/'] + h + seq!['/'] + p + tail)
            == Some((h, p)),
{
    lemma_trim_git(p);
    let u = seq!['h', 't', 't', 'p', 's', ':', '/', '/'] + h + seq!['/'] + p + tail;
    assert(u.take(4)[0] == 'h');
    assert(u.take(4) != seq!['g', 'i', 't', '@']);
    assert(u.take(6)[0] == 'h');
    assert(u.take(6) != seq!['s', 's', 'h', ':', '/', '/']);
    assert(u.take(8) =~= seq!['h', 't', 't', 'p', 's', ':', '/', '/']);
    let pt = p + tail;
    let ws = h + seq!['/'] + pt;
    assert(u.skip(8) =~= ws);
    assert(lacks(pt, '@')) by {
        assert forall|k: int| 0 <= k < pt.len() implies pt[k] != '@' by {
            if k >= p.len() {
                assert(pt[k] == tail[k - p.len()]);
            }
        }
    }
    assert(lacks(ws, '@')) by {
        assert forall|k: int| 0 <= k < ws.len() implies ws[k] != '@' by {
            if k < h.len() {
                assert(ws[k] == h[k]);
            } else if k > h.len() {
                assert(ws[k] == pt[k - h.len() - 1]);
            }
        }
    }
    lemma_no_split(ws, '@');
    lemma_split_joined(h, '/', pt);
    assert(p + Seq::<char>::empty() =~= p);
}

/// The three schemes after which a user part may stand.
pub open spec fn url_scheme(k: int) -> Seq<char> {
    if k == 0 {
        seq!['s', 's', 'h', ':', '/', '/']
    } else if k == 1 {
        seq!['h', 't', 't', 'p', 's', ':', '/', '/']
    } else {
        seq!['h', 't', 't', 'p', ':', '/', '/']
    }
}

/// The rest of a URL after its scheme: a user, `@`, the host and the path.
proof fn lemma_user_rest(user: Seq<char>, h: Seq<char>, p: Seq<char>, tail: Seq<char>)
    requires
        round_trip_parts(h, p),
        lacks(user, '@'),
        tail == git_suffix() || tail.len() == 0,
    ensures
        split_once(user + seq!['@'] + h + seq!['/'] + p + tail, '@') == Some((user, h + seq!['/'] + (p + tail))),
        split_once(h + seq!['/'] + (p + tail), '/') == Some((h, p + tail)),
        trim_end_matches(p + tail, git_suffix()) == p,
{
    lemma_trim_git(p);
    let rest = h + seq!['/'] + (p + tail);
    assert(user + seq!['@'] + h + seq!['/'] + p + tail =~= user + seq!['@'] + rest);
    lemma_split_joined(user, '@', rest);
    lemma_split_joined(h, '/', p + tail);
    assert(p + Seq::<char>::empty() =~= p);
}

#[verifier::rlimit(30)]
proof fn lemma_round_trip_user(k: int, user: Seq<char>, h: Seq<char>, p: Seq<char>, tail: Seq<char>)
    requires
        0 <= k <= 2,
        round_trip_parts(h, p),
        lacks(user, '@'),
        tail == git_suffix() || tail.len() == 0,
    ensures
        spec_parse_remote_url(url_scheme(k) + user + seq!['@'] + h + seq!['/'] + p + tail) == Some((h, p)),
{
    let sch = url_scheme(k);
    let ws = user + seq!['@'] + h + seq!['/'] + p + tail;
    let u = sch + ws;
    assert(sch + user + seq!['@'] + h + seq!['/'] + p + tail =~= u);
    lemma_user_rest(user, h, p, tail);
    assert(u.take(4)[0] == sch[0]);
    assert(u.take(4) != seq!['g', 'i', 't', '@']);
    if k == 0 {
        assert(u.take(6) =~= sch);
        assert(u.skip(6) =~= ws);
    } else {
        assert(u.take(6)[0] == 'h');
        assert(u.take(6) != seq!['s', 's', 'h', ':', '/', '/']);
        if k == 1 {
            assert(u.take(8) =~= sch);
            assert(u.skip(8) =~= ws);
        } else {
            assert(u.take(8)[4] == ':');
            assert(u.take(8) != seq!['h', 't', 't', 'p', 's', ':', '/', '/']);
            assert(u.take(7) =~= sch);
            assert(u.skip(7) =~= ws);
        }
    }
}

/// Round trip of the remote URL forms with a user part: after `ssh://`,
/// `https://` or `http://`, a user without `'@'`, then `@`, a host `h` and a
/// project path `p` (as in [`lemma_remote_url_round_trip`]), with or without
/// `.git`, give back `h` and `p`: the user part never stays in the host.
pub proof fn lemma_remote_url_round_trip_with_user(user: Seq<char>, h: Seq<char>, p: Seq<char>)
    requires
        round_trip_parts(h, p),
        lacks(user, '@'),
    ensures
        forall|k: int|
            0 <= k <= 2 ==> spec_parse_remote_url(
                #[trigger] url_scheme(k) + user + seq!['@'] + h + seq!['/'] + p + git_suffix(),
            ) == Some((h, p)) && spec_parse_remote_url(url_scheme(k) + user + seq!['@'] + h + seq!['/'] + p)
                == Some((h, p)),
{
    assert forall|k: int|
        0 <= k <= 2 implies spec_parse_remote_url(
            #[trigger] url_scheme(k) + user + seq!['@'] + h + seq!['/'] + p + git_suffix(),
        ) == Some((h, p)) && spec_parse_remote_url(url_scheme(k) + user + seq!['@'] + h + seq!['/'] + p)
            == Some((h, p)) by {
        lemma_round_trip_user(k, user, h, p, git_suffix());
        lemma_round_trip_user(k, user, h, p, Seq::empty());
        assert(url_scheme(k) + user + seq!['@'] + h + seq!['/'] + p + Seq::<char>::empty() =~= url_scheme(k)
            + user + seq!['@'] + h + seq!['/'] + p);
    }
}

/// Round trip of the remote URL forms: a host `h` (not empty, without `:`,
/// `/` and `@`) and a project path `p` (not empty, without `@`, not ending in
/// `.git`) come back from `git@h:p.git`, `git@h:p`, `ssh://git@h/p.git`,
/// `https://h/p.git` and `https://h/p`.
pub proof fn lemma_remote_url_round_trip(h: Seq<char>, p: Seq<char>)
    requires
        round_trip_parts(h, p),
    ensures
        spec_parse_remote_url(seq!['g', 'i', 't', '@'] + h + seq![':'] + p + git_suffix()) == Some((h, p)),
        spec_parse_remote_url(seq!['g', 'i', 't', '@'] + h + seq![':'] + p) == Some((h, p)),
        spec_parse_remote_url(
            seq!['s', 's', 'h', ':', '/', '/', 'g', 'i', 't', '@'] + h + seq!['/'] + p + git_suffix(),
        ) == Some((h, p)),
        spec_parse_remote_url(seq!['h', 't', 't', 'p', 's', ':', '/', '/'] + h + seq!['/'] + p + git_suffix())
            == Some((h, p)),
        spec_parse_remote_url(seq!['h', 't', 't', 'p', 's', ':', '/', '/'] + h + seq!['/'] + p) == Some((h, p)),
{
    lemma_round_trip_scp(h, p, git_suffix());
    lemma_round_trip_scp(h, p, Seq::empty());
    assert(seq!['g', 'i', 't', '@'] + h + seq![':'] + p + Seq::<char>::empty() =~= seq!['g', 'i', 't', '@'] + h
        + seq![':'] + p);
    lemma_round_trip_ssh(h, p);
    lemma_round_trip_https(h, p, git_suffix());
    lemma_round_trip_https(h, p, Seq::empty());
    assert(seq!['h', 't', 't', 'p', 's', ':', '/', '/'] + h + seq!['/'] + p + Seq::<char>::empty() =~= seq![
        'h',
        't',
        't',
        'p',
        's',
        ':',
        '/',
        '/',
    ] + h + seq!['/'] + p);
}

/// How many `'/'` the string holds.
pub open spec fn count_slashes(s: Seq<char>) -> nat
    decreases s.len(),
{
    if s.len() == 0 {
        0
    } else {
        count_slashes(s.drop_last()) + if s.last() == '/' {
            1nat
        } else {
            0nat
        }
    }
}

/// `s` with every `"%2F"` replaced by `'/'` (`str::replace`).
pub open spec fn decode_slashes(s: Seq<char>) -> Seq<char>
    decreases s.len(),
{
    if s.len() >= 3 && s.skip(s.len() - 3) == seq!['%', '2', 'F'] {
        decode_slashes(s.take(s.len() - 3)) + seq!['/']
    } else if s.len() > 0 {
        decode_slashes(s.drop_last()) + seq![s.last()]
    } else {
        Seq::empty()
    }
}

/// `s` holds `"%2F"`.
pub open spec fn holds_encoded_slash(s: Seq<char>) -> bool {
    exists|k: int| 0 <= k && k + 2 < s.len() && s[k] == '%' && s[k + 1] == '2' && #[trigger] s[k + 2] == 'F'
}

/// The last character of an encoded path is that of the path, or `'F'` when
/// that was a `'/'`.
proof fn lemma_encoded_last(s: Seq<char>)
    requires
        s.len() > 0,
    ensures
        encode_slashes(s).len() > 0,
        encode_slashes(s).last() == if s.last() == '/' {
            'F'
        } else {
            s.last()
        },
{
}

/// An encoded path ends in `"%2F"` only after a `'/'`, or when the path
/// itself ends in `"%2F"`.
proof fn lemma_encoded_tail(s: Seq<char>)
    requires
        s.len() > 0,
        s.last() != '/',
        encode_slashes(s).len() >= 3,
        encode_slashes(s).skip(encode_slashes(s).len() - 3) == seq!['%', '2', 'F'],
    ensures
        s.len() >= 3 && s[s.len() - 3] == '%' && s[s.len() - 2] == '2' && s[s.len() - 1] == 'F',
{
    let d = s.drop_last();
    let e = encode_slashes(s);
    let ed = encode_slashes(d);
    assert(e =~= ed + seq![s.last()]);
    assert(e.last() == 'F');
    assert(ed.len() >= 2);
    assert(ed.last() == '2') by {
        assert(e[e.len() - 2] == ed.last());
    }
    lemma_encoded_last(d);
    let dd = d.drop_last();
    assert(ed =~= encode_slashes(dd) + seq!['2']);
    assert(encode_slashes(dd).len() > 0 && encode_slashes(dd).last() == '%') by {
        assert(e[e.len() - 3] == ed[ed.len() - 2]);
    }
    assert(dd.len() > 0) by {
        if dd.len() == 0 {
            assert(encode_slashes(dd).len() == 0);
        }
    }
    lemma_encoded_last(dd);
}

/// Encoding a project path adds two characters for each `'/'`, and it is
/// undone by replacing each `"%2F"` with `'/'` when the path held no `"%2F"`.
pub proof fn lemma_encode_slashes_length_and_inverse(s: Seq<char>)
    ensures
        encode_slashes(s).len() == s.len() + 2 * count_slashes(s),
        !holds_encoded_slash(s) ==> decode_slashes(encode_slashes(s)) == s,
    decreases s.len(),
{
    if s.len() > 0 {
        let d = s.drop_last();
        lemma_encode_slashes_length_and_inverse(d);
        let e = encode_slashes(s);
        let ed = encode_slashes(d);
        if !holds_encoded_slash(s) {
            assert(!holds_encoded_slash(d)) by {
                if holds_encoded_slash(d) {
                    let k = choose|k: int|
                        0 <= k && k + 2 < d.len() && d[k] == '%' && d[k + 1] == '2' && #[trigger] d[k + 2] == 'F';
                    assert(s[k + 2] == 'F');
                }
            }
            if s.last() == '/' {
                assert(e.skip(e.len() - 3) =~= seq!['%', '2', 'F']);
                assert(e.take(e.len() - 3) =~= ed);
                assert(d + seq!['/'] =~= s);
            } else {
                assert(e =~= ed + seq![s.last()]);
                assert(e.drop_last() =~= ed);
                if e.len() >= 3 && e.skip(e.len() - 3) == seq!['%', '2', 'F'] {
                    lemma_encoded_tail(s);
                    let k = s.len() - 3;
                    assert(s[k + 2] == 'F');
                }
                assert(d + seq![s.last()] =~= s);
            }
        }
    }
}

/// The `"--- a/"` line of a changed file.
pub open spec fn minus_line(c: FileChange) -> Seq<char> {
    "--- a/"@ + c.old_path@
}

/// The `"+++ b/"` line of a changed file.
pub open spec fn plus_line(c: FileChange) -> Seq<char> {
    seq!['+', '+', '+', ' ', 'b', '/'] + c.new_path@
}

/// The diff of a changed file as the rebuilt text holds it, ended by a newline.
pub open spec fn block_diff(c: FileChange) -> Seq<char> {
    c.diff@ + if c.diff@.len() > 0 && c.diff@.last() == '\n' {
        Seq::<char>::empty()
    } else {
        seq!['\n']
    }
}

/// The lines of a changed file's text: its two header lines, then its diff's.
proof fn lemma_block_lines(c: FileChange)
    requires
        header_survives(c),
        block_is_plain(c),
    ensures
        spec_lines(change_block(c)) == seq![crate::text::strip_cr(minus_line(c)), plus_line(c)] + spec_lines(
            block_diff(c),
        ),
        header_path(crate::text::strip_cr(minus_line(c))) is None,
        !is_body_line(crate::text::strip_cr(minus_line(c))),
        header_path(plus_line(c)) == Some(c.new_path@),
        !is_body_line(plus_line(c)),
        forall|k: int|
            0 <= k < spec_lines(block_diff(c)).len() ==> header_path(#[trigger] spec_lines(block_diff(c))[k])
                is None,
        body_lines(spec_lines(block_diff(c))).len() == body_lines(spec_lines(c.diff@)).len(),
{
    reveal_strlit("--- a/");
    reveal_strlit("+++ b/");
    let hdr = seq!['+', '+', '+', ' ', 'b', '/'];
    assert("+++ b/"@ =~= hdr);
    let minus = minus_line(c);
    let plus = plus_line(c);
    let d = c.diff@;
    let dd = block_diff(c);
    let a = minus + seq!['\n'];
    let b = plus + seq!['\n'];
    assert(change_block(c) =~= a + (b + dd));
    lemma_lines_concat(a, b + dd);
    lemma_lines_concat(b, dd);
    assert forall|k: int| 0 <= k < minus.len() implies minus[k] != '\n' by {
        if k >= 6 {
            assert(minus[k] == c.old_path@[k - 6]);
        }
    }
    lemma_one_line(minus);
    lemma_header_line(c.new_path@);
    lemma_one_line(plus);
    assert(crate::text::strip_cr(plus) == plus);
    assert(spec_lines(change_block(c)) =~= seq![crate::text::strip_cr(minus), plus] + spec_lines(dd));
    let sm = crate::text::strip_cr(minus);
    assert(sm.len() >= 6 && sm[0] == '-' && sm[1] == '-' && sm[2] == '-' && sm[3] == ' ') by {
        assert(minus.len() >= 6);
        assert(minus[0] == '-' && minus[1] == '-' && minus[2] == '-' && minus[3] == ' ');
    }
    assert(has_prefix(sm, seq!['-', '-', '-', ' '])) by {
        assert(sm.take(4) =~= seq!['-', '-', '-', ' ']);
    }
    assert(header_path(sm) is None) by {
        if has_prefix(sm, seq!['+', '+', '+', ' ']) {
            assert(sm.take(4)[0] == '+');
        }
    }
    assert(has_prefix(plus, seq!['+', '+', '+', ' ']));
    let ld = spec_lines(dd);
    if d.len() > 0 && d.last() == '\n' {
        assert(dd =~= d);
    } else if d.len() == 0 {
        assert(dd =~= Seq::<char>::empty() + seq!['\n']);
        lemma_one_line(Seq::<char>::empty());
        assert(ld == seq![crate::text::strip_cr(Seq::<char>::empty())]);
        assert(!is_body_line(ld[0]));
        assert(body_lines(ld).len() == 0) by {
            assert(crate::text::strip_cr(Seq::<char>::empty()) =~= Seq::<char>::empty());
            assert(ld.last() =~= Seq::<char>::empty());
            assert(!is_body_line(ld.last()));
            assert(ld.drop_last() =~= Seq::<Seq<char>>::empty());
            assert(body_lines(ld) == body_lines(ld.drop_last()));
            assert(body_lines(Seq::<Seq<char>>::empty()).len() == 0);
        }
        assert(spec_lines(d).len() == 0) by {
            crate::text::lemma_split_lf_len(d);
        }
    } else {
        assert(dd =~= d + seq!['\n']);
        lemma_lines_add_newline(d);
        let ls = spec_lines(d);
        let n = ls.len();
        assert forall|k: int| 0 <= k < ld.len() implies header_path(#[trigger] ld[k]) is None by {
            if k < n - 1 {
                assert(ld[k] == ls[k]);
                assert(header_path(ls[k]) is None);
            } else {
                assert(header_path(ls[n - 1]) is None);
                lemma_header_of_stripped(ls.last());
            }
        }
        lemma_body_of_stripped(ls.last());
        assert(ld.drop_last() =~= ls.drop_last());
    }
}

/// Dropping a carriage return at the end keeps a line a body line or not.
proof fn lemma_body_of_stripped(x: Seq<char>)
    ensures
        is_body_line(crate::text::strip_cr(x)) == is_body_line(x),
{
    let y = crate::text::strip_cr(x);
    if y.len() < x.len() {
        if x.len() >= 5 {
            assert(x.take(4) =~= y.take(4));
        } else if y.len() > 0 {
            assert(y[0] == x[0]);
            assert(x.last() == '\r');
            if x.len() >= 4 {
                assert(x.take(4)[3] == '\r');
            }
        }
    }
}

/// How many body lines of the changed files named `p` stand in the rebuilt
/// text.
pub open spec fn rebuilt_body_count(cs: Seq<FileChange>, p: Seq<char>) -> nat
    decreases cs.len(),
{
    if cs.len() == 0 {
        0
    } else {
        rebuilt_body_count(cs.drop_last(), p) + if cs.last().new_path@ == p {
            body_lines(spec_lines(cs.last().diff@)).len()
        } else {
            0
        }
    }
}

proof fn lemma_rebuilt_lines_under(cs: Seq<FileChange>, p: Seq<char>)
    requires
        forall|j: int| 0 <= j < cs.len() ==> header_survives(#[trigger] cs[j]) && block_is_plain(cs[j]),
    ensures
        lines_under(spec_lines(unified_diff_text(cs)), p).len() == rebuilt_body_count(cs, p),
        cs.len() > 0 ==> current_header(spec_lines(unified_diff_text(cs))) == Some(cs.last().new_path@),
        cs.len() == 0 ==> current_header(spec_lines(unified_diff_text(cs))) is None,
    decreases cs.len(),
{
    if cs.len() == 0 {
        assert(spec_lines(Seq::<char>::empty()).len() == 0) by {
            crate::text::lemma_split_lf_len(Seq::<char>::empty());
        }
        assert(spec_lines(unified_diff_text(cs)) =~= Seq::<Seq<char>>::empty());
    } else {
        let init = cs.drop_last();
        let c = cs.last();
        assert forall|j: int| 0 <= j < init.len() implies header_survives(#[trigger] init[j])
            && block_is_plain(init[j]) by {
            assert(init[j] == cs[j]);
        }
        assert(header_survives(cs[cs.len() - 1]) && block_is_plain(cs[cs.len() - 1]));
        lemma_rebuilt_lines_under(init, p);
        lemma_unified_ends_line(init);
        lemma_lines_concat(unified_diff_text(init), change_block(c));
        lemma_block_lines(c);
        let x = spec_lines(unified_diff_text(init));
        let m = crate::text::strip_cr(minus_line(c));
        let h = plus_line(c);
        let ld = spec_lines(block_diff(c));
        assert(spec_lines(unified_diff_text(cs)) =~= x.push(m).push(h) + ld);
        lemma_lines_under_push(x, m, p);
        lemma_lines_under_push(x.push(m), h, p);
        lemma_lines_under_append(x.push(m).push(h), ld, p);
    }
}

proof fn lemma_rebuilt_count_of_distinct(cs: Seq<FileChange>, j: int)
    requires
        0 <= j < cs.len(),
        forall|k: int| 0 <= k < cs.len() && k != j ==> (#[trigger] cs[k]).new_path@ != cs[j].new_path@,
    ensures
        rebuilt_body_count(cs, cs[j].new_path@) == body_lines(spec_lines(cs[j].diff@)).len(),
    decreases cs.len(),
{
    let p = cs[j].new_path@;
    let init = cs.drop_last();
    if j < cs.len() - 1 {
        assert forall|k: int| 0 <= k < init.len() && k != j implies (#[trigger] init[k]).new_path@ != init[j].new_path@ by {
            assert(init[k] == cs[k]);
        }
        lemma_rebuilt_count_of_distinct(init, j);
        assert(cs[cs.len() - 1].new_path@ != p);
    } else {
        lemma_rebuilt_count_absent(init, p);
    }
}

proof fn lemma_rebuilt_count_absent(cs: Seq<FileChange>, p: Seq<char>)
    requires
        forall|k: int| 0 <= k < cs.len() ==> (#[trigger] cs[k]).new_path@ != p,
    ensures
        rebuilt_body_count(cs, p) == 0,
    decreases cs.len(),
{
    if cs.len() > 0 {
        let init = cs.drop_last();
        assert forall|k: int| 0 <= k < init.len() implies (#[trigger] init[k]).new_path@ != p by {
            assert(init[k] == cs[k]);
        }
        lemma_rebuilt_count_absent(init, p);
        assert(cs[cs.len() - 1].new_path@ != p);
    }
}

/// The parse of the rebuilt diff gives a changed file as many lines as its
/// diff has body lines (lines starting with `'+'`, `'-'` or `' '` that are
/// not `"--- "` headers), when no other changed file has the same new path,
/// new paths can stand on a line, no old path holds a newline and no diff
/// line reads as a `"+++ "` header.
pub proof fn lemma_rebuilt_diff_line_counts(cs: Seq<FileChange>, j: int)
    requires
        forall|k: int| 0 <= k < cs.len() ==> header_survives(#[trigger] cs[k]) && block_is_plain(cs[k]),
        0 <= j < cs.len(),
        forall|k: int| 0 <= k < cs.len() && k != j ==> (#[trigger] cs[k]).new_path@ != cs[j].new_path@,
    ensures
        spec_parse_unified_diff(unified_diff_text(cs)).contains_key(cs[j].new_path@),
        spec_parse_unified_diff(unified_diff_text(cs))[cs[j].new_path@].len() == body_lines(
            spec_lines(cs[j].diff@),
        ).len(),
{
    let p = cs[j].new_path@;
    let raw = unified_diff_text(cs);
    assert(header_survives(cs[j]));
    lemma_rebuilt_diff_names_every_file(cs, j);
    lemma_parsed_lines_are_lines_under_headers(raw, p);
    lemma_rebuilt_lines_under(cs, p);
    lemma_rebuilt_count_of_distinct(cs, j);
    assert(marked_lines(spec_parse_unified_diff(raw)[p]).len() == spec_parse_unified_diff(raw)[p].len());
}

} // verus!
