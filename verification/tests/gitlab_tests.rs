use mimimi::gitlab::{
    connect_step, parse_remote_url, remote_url_from_git_output, token_from_prompt,
    urlencoding_encode, ConnectStep, FileChange, GitLabClient, GitLabError, HttpMethod,
    TokenSource,
};
use mimimi::diff::parse_unified_diff;
use mimimi::types::{Discussion, MergeRequestWithDiscussions};

#[test]
fn test_parse_ssh_shorthand() {
    let (host, path) = parse_remote_url("git@git.fronius.com:Danis.Gabriel/mimimi.git").unwrap();
    assert_eq!(host, "git.fronius.com");
    assert_eq!(path, "Danis.Gabriel/mimimi");
}

#[test]
fn test_parse_https() {
    let (host, path) = parse_remote_url("https://gitlab.com/group/subgroup/project.git").unwrap();
    assert_eq!(host, "gitlab.com");
    assert_eq!(path, "group/subgroup/project");
}

#[test]
fn test_parse_ssh_scheme() {
    let (host, path) = parse_remote_url("ssh://git@gitlab.example.com/team/repo.git").unwrap();
    assert_eq!(host, "gitlab.example.com");
    assert_eq!(path, "team/repo");
}

#[test]
fn test_parse_no_dot_git_suffix() {
    let (host, path) = parse_remote_url("git@host.com:a/b").unwrap();
    assert_eq!(host, "host.com");
    assert_eq!(path, "a/b");
}

#[test]
fn test_urlencoding() {
    assert_eq!(urlencoding_encode("Danis.Gabriel/mimimi"), "Danis.Gabriel%2Fmimimi");
    assert_eq!(urlencoding_encode("group/sub/project"), "group%2Fsub%2Fproject");
}

#[test]
fn encoded_path_has_no_slash() {
    let e = urlencoding_encode("/a//b/");
    assert_eq!(e, "%2Fa%2F%2Fb%2F");
    assert!(!e.contains('/'));
    assert_eq!(urlencoding_encode("plain"), "plain");
}

#[test]
fn parse_remote_edge_cases() {
    // Every trailing ".git" goes.
    assert_eq!(parse_remote_url("git@h:p.git.git").unwrap().1, "p");
    assert_eq!(parse_remote_url("http://user@h/x").unwrap(), ("h".to_string(), "x".to_string()));
    match parse_remote_url("https://host/.git") {
        Err(GitLabError::ParseError(m)) => {
            assert_eq!(m, "unrecognised remote URL format: https://host/.git")
        }
        other => panic!("unexpected {other:?}"),
    }
    assert!(parse_remote_url("ftp://h/p").is_err());
    assert!(parse_remote_url("https://hostonly").is_err());
    assert!(parse_remote_url("git@nocolon").is_err());
}

#[test]
fn error_messages() {
    assert_eq!(GitLabError::NoRemote("x".into()).message(), "git remote error: x");
    assert_eq!(GitLabError::ParseError("y".into()).message(), "remote URL parse error: y");
    assert_eq!(GitLabError::NoToken("z".into()).message(), "GitLab token error: z");
}

#[test]
fn remote_from_git_output() {
    assert_eq!(remote_url_from_git_output(true, b"  git@h:a/b.git\n").unwrap(), "git@h:a/b.git");
    match remote_url_from_git_output(false, b"x") {
        Err(GitLabError::NoRemote(m)) => assert_eq!(m, "no 'origin' remote configured"),
        other => panic!("unexpected {other:?}"),
    }
    match remote_url_from_git_output(true, b" \n") {
        Err(GitLabError::NoRemote(m)) => assert_eq!(m, "origin remote URL is empty"),
        other => panic!("unexpected {other:?}"),
    }
    // Invalid UTF-8 is replaced, not dropped.
    assert_eq!(remote_url_from_git_output(true, b"a\xffb").unwrap(), "a\u{fffd}b");
}

#[test]
fn token_choice() {
    let url = "https://gitlab.com/g/p.git";
    let token_of = |read: Vec<Option<String>>| match connect_step(url, &read) {
        ConnectStep::Connected(c) => Ok(c.token().to_string()),
        ConnectStep::Read(s) => Err(format!("{s:?}")),
        ConnectStep::Failed(e) => Err(e.message()),
    };
    assert_eq!(token_of(vec![]), Err("Environment".to_string()));
    assert_eq!(token_of(vec![Some("env".into())]), Ok("env".to_string()));
    assert_eq!(token_of(vec![Some(String::new())]), Err("Keyring".to_string()));
    assert_eq!(token_of(vec![None, Some("kr".into())]), Ok("kr".to_string()));
    assert_eq!(token_of(vec![Some(String::new()), Some(String::new())]), Err("Prompt".to_string()));
    assert_eq!(token_of(vec![None, None, Some("  typed \n".into())]), Ok("typed".to_string()));
    assert_eq!(token_of(vec![None, None, Some(" \n".into())]), Err("GitLab token error: empty token provided".to_string()));
    assert_eq!(token_from_prompt("  tok \n").unwrap(), "tok");
    match token_from_prompt("\n") {
        Err(GitLabError::NoToken(m)) => assert_eq!(m, "empty token provided"),
        other => panic!("unexpected {other:?}"),
    }
}

#[test]
fn client_requests() {
    let c = GitLabClient::from_git_remote("git@git.example.com:grp/proj.git", "T".into()).unwrap();
    assert_eq!(c.token(), "T");
    let r = c.list_merge_requests();
    assert_eq!(r.method, HttpMethod::Get);
    assert_eq!(
        r.url,
        "https://git.example.com/api/v4/projects/grp%2Fproj/merge_requests?state=opened&per_page=100"
    );
    assert_eq!(r.token, "T");
    assert_eq!(
        c.merge_request(42).url,
        "https://git.example.com/api/v4/projects/grp%2Fproj/merge_requests/42"
    );
    assert_eq!(
        c.merge_request_discussions(7).url,
        "https://git.example.com/api/v4/projects/grp%2Fproj/merge_requests/7/discussions?per_page=100"
    );
    assert_eq!(
        c.merge_request_changes(0).url,
        "https://git.example.com/api/v4/projects/grp%2Fproj/merge_requests/0/changes"
    );
    let p = c.resolve_discussion(1234567890, "abc");
    assert_eq!(p.method, HttpMethod::Put);
    assert_eq!(
        p.url,
        "https://git.example.com/api/v4/projects/grp%2Fproj/merge_requests/1234567890/discussions/abc?resolved=true"
    );
    assert!(GitLabClient::from_git_remote("nonsense", "T".into()).is_err());
}

#[test]
fn merge_request_with_discussions() {
    let c = GitLabClient::from_git_remote("git@h:a/b", "T".into()).unwrap();
    let mut mr = MergeRequestWithDiscussions::default();
    mr.iid = 9;
    mr.title = "T".into();
    assert!(c.get_merge_request_with_discussions(None, Some(Vec::new())).is_none());
    let d = Discussion { id: "d1".into(), individual_note: false, notes: Vec::new() };
    let with = c.get_merge_request_with_discussions(Some(mr.clone()), Some(vec![d])).unwrap();
    assert_eq!(with.iid, 9);
    assert_eq!(with.discussions.len(), 1);
    let without = c.get_merge_request_with_discussions(Some(mr), None).unwrap();
    assert_eq!(without.title, "T");
    assert!(without.discussions.is_empty());
}

#[test]
fn rebuilt_diff_text_parses_back() {
    let c = GitLabClient::from_git_remote("git@h:a/b", "T".into()).unwrap();
    assert!(c.get_merge_request_diff(None).is_none());
    let changes = vec![
        FileChange { old_path: "old.rs".into(), new_path: "new.rs".into(), diff: "@@ -1 +1 @@\n-a\n+b".into() },
        FileChange { old_path: "x".into(), new_path: "x".into(), diff: "@@ -0,0 +1 @@\n+y\n".into() },
    ];
    let text = c.get_merge_request_diff(Some(changes)).unwrap();
    assert_eq!(
        text,
        "--- a/old.rs\n+++ b/new.rs\n@@ -1 +1 @@\n-a\n+b\n--- a/x\n+++ b/x\n@@ -0,0 +1 @@\n+y\n"
    );
    let parsed = parse_unified_diff(&text);
    assert!(parsed.contains_key("new.rs"));
    assert!(parsed.contains_key("x"));
    assert_eq!(parsed.get("new.rs").unwrap().len(), 2);
}

#[test]
fn the_remote_is_checked_before_any_token_source() {
    match connect_step("nonsense", &vec![]) {
        ConnectStep::Failed(GitLabError::ParseError(m)) => {
            assert_eq!(m, "unrecognised remote URL format: nonsense")
        }
        other => panic!("unexpected {other:?}"),
    }
    match connect_step("git@h:a/b", &vec![Some("T".into())]) {
        ConnectStep::Connected(c) => {
            assert_eq!(c.token(), "T");
            assert_eq!(c.list_merge_requests().url, "https://h/api/v4/projects/a%2Fb/merge_requests?state=opened&per_page=100");
        }
        other => panic!("unexpected {other:?}"),
    }
    assert!(matches!(connect_step("git@h:a/b", &vec![]), ConnectStep::Read(TokenSource::Environment)));
}

#[test]
fn discussions_are_asked_for_only_after_the_merge_request() {
    let c = GitLabClient::from_git_remote("git@h:a/b", "T".into()).unwrap();
    assert!(c.discussions_request_after(3, &None).is_none());
    let q = c.discussions_request_after(3, &Some(MergeRequestWithDiscussions::default())).unwrap();
    assert_eq!(q.method, HttpMethod::Get);
    assert_eq!(q.url, "https://h/api/v4/projects/a%2Fb/merge_requests/3/discussions?per_page=100");
    assert_eq!(q.token, "T");
}

#[test]
fn remote_url_forms_round_trip() {
    for url in [
        "git@gitlab.example.com:grp/sub/proj.git",
        "git@gitlab.example.com:grp/sub/proj",
        "ssh://git@gitlab.example.com/grp/sub/proj.git",
        "https://gitlab.example.com/grp/sub/proj.git",
        "https://gitlab.example.com/grp/sub/proj",
    ] {
        let (host, path) = parse_remote_url(url).unwrap();
        assert_eq!(host, "gitlab.example.com");
        assert_eq!(path, "grp/sub/proj");
    }
}

#[test]
fn slash_encoding_length_and_inverse() {
    let input = "grp/sub/my%2proj";
    let e = urlencoding_encode(input);
    assert_eq!(e, "grp%2Fsub%2Fmy%2proj");
    assert_eq!(e.len(), input.len() + 2 * input.matches('/').count());
    assert!(!e.contains('/'));
    assert_eq!(e.replace("%2F", "/"), input);
}

#[test]
fn rebuilt_diff_names_exactly_the_new_paths() {
    let c = GitLabClient::from_git_remote("git@h:a/b", "T".into()).unwrap();
    let changes = vec![
        FileChange { old_path: "old.rs".into(), new_path: "new.rs".into(), diff: "@@ -1 +1 @@\n-a\n+b\n".into() },
        FileChange { old_path: "gone.rs".into(), new_path: "kept.rs".into(), diff: String::new() },
    ];
    let parsed = parse_unified_diff(&c.get_merge_request_diff(Some(changes)).unwrap());
    assert!(parsed.contains_key("new.rs"));
    assert!(parsed.contains_key("kept.rs"));
    assert!(!parsed.contains_key("old.rs"));
    assert!(!parsed.contains_key("gone.rs"));
    // An added line that begins with "++ " reads back as a file header.
    let tricky = vec![FileChange { old_path: "x".into(), new_path: "x".into(), diff: "@@ -0,0 +1 @@\n+++ y\n".into() }];
    let parsed = parse_unified_diff(&c.get_merge_request_diff(Some(tricky)).unwrap());
    assert!(parsed.contains_key("y"));
}

#[test]
fn rebuilt_diff_keeps_each_files_body_lines() {
    let c = GitLabClient::from_git_remote("git@h:a/b", "T".into()).unwrap();
    let changes = vec![
        FileChange {
            old_path: "a.rs".into(),
            new_path: "a.rs".into(),
            diff: "@@ -1,2 +1,2 @@\n keep\n-old\n+new\n\\ No newline at end of file".into(),
        },
        FileChange { old_path: "b.rs".into(), new_path: "b.rs".into(), diff: "@@ -0,0 +1 @@\n+x\r".into() },
    ];
    let parsed = parse_unified_diff(&c.get_merge_request_diff(Some(changes)).unwrap());
    assert_eq!(parsed.get("a.rs").unwrap().len(), 3);
    assert_eq!(parsed.get("b.rs").unwrap().len(), 1);
    assert_eq!(parsed.get("b.rs").unwrap()[0].content, "x");
}

#[test]
fn resolve_failures_name_the_discussion() {
    assert_eq!(GitLabClient::resolve_result("abc", None), Ok(()));
    assert_eq!(
        GitLabClient::resolve_result("abc", Some("http 403".to_string())),
        Err("Failed to resolve discussion abc: http 403".to_string())
    );
}
