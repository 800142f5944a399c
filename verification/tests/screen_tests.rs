use mimimi::diff::parse_unified_diff;
use mimimi::review::{FlatNote, FlatThread, ReviewState};
use mimimi::screen::{
    code_context, gutter_label, kept_indicators, resolve_status, status_bar, thread_body_lines, Tone,
};
use mimimi::types::{AppState, Discussion, MergeRequestWithDiscussions, Note, NotePosition, User};

fn texts(v: &[mimimi::screen::Segment]) -> Vec<String> {
    v.iter().map(|s| s.text.clone()).collect()
}

fn flat(author: &str, body: &str) -> FlatNote {
    FlatNote {
        author_username: author.into(),
        created_at: "t0".into(),
        body: body.into(),
        file_path: None,
        new_line: None,
    }
}

#[test]
fn status_bar_on_merge_request_list() {
    let s = ReviewState::new();
    let (left, right) = status_bar(&s, 3, false, None);
    assert_eq!(texts(&left), vec![" Merge Requests", "  3 items"]);
    assert_eq!(left[0].tone, Tone::Accent);
    assert_eq!(texts(&right), vec!["[q] quit", "  ", "[enter] select", "  ", "[j/k] navigate"]);
    assert_eq!(right[0].tone, Tone::Hint);
}

#[test]
fn status_bar_in_comment_view() {
    let mut s = ReviewState::new();
    let mut mr = MergeRequestWithDiscussions::default();
    mr.iid = 5;
    let n = Note {
        id: 1, note_type: None, body: "b".into(), author: User::default(), system: false,
        created_at: String::new(), updated_at: String::new(), resolvable: true, resolved: false,
        resolved_at: None, resolved_by: None, position: None, internal: false,
        confidential: false, noteable_type: String::new(), noteable_iid: None,
    };
    mr.discussions = vec![
        Discussion { id: "a".into(), individual_note: false, notes: vec![n.clone()] },
        Discussion { id: "b".into(), individual_note: false, notes: vec![n] },
    ];
    s.open_merge_request(mr.iid, mr.clone(), parse_unified_diff(""));
    let (left, right) = status_bar(&s, 0, false, None);
    assert_eq!(texts(&left), vec![" MR !5", "  1/2", ""]);
    assert_eq!(right.len(), 11);
    s.toggle_select_all_threads();
    let (left, _) = status_bar(&s, 0, false, None);
    assert_eq!(texts(&left), vec![" MR !5", "  1/2", "  [2 selected]"]);
    assert_eq!(left[2].tone, Tone::Warning);
    let (left, _) = status_bar(&s, 0, true, None);
    assert_eq!(texts(&left), vec![" Sent to OpenCode ", "  1/2"]);
    let (left, _) = status_bar(&s, 0, true, Some("Resolved 2 threads"));
    assert_eq!(texts(&left), vec![" Resolved 2 threads"]);
    s.app_state = AppState::ConfirmResolve;
    let (left, right) = status_bar(&s, 0, false, None);
    assert_eq!(texts(&left), vec![" Confirm resolve"]);
    assert_eq!(texts(&right), vec!["[y/enter] confirm", "  ", "[n/esc] cancel"]);
    s.app_state = AppState::Exiting;
    let (left, _) = status_bar(&s, 0, false, None);
    assert_eq!(left[0].tone, Tone::Danger);
}

#[test]
fn thread_body_layout() {
    let t = FlatThread {
        discussion_id: "d".into(),
        notes: vec![flat("alice", "first\nsecond"), flat("bob", "reply")],
        resolvable: true,
        resolved: true,
        file_path: None,
        new_line: None,
    };
    let lines = thread_body_lines(&t, true);
    let shown: Vec<Vec<String>> = lines.iter().map(|l| texts(l)).collect();
    let expected: Vec<Vec<&str>> = vec![
        vec!["[x] ", "RESOLVED ", "1 replies"],
        vec![],
        vec!["", "alice", "  ", "t0"],
        vec![],
        vec!["first"],
        vec!["second"],
        vec![],
        vec!["  ┄┄┄"],
        vec![],
        vec!["  ", "bob", "  ", "t0"],
        vec![],
        vec!["  reply"],
        vec![],
    ];
    assert_eq!(shown, expected);
    let plain = FlatThread { notes: vec![flat("a", "")], resolved: false, ..t };
    let lines = thread_body_lines(&plain, false);
    assert_eq!(texts(&lines[0]), vec!["[ ] "]);
    assert_eq!(lines[0][0].tone, Tone::MutedBold);
    assert_eq!(lines.len(), 5);
}

#[test]
fn code_context_of_current_thread() {
    let mut s = ReviewState::new();
    let mut mr = MergeRequestWithDiscussions::default();
    let mut n = Note {
        id: 1, note_type: None, body: "b".into(), author: User::default(), system: false,
        created_at: String::new(), updated_at: String::new(), resolvable: false, resolved: false,
        resolved_at: None, resolved_by: None, position: None, internal: false,
        confidential: false, noteable_type: String::new(), noteable_iid: None,
    };
    n.position = Some(NotePosition {
        base_sha: None, start_sha: None, head_sha: None, position_type: None,
        new_path: Some("m.rs".into()), old_path: None, new_line: Some(2), old_line: None,
    });
    mr.discussions = vec![Discussion { id: "a".into(), individual_note: false, notes: vec![n] }];
    s.open_merge_request(mr.iid, mr.clone(), parse_unified_diff("+++ b/m.rs\n@@ -1 +1 @@\n+a\n+b\n"));
    let (label, lines) = code_context(&s).unwrap();
    assert_eq!(label, " m.rs:2 ");
    assert_eq!(lines.len(), 2);
    s.parsed_diff = parse_unified_diff("");
    assert!(code_context(&s).is_none());
}

#[test]
fn gutter_labels() {
    assert_eq!(gutter_label(Some(7), Some(3)), "   7 ");
    assert_eq!(gutter_label(None, Some(123)), " 123 ");
    assert_eq!(gutter_label(Some(123456), None), "123456 ");
    assert_eq!(gutter_label(None, None), "     ");
}

#[test]
fn indicators_expire_on_the_comment_view_only() {
    assert_eq!(kept_indicators(AppState::CommentList, Some(1), Some(4)), (true, true));
    assert_eq!(kept_indicators(AppState::CommentList, Some(2), Some(5)), (false, false));
    assert_eq!(kept_indicators(AppState::MergeRequestList, Some(30), Some(30)), (true, true));
    assert_eq!(kept_indicators(AppState::ConfirmResolve, None, Some(9)), (false, true));
}

#[test]
fn resolve_status_text() {
    assert_eq!(resolve_status(2, None), "Resolved 2 thread(s)");
    assert_eq!(resolve_status(1, Some("Failed to resolve discussion d: x".to_string())), "Failed to resolve discussion d: x");
}
