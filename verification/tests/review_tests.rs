use std::collections::HashSet;

use mimimi::diff::parse_unified_diff;
use mimimi::review::{flatten_discussions, resolve_popup_thread_list, Key, ListAction, ReviewState};
use mimimi::types::{AppState, Discussion, MergeRequestWithDiscussions, Note, NotePosition, User};

fn user(name: &str) -> User {
    let mut u = User::default();
    u.username = name.to_string();
    u
}

fn note(body: &str, system: bool, resolvable: bool, path: Option<(&str, usize)>) -> Note {
    Note {
        id: 1,
        note_type: None,
        body: body.to_string(),
        author: user("alice"),
        system,
        created_at: "2024-01-01".to_string(),
        updated_at: "2024-01-01".to_string(),
        resolvable,
        resolved: false,
        resolved_at: None,
        resolved_by: None,
        position: path.map(|(p, l)| NotePosition {
            base_sha: None,
            start_sha: None,
            head_sha: None,
            position_type: None,
            new_path: Some(p.to_string()),
            old_path: None,
            new_line: Some(l),
            old_line: None,
        }),
        internal: false,
        confidential: false,
        noteable_type: String::new(),
        noteable_iid: None,
    }
}

fn discussion(id: &str, notes: Vec<Note>) -> Discussion {
    Discussion { id: id.to_string(), individual_note: false, notes }
}

fn sample_mr() -> MergeRequestWithDiscussions {
    let mut mr = MergeRequestWithDiscussions::default();
    mr.iid = 12;
    mr.title = "Add feature".to_string();
    mr.discussions = vec![
        discussion("d1", vec![note("Please rename", false, true, Some(("src/a.rs", 2))), note("ok", false, true, None)]),
        discussion("sys", vec![note("requested review", true, false, None)]),
        discussion("d2", vec![note("General remark", false, false, None)]),
        discussion("d3", vec![note("assigned", true, false, None), note("Third", false, true, None)]),
    ];
    mr
}

fn opened() -> ReviewState {
    let mut s = ReviewState::new();
    let diff = parse_unified_diff("+++ b/src/a.rs\n@@ -1 +1 @@\n fn a() {}\n-let x;\n+let y;\n");
    s.open_merge_request(12, sample_mr(), diff);
    s
}

#[test]
fn flatten_keeps_threads_with_visible_notes() {
    let threads = flatten_discussions(&sample_mr().discussions);
    assert_eq!(threads.len(), 3);
    assert_eq!(threads[0].discussion_id, "d1");
    assert_eq!(threads[0].notes.len(), 2);
    assert_eq!(threads[0].file_path.as_deref(), Some("src/a.rs"));
    assert_eq!(threads[0].new_line, Some(2));
    assert_eq!(threads[0].notes[1].body, "ok");
    assert_eq!(threads[2].discussion_id, "d3");
    assert_eq!(threads[2].notes.len(), 1);
    assert_eq!(threads[2].notes[0].body, "Third");
    assert!(threads[2].resolvable);
}

#[test]
fn open_merge_request_starts_at_first_thread() {
    let s = opened();
    assert_eq!(s.app_state, AppState::CommentList);
    assert_eq!(s.merge_request_id, "12");
    assert_eq!(s.current, Some(0));
    assert!(s.selected.is_empty());
}

#[test]
fn open_merge_request_keeps_the_chosen_iid() {
    let mut s = ReviewState::new();
    s.open_merge_request(7, sample_mr(), parse_unified_diff(""));
    assert_eq!(s.merge_request_id, "7");
    assert_eq!(s.merge_request.iid, 12);
}

#[test]
fn wrapping_navigation_round_trip() {
    let mut s = opened();
    s.select_prev_comment_wrapping();
    assert_eq!(s.current, Some(2));
    s.select_next_comment_wrapping();
    assert_eq!(s.current, Some(0));
    s.select_next_comment_wrapping();
    s.select_next_comment_wrapping();
    s.select_next_comment_wrapping();
    assert_eq!(s.current, Some(0));
    let mut empty = ReviewState::new();
    empty.select_next_comment_wrapping();
    assert_eq!(empty.current, None);
}

#[test]
fn selection_toggles() {
    let mut s = opened();
    s.toggle_current_thread_selection();
    assert_eq!(s.selected, HashSet::from([0]));
    s.toggle_current_thread_selection();
    assert!(s.selected.is_empty());
    s.toggle_select_all_threads();
    assert_eq!(s.selected, HashSet::from([0, 1, 2]));
    s.toggle_select_all_threads();
    assert!(s.selected.is_empty());
}

#[test]
fn resolve_targets() {
    let mut s = opened();
    // Nothing selected: the current thread.
    assert_eq!(s.resolvable_selected_indices(), vec![0]);
    s.select_next_comment_wrapping();
    // Thread 1 is not resolvable.
    assert!(s.resolvable_selected_indices().is_empty());
    s.toggle_select_all_threads();
    assert_eq!(s.resolvable_selected_indices(), vec![0, 2]);
    assert_eq!(resolve_popup_thread_list(&vec![0, 2]), "#1, #3");
    assert_eq!(resolve_popup_thread_list(&vec![]), "");
    s.mark_threads_resolved(&vec![0, 2]);
    assert!(s.threads[0].resolved && !s.threads[1].resolved && s.threads[2].resolved);
    assert!(s.selected.is_empty());
    assert!(s.resolvable_selected_indices().is_empty());
}

#[test]
fn keys_in_each_view() {
    let mut s = ReviewState::new();
    assert_eq!(s.handle_key_event(Key::Char('j')), ListAction::SelectNext);
    assert_eq!(s.handle_key_event(Key::Up), ListAction::SelectPrevious);
    assert_eq!(s.handle_key_event(Key::Enter), ListAction::OpenSelected);
    assert_eq!(s.handle_key_event(Key::Char('x')), ListAction::Nothing);
    assert!(!s.exit);
    assert_eq!(s.handle_key_event(Key::Char('q')), ListAction::Nothing);
    assert!(s.exit);

    let mut s = opened();
    assert_eq!(s.handle_key_event(Key::Down), ListAction::Nothing);
    assert_eq!(s.current, Some(1));
    s.handle_key_event(Key::Char('k'));
    assert_eq!(s.current, Some(0));
    s.handle_key_event(Key::Char(' '));
    assert_eq!(s.selected, HashSet::from([0]));
    s.handle_key_event(Key::Char('a'));
    assert_eq!(s.selected, HashSet::from([0, 1, 2]));
    s.handle_key_event(Key::Enter);
    assert!(s.pending_send);
    s.handle_key_event(Key::Char('r'));
    assert_eq!(s.app_state, AppState::ConfirmResolve);
    s.handle_key_event(Key::Char('n'));
    assert_eq!(s.app_state, AppState::CommentList);
    assert!(!s.pending_resolve);
    s.handle_key_event(Key::Char('r'));
    s.handle_key_event(Key::Char('y'));
    assert_eq!(s.app_state, AppState::CommentList);
    assert!(s.pending_resolve);
    s.handle_key_event(Key::Esc);
    assert_eq!(s.app_state, AppState::MergeRequestList);
}

#[test]
fn resolve_key_needs_a_target() {
    let mut s = opened();
    s.select_next_comment_wrapping();
    s.handle_key_event(Key::Char('r'));
    assert_eq!(s.app_state, AppState::CommentList);
}

#[test]
fn prompt_with_code_context() {
    let s = opened();
    let p = s.build_prompt_for_current_comment().unwrap();
    let expected = "I'm reviewing merge request \"!12 Add feature\".\n\n\
MR Description:\nNo description provided.\n\n\
The following review comment was left on `src/a.rs` at line 2:\n\n\
Code context:\n```\n fn a() {}\n-let x;\n+let y;\n```\n\n\
Comment:\nPlease rename\n\n\
Think about this review comment carefully. Explain the pros and cons of the suggested change, \
and propose a concrete implementation plan. Do not make any changes -- only provide the plan.";
    assert_eq!(p, expected);
}

#[test]
fn prompt_for_general_comment() {
    let mut s = opened();
    s.merge_request.description = Some("Desc".to_string());
    s.select_next_comment_wrapping();
    let p = s.build_prompt_for_current_comment().unwrap();
    assert!(p.starts_with("I'm reviewing merge request \"!12 Add feature\".\n\nMR Description:\nDesc\n\n"));
    assert!(p.contains("The following general review comment was left on this merge request:\n\nComment:\nGeneral remark\n\n"));
    let empty = ReviewState::new();
    assert!(empty.build_prompt_for_current_comment().is_none());
}

#[test]
fn prompt_without_context_lines() {
    let mut mr = sample_mr();
    mr.discussions = vec![discussion("d", vec![note("Here", false, true, Some(("other.rs", 40)))])];
    let mut s = ReviewState::new();
    s.open_merge_request(mr.iid, mr.clone(), parse_unified_diff(""));
    let p = s.build_prompt_for_current_comment().unwrap();
    assert!(p.contains("The following review comment was left on `other.rs` at line 40:\n\nComment:\nHere"));
}

#[test]
fn prompt_covers_every_selected_thread() {
    let mut s = opened();
    // Select the first and the third thread; the second stays out.
    s.toggle_current_thread_selection();
    s.select_next_comment_wrapping();
    s.select_next_comment_wrapping();
    s.toggle_current_thread_selection();
    let p = s.build_prompt_for_current_comment().unwrap();
    let expected = "I'm reviewing merge request \"!12 Add feature\".\n\n\
MR Description:\nNo description provided.\n\n\
The following review comment was left on `src/a.rs` at line 2:\n\n\
Code context:\n```\n fn a() {}\n-let x;\n+let y;\n```\n\n\
Comment:\nPlease rename\n\n\
The following general review comment was left on this merge request:\n\n\
Comment:\nThird\n\n\
Think about these review comments carefully. Explain the pros and cons of each suggested change, \
and propose a concrete implementation plan. Do not make any changes -- only provide the plan.";
    assert_eq!(p, expected);
    assert!(!p.contains("General remark"));
}

#[test]
fn prompt_of_a_single_selected_thread_ignores_the_focus() {
    let mut s = opened();
    s.select_next_comment_wrapping();
    s.select_next_comment_wrapping();
    s.toggle_current_thread_selection();
    s.select_next_comment_wrapping();
    // The focus is back on the first thread; only the third is selected.
    assert_eq!(s.current, Some(0));
    let p = s.build_prompt_for_current_comment().unwrap();
    assert!(p.contains("Comment:\nThird\n\nThink about this review comment carefully."));
    assert!(!p.contains("Please rename"));
}
