//! The review session: the threads of the open merge request, which of them
//! are selected, what a key press does, and the prompt sent to OpenCode.

use std::collections::HashSet;

use vstd::prelude::*;
use vstd::string::StringExecFns;

use crate::diff::{
    extract_context, kind_marker, line_views, spec_extract_context,
    DiffLine, DiffLineView, ParsedDiff,
};
use crate::text::{decimal, push_decimal};
use crate::types::{AppState, Discussion, MergeRequestWithDiscussions, Note};

verus! {

broadcast use vstd::std_specs::hash::group_hash_axioms;

/// A flattened note with pre-extracted position info for rendering.
#[derive(Debug, Clone)]
pub struct FlatNote {
    pub author_username: String,
    pub created_at: String,
    pub body: String,
    pub file_path: Option<String>,
    pub new_line: Option<usize>,
}

/// A discussion thread as the comment view shows it: its non-system notes,
/// root comment first, and where the root comment was left.
#[derive(Debug, Clone)]
pub struct FlatThread {
    pub discussion_id: String,
    pub notes: Vec<FlatNote>,
    pub resolvable: bool,
    pub resolved: bool,
    pub file_path: Option<String>,
    pub new_line: Option<usize>,
}

/// The file of the new revision that a note was left on.
pub open spec fn note_file_path(n: Note) -> Option<String> {
    match n.position {
        Some(p) => p.new_path,
        None => None,
    }
}

/// The line of the new revision that a note was left on.
pub open spec fn note_new_line(n: Note) -> Option<usize> {
    match n.position {
        Some(p) => p.new_line,
        None => None,
    }
}

/// `f` is the flattened form of `n`.
pub open spec fn flat_note_of(f: FlatNote, n: Note) -> bool {
    &&& f.author_username@ == n.author.username@
    &&& f.created_at@ == n.created_at@
    &&& f.body@ == n.body@
    &&& f.file_path == note_file_path(n)
    &&& f.new_line == note_new_line(n)
}

/// The notes that are not system events, in order.
pub open spec fn visible_notes(ns: Seq<Note>) -> Seq<Note>
    decreases ns.len(),
{
    if ns.len() == 0 {
        Seq::<Note>::empty()
    } else if ns.last().system {
        visible_notes(ns.drop_last())
    } else {
        visible_notes(ns.drop_last()).push(ns.last())
    }
}

/// `t` is the thread of the discussion `d`.
pub open spec fn thread_of(t: FlatThread, d: Discussion) -> bool {
    let vis = visible_notes(d.notes@);
    &&& vis.len() > 0
    &&& t.discussion_id@ == d.id@
    &&& t.notes@.len() == vis.len()
    &&& forall|k: int| 0 <= k < vis.len() ==> flat_note_of(#[trigger] t.notes@[k], vis[k])
    &&& t.resolvable == vis[0].resolvable
    &&& t.resolved == vis[0].resolved
    &&& t.file_path == note_file_path(vis[0])
    &&& t.new_line == note_new_line(vis[0])
}

/// The discussions that have a note which is not a system event, in order.
pub open spec fn threaded(ds: Seq<Discussion>) -> Seq<Discussion>
    decreases ds.len(),
{
    if ds.len() == 0 {
        Seq::<Discussion>::empty()
    } else if visible_notes(ds.last().notes@).len() == 0 {
        threaded(ds.drop_last())
    } else {
        threaded(ds.drop_last()).push(ds.last())
    }
}

fn clone_text(o: &Option<String>) -> (r: Option<String>)
    ensures
        r == *o,
{
    match o {
        Some(s) => Some(s.clone()),
        None => None,
    }
}

fn flatten_note(n: &Note) -> (f: FlatNote)
    ensures
        flat_note_of(f, *n),
{
    let (file_path, new_line) = match &n.position {
        Some(pos) => (clone_text(&pos.new_path), pos.new_line),
        None => (None, None),
    };
    FlatNote {
        author_username: n.author.username.clone(),
        created_at: n.created_at.clone(),
        body: n.body.clone(),
        file_path,
        new_line,
    }
}

fn flatten_discussion(d: &Discussion) -> (r: Option<FlatThread>)
    ensures
        match r {
            Some(t) => thread_of(t, *d),
            None => visible_notes(d.notes@).len() == 0,
        },
{
    let mut notes: Vec<FlatNote> = Vec::new();
    let mut i: usize = 0;
    let mut first: Option<usize> = None;
    proof {
        assert(d.notes@.take(0) =~= Seq::<Note>::empty());
    }
    while i < d.notes.len()
        invariant
            i <= d.notes@.len(),
            notes@.len() == visible_notes(d.notes@.take(i as int)).len(),
            forall|k: int|
                0 <= k < notes@.len() ==> flat_note_of(
                    #[trigger] notes@[k],
                    visible_notes(d.notes@.take(i as int))[k],
                ),
            match first {
                Some(j) => j < i && notes@.len() > 0 && d.notes@[j as int] == visible_notes(
                    d.notes@.take(i as int),
                )[0],
                None => notes@.len() == 0,
            },
        decreases d.notes@.len() - i,
    {
        let ghost before = visible_notes(d.notes@.take(i as int));
        proof {
            assert(d.notes@.take(i + 1).drop_last() =~= d.notes@.take(i as int));
            assert(d.notes@.take(i + 1).last() == d.notes@[i as int]);
        }
        if !d.notes[i].system {
            let f = flatten_note(&d.notes[i]);
            notes.push(f);
            if first.is_none() {
                first = Some(i);
            }
            proof {
                let after = visible_notes(d.notes@.take(i + 1));
                assert(after == before.push(d.notes@[i as int]));
                assert forall|k: int| 0 <= k < notes@.len() implies flat_note_of(
                    #[trigger] notes@[k],
                    after[k],
                ) by {
                    if k < before.len() {
                        assert(after[k] == before[k]);
                    }
                }
            }
        }
        i = i + 1;
    }
    proof {
        assert(d.notes@.take(d.notes@.len() as int) =~= d.notes@);
    }
    match first {
        None => None,
        Some(j) => {
            let root = &d.notes[j];
            Some(
                FlatThread {
                    discussion_id: d.id.clone(),
                    notes,
                    resolvable: root.resolvable,
                    resolved: root.resolved,
                    file_path: clone_text(match &root.position {
                        Some(pos) => &pos.new_path,
                        None => &None,
                    }),
                    new_line: match &root.position {
                        Some(pos) => pos.new_line,
                        None => None,
                    },
                },
            )
        },
    }
}

/// The threads of the discussions: one for each discussion that has a note
/// which is not a system event, in order.
pub fn flatten_discussions(ds: &Vec<Discussion>) -> (r: Vec<FlatThread>)
    ensures
        r@.len() == threaded(ds@).len(),
        forall|k: int| 0 <= k < r@.len() ==> thread_of(#[trigger] r@[k], threaded(ds@)[k]),
{
    let mut r: Vec<FlatThread> = Vec::new();
    let mut i: usize = 0;
    proof {
        assert(ds@.take(0) =~= Seq::<Discussion>::empty());
    }
    while i < ds.len()
        invariant
            i <= ds@.len(),
            r@.len() == threaded(ds@.take(i as int)).len(),
            forall|k: int| 0 <= k < r@.len() ==> thread_of(#[trigger] r@[k], threaded(ds@.take(i as int))[k]),
        decreases ds@.len() - i,
    {
        let ghost before = threaded(ds@.take(i as int));
        proof {
            assert(ds@.take(i + 1).drop_last() =~= ds@.take(i as int));
            assert(ds@.take(i + 1).last() == ds@[i as int]);
        }
        match flatten_discussion(&ds[i]) {
            Some(t) => {
                r.push(t);
                proof {
                    let after = threaded(ds@.take(i + 1));
                    assert(after == before.push(ds@[i as int]));
                    assert forall|k: int| 0 <= k < r@.len() implies thread_of(#[trigger] r@[k], after[k]) by {
                        if k < before.len() {
                            assert(after[k] == before[k]);
                        }
                    }
                }
            },
            None => {},
        }
        i = i + 1;
    }
    proof {
        assert(ds@.take(ds@.len() as int) =~= ds@);
    }
    r
}


// ---------------------------------------------------------------------------
// The session state
// ---------------------------------------------------------------------------

/// A key press, as the review session distinguishes keys.
#[derive(Debug, Clone, Copy, PartialEq, Eq, Structural)]
pub enum Key {
    Char(char),
    Up,
    Down,
    Enter,
    Esc,
    Other,
}

/// What the merge request list has to do after a key press; the list widget
/// keeps its own selection.
#[derive(Debug, Clone, Copy, PartialEq, Eq, Structural)]
pub enum ListAction {
    Nothing,
    SelectPrevious,
    SelectNext,
    OpenSelected,
}

/// The state of a review session.
#[derive(Debug)]
pub struct ReviewState {
    pub app_state: AppState,
    /// The IID of the open merge request, in decimal.
    pub merge_request_id: String,
    pub merge_request: MergeRequestWithDiscussions,
    /// Parsed diff of the open merge request.
    pub parsed_diff: ParsedDiff,
    /// The threads of the open merge request.
    pub threads: Vec<FlatThread>,
    /// The indices of the selected threads.
    pub selected: HashSet<usize>,
    /// The thread shown in the comment view.
    pub current: Option<usize>,
    /// Set by a key press to request a send on the next main-loop tick.
    pub pending_send: bool,
    /// Set by a confirmed resolve to request it on the next main-loop tick.
    pub pending_resolve: bool,
    pub exit: bool,
}

/// The parts of a session that key presses change.
pub struct SessionFlags {
    pub app_state: AppState,
    pub selected: Seq<bool>,
    pub current: Option<usize>,
    pub pending_send: bool,
    pub pending_resolve: bool,
    pub exit: bool,
}

/// The next thread, wrapping from the last to the first.
pub open spec fn next_index(cur: Option<usize>, len: nat) -> Option<usize> {
    if len == 0 {
        cur
    } else {
        let c = match cur {
            Some(c) => c as int,
            None => 0,
        };
        Some(
            if c + 1 >= len {
                0
            } else {
                (c + 1) as usize
            },
        )
    }
}

/// The previous thread, wrapping from the first to the last.
pub open spec fn prev_index(cur: Option<usize>, len: nat) -> Option<usize> {
    if len == 0 {
        cur
    } else {
        let c = match cur {
            Some(c) => c as int,
            None => 0,
        };
        Some(
            if c == 0 {
                (len - 1) as usize
            } else {
                (c - 1) as usize
            },
        )
    }
}

/// Every thread is selected.
pub open spec fn all_selected(sel: Seq<bool>) -> bool {
    forall|k: int| 0 <= k < sel.len() ==> sel[k]
}

/// Some thread is selected.
pub open spec fn any_selected(sel: Seq<bool>) -> bool {
    exists|k: int| 0 <= k < sel.len() && sel[k]
}

/// The selection after "select all / deselect all".
pub open spec fn toggle_all(sel: Seq<bool>) -> Seq<bool> {
    if all_selected(sel) {
        Seq::new(sel.len(), |k: int| false)
    } else {
        Seq::new(sel.len(), |k: int| true)
    }
}

/// The selection after toggling the current thread.
pub open spec fn toggle_current(sel: Seq<bool>, cur: Option<usize>) -> Seq<bool> {
    match cur {
        Some(i) => sel.update(i as int, !sel[i as int]),
        None => sel,
    }
}

impl ReviewState {
    /// Thread `k` is selected, for each thread.
    pub open spec fn sel(&self) -> Seq<bool> {
        Seq::new(self.threads@.len(), |k: int| self.selected@.contains(k as usize))
    }

    /// The selection names threads only and the current thread exists.
    pub open spec fn wf(&self) -> bool {
        &&& forall|k: usize| #[trigger] self.selected@.contains(k) ==> k < self.threads@.len()
        &&& self.current matches Some(i) ==> i < self.threads@.len()
    }

    pub open spec fn flags(&self) -> SessionFlags {
        SessionFlags {
            app_state: self.app_state,
            selected: self.sel(),
            current: self.current,
            pending_send: self.pending_send,
            pending_resolve: self.pending_resolve,
            exit: self.exit,
        }
    }

    /// `self` and `other` show the same merge request, diff and threads.
    pub open spec fn same_content(&self, other: &ReviewState) -> bool {
        &&& self.merge_request_id == other.merge_request_id
        &&& self.merge_request == other.merge_request
        &&& self.parsed_diff == other.parsed_diff
        &&& self.threads == other.threads
    }

    /// Thread `i` is what "resolve" and "send" act on: a selected thread, or
    /// the current one when none is selected.
    pub open spec fn is_target(&self, i: int) -> bool {
        if any_selected(self.sel()) {
            self.sel()[i]
        } else {
            self.current matches Some(c) && c == i
        }
    }

    /// Thread `i` is a target that can be resolved and is not yet resolved.
    pub open spec fn resolve_target(&self, i: int) -> bool {
        &&& 0 <= i < self.threads@.len()
        &&& self.is_target(i)
        &&& self.threads@[i].resolvable
        &&& !self.threads@[i].resolved
    }

    pub open spec fn has_resolve_target(&self) -> bool {
        exists|i: int| self.resolve_target(i)
    }

    /// A session on the merge request list, with no merge request open.
    pub fn new() -> (r: ReviewState)
        ensures
            r.wf(),
            r.app_state == AppState::MergeRequestList,
            r.merge_request_id@.len() == 0,
            r.merge_request.iid == 0 && r.merge_request.discussions@.len() == 0,
            r.parsed_diff@ == Map::<Seq<char>, Seq<DiffLineView>>::empty(),
            r.threads@.len() == 0,
            r.selected@ == Set::<usize>::empty(),
            r.current is None,
            !r.pending_send && !r.pending_resolve && !r.exit,
    {
        ReviewState {
            app_state: AppState::MergeRequestList,
            merge_request_id: String::new(),
            merge_request: MergeRequestWithDiscussions::default(),
            parsed_diff: ParsedDiff::new(),
            threads: Vec::new(),
            selected: HashSet::new(),
            current: None,
            pending_send: false,
            pending_resolve: false,
            exit: false,
        }
    }

    /// Opens the merge request that was chosen as `selected_iid` in the
    /// comment view: its threads, none selected, the first one current.
    pub fn open_merge_request(
        &mut self,
        selected_iid: u64,
        mr: MergeRequestWithDiscussions,
        parsed_diff: ParsedDiff,
    )
        ensures
            final(self).wf(),
            final(self).merge_request_id@ == decimal(selected_iid as nat),
            final(self).merge_request == mr,
            final(self).parsed_diff == parsed_diff,
            final(self).threads@.len() == threaded(mr.discussions@).len(),
            forall|k: int|
                0 <= k < final(self).threads@.len() ==> thread_of(
                    #[trigger] final(self).threads@[k],
                    threaded(mr.discussions@)[k],
                ),
            final(self).selected@ == Set::<usize>::empty(),
            final(self).current == if final(self).threads@.len() > 0 {
                Some(0usize)
            } else {
                None
            },
            final(self).app_state == AppState::CommentList,
            final(self).pending_send == old(self).pending_send,
            final(self).pending_resolve == old(self).pending_resolve,
            final(self).exit == old(self).exit,
    {
        let mut id = String::new();
        push_decimal(&mut id, selected_iid);
        let threads = flatten_discussions(&mr.discussions);
        self.current = if threads.len() > 0 {
            Some(0)
        } else {
            None
        };
        self.merge_request_id = id;
        self.merge_request = mr;
        self.parsed_diff = parsed_diff;
        self.threads = threads;
        self.selected = HashSet::new();
        self.app_state = AppState::CommentList;
    }

    /// Moves to the next thread, from the last one to the first.
    pub fn select_next_comment_wrapping(&mut self)
        requires
            old(self).wf(),
        ensures
            final(self).wf(),
            final(self).same_content(old(self)),
            final(self).flags() == (SessionFlags {
                current: next_index(old(self).current, old(self).threads@.len()),
                ..old(self).flags()
            }),
    {
        let len = self.threads.len();
        if len == 0 {
            return;
        }
        let current = match self.current {
            Some(c) => c,
            None => 0,
        };
        let next = if current + 1 >= len {
            0
        } else {
            current + 1
        };
        self.current = Some(next);
    }

    /// Moves to the previous thread, from the first one to the last.
    pub fn select_prev_comment_wrapping(&mut self)
        requires
            old(self).wf(),
        ensures
            final(self).wf(),
            final(self).same_content(old(self)),
            final(self).flags() == (SessionFlags {
                current: prev_index(old(self).current, old(self).threads@.len()),
                ..old(self).flags()
            }),
    {
        let len = self.threads.len();
        if len == 0 {
            return;
        }
        let current = match self.current {
            Some(c) => c,
            None => 0,
        };
        let prev = if current == 0 {
            len - 1
        } else {
            current - 1
        };
        self.current = Some(prev);
    }

    /// Selects the current thread, or deselects it if it was selected.
    pub fn toggle_current_thread_selection(&mut self)
        requires
            old(self).wf(),
        ensures
            final(self).wf(),
            final(self).same_content(old(self)),
            final(self).flags() == (SessionFlags {
                selected: toggle_current(old(self).sel(), old(self).current),
                ..old(self).flags()
            }),
    {
        if let Some(idx) = self.current {
            let ghost before = self.sel();
            let ghost old_set = self.selected@;
            let was = self.selected.remove(&idx);
            if !was {
                self.selected.insert(idx);
            }
            let n = self.threads.len();
            proof {
                assert(before.len() == n);
                assert(was == old_set.contains(idx));
                if was {
                    assert(self.selected@ == old_set.remove(idx));
                } else {
                    assert(self.selected@ == old_set.insert(idx));
                }
                assert forall|k: int| 0 <= k < before.len() implies #[trigger] self.sel()[k] == before.update(
                    idx as int,
                    !before[idx as int],
                )[k] by {
                    if k == idx as int {
                        assert(k as usize == idx);
                    } else {
                        assert(k as usize != idx);
                    }
                }
                assert(self.sel() =~= before.update(idx as int, !before[idx as int]));
            }
        }
    }

    /// Selects every thread, or none if all were selected.
    pub fn toggle_select_all_threads(&mut self)
        requires
            old(self).wf(),
        ensures
            final(self).wf(),
            final(self).same_content(old(self)),
            final(self).flags() == (SessionFlags {
                selected: toggle_all(old(self).sel()),
                ..old(self).flags()
            }),
    {
        let len = self.threads.len();
        let ghost before = self.sel();
        let mut all = true;
        let mut i: usize = 0;
        while i < len
            invariant
                len == self.threads@.len(),
                before == self.sel(),
                i <= len,
                all == (forall|k: int| 0 <= k < i ==> before[k]),
            decreases len - i,
        {
            proof {
                assert(before[i as int] == self.selected@.contains(i));
            }
            if !self.selected.contains(&i) {
                all = false;
            }
            i = i + 1;
        }
        let mut set: HashSet<usize> = HashSet::new();
        if !all {
            let mut j: usize = 0;
            while j < len
                invariant
                    j <= len,
                    forall|k: usize| #[trigger] set@.contains(k) <==> k < j,
                decreases len - j,
            {
                set.insert(j);
                j = j + 1;
            }
        }
        self.selected = set;
        proof {
            assert(all == all_selected(before));
            assert(self.sel() =~= toggle_all(before));
        }
    }
}


/// What a key press does to the flags of a session, and what the merge
/// request list has to do.
pub open spec fn key_effect(s: ReviewState, key: Key) -> (SessionFlags, ListAction) {
    let f = s.flags();
    match s.app_state {
        AppState::ConfirmResolve => match key {
            Key::Char('y') | Key::Enter => (
                SessionFlags { app_state: AppState::CommentList, pending_resolve: true, ..f },
                ListAction::Nothing,
            ),
            Key::Char('n') | Key::Esc => (
                SessionFlags { app_state: AppState::CommentList, ..f },
                ListAction::Nothing,
            ),
            _ => (f, ListAction::Nothing),
        },
        AppState::CommentList => match key {
            Key::Esc | Key::Char('q') => (
                SessionFlags { app_state: AppState::MergeRequestList, ..f },
                ListAction::Nothing,
            ),
            Key::Up | Key::Char('k') => (
                SessionFlags { current: prev_index(s.current, s.threads@.len()), ..f },
                ListAction::Nothing,
            ),
            Key::Down | Key::Char('j') => (
                SessionFlags { current: next_index(s.current, s.threads@.len()), ..f },
                ListAction::Nothing,
            ),
            Key::Char(' ') => (
                SessionFlags { selected: toggle_current(s.sel(), s.current), ..f },
                ListAction::Nothing,
            ),
            Key::Char('a') => (
                SessionFlags { selected: toggle_all(s.sel()), ..f },
                ListAction::Nothing,
            ),
            Key::Char('r') => (
                if s.has_resolve_target() {
                    SessionFlags { app_state: AppState::ConfirmResolve, ..f }
                } else {
                    f
                },
                ListAction::Nothing,
            ),
            Key::Enter => (SessionFlags { pending_send: true, ..f }, ListAction::Nothing),
            _ => (f, ListAction::Nothing),
        },
        _ => match key {
            Key::Esc | Key::Char('q') => (SessionFlags { exit: true, ..f }, ListAction::Nothing),
            Key::Up | Key::Char('k') => (f, ListAction::SelectPrevious),
            Key::Down | Key::Char('j') => (f, ListAction::SelectNext),
            Key::Enter => (f, ListAction::OpenSelected),
            _ => (f, ListAction::Nothing),
        },
    }
}

impl ReviewState {
    /// The threads that "resolve" acts on and that can still be resolved, in
    /// increasing order: the selected ones, or the current one when none is
    /// selected.
    pub fn resolvable_selected_indices(&self) -> (r: Vec<usize>)
        requires
            self.wf(),
        ensures
            forall|a: int, b: int| 0 <= a < b < r@.len() ==> r@[a] < r@[b],
            forall|k: int| 0 <= k < r@.len() ==> self.resolve_target(#[trigger] r@[k] as int),
            forall|i: int| #[trigger] self.resolve_target(i) ==> r@.contains(i as usize),
    {
        let len = self.threads.len();
        let mut any = false;
        let mut i: usize = 0;
        while i < len
            invariant
                len == self.threads@.len(),
                self.wf(),
                i <= len,
                any == (exists|k: int| 0 <= k < i && self.sel()[k]),
            decreases len - i,
        {
            proof {
                assert(self.sel()[i as int] == self.selected@.contains(i));
            }
            if self.selected.contains(&i) {
                any = true;
            }
            i = i + 1;
        }
        let mut r: Vec<usize> = Vec::new();
        let mut j: usize = 0;
        while j < len
            invariant
                len == self.threads@.len(),
                self.wf(),
                j <= len,
                any == any_selected(self.sel()),
                forall|a: int, b: int| 0 <= a < b < r@.len() ==> r@[a] < r@[b],
                forall|k: int| 0 <= k < r@.len() ==> r@[k] < j && self.resolve_target(#[trigger] r@[k] as int),
                forall|k: int| 0 <= k < j && #[trigger] self.resolve_target(k) ==> r@.contains(k as usize),
            decreases len - j,
        {
            let target = if any {
                self.selected.contains(&j)
            } else {
                self.current == Some(j)
            };
            if target && self.threads[j].resolvable && !self.threads[j].resolved {
                let ghost before = r@;
                r.push(j);
                proof {
                    assert(r@[r@.len() - 1] == j);
                    assert forall|k: int| 0 <= k < j + 1 && #[trigger] self.resolve_target(k) implies r@.contains(k as usize) by {
                        if k < j {
                            let w = choose|w: int| 0 <= w < before.len() && before[w] == k as usize;
                            assert(r@[w] == k as usize);
                        }
                    }
                }
            }
            j = j + 1;
        }
        r
    }

    /// Handles a key press: changes the session flags as [`key_effect`]
    /// says and returns what the merge request list has to do.
    pub fn handle_key_event(&mut self, key: Key) -> (r: ListAction)
        requires
            old(self).wf(),
        ensures
            final(self).wf(),
            final(self).same_content(old(self)),
            (final(self).flags(), r) == key_effect(*old(self), key),
    {
        match self.app_state {
            AppState::ConfirmResolve => match key {
                Key::Char('y') | Key::Enter => {
                    self.app_state = AppState::CommentList;
                    self.pending_resolve = true;
                },
                Key::Char('n') | Key::Esc => {
                    self.app_state = AppState::CommentList;
                },
                _ => {},
            },
            AppState::CommentList => match key {
                Key::Esc | Key::Char('q') => {
                    self.app_state = AppState::MergeRequestList;
                },
                Key::Up | Key::Char('k') => self.select_prev_comment_wrapping(),
                Key::Down | Key::Char('j') => self.select_next_comment_wrapping(),
                Key::Char(' ') => self.toggle_current_thread_selection(),
                Key::Char('a') => self.toggle_select_all_threads(),
                Key::Char('r') => {
                    let targets = self.resolvable_selected_indices();
                    if targets.len() > 0 {
                        proof {
                            assert(self.resolve_target(targets@[0] as int));
                        }
                        self.app_state = AppState::ConfirmResolve;
                    } else {
                        proof {
                            if self.has_resolve_target() {
                                let i = choose|i: int| self.resolve_target(i);
                                assert(targets@.contains(i as usize));
                            }
                        }
                    }
                },
                Key::Enter => self.pending_send = true,
                _ => {},
            },
            _ => match key {
                Key::Esc | Key::Char('q') => self.exit = true,
                Key::Up | Key::Char('k') => return ListAction::SelectPrevious,
                Key::Down | Key::Char('j') => return ListAction::SelectNext,
                Key::Enter => return ListAction::OpenSelected,
                _ => {},
            },
        }
        ListAction::Nothing
    }

    /// Marks the given threads resolved and clears the selection.
    pub fn mark_threads_resolved(&mut self, indices: &Vec<usize>)
        requires
            old(self).wf(),
        ensures
            final(self).wf(),
            final(self).threads@.len() == old(self).threads@.len(),
            forall|k: int|
                0 <= k < old(self).threads@.len() ==> #[trigger] final(self).threads@[k] == (
                FlatThread {
                    resolved: old(self).threads@[k].resolved || indices@.contains(k as usize),
                    ..old(self).threads@[k]
                }),
            final(self).selected@ == Set::<usize>::empty(),
            final(self).app_state == old(self).app_state,
            final(self).current == old(self).current,
            final(self).merge_request_id == old(self).merge_request_id,
            final(self).merge_request == old(self).merge_request,
            final(self).parsed_diff == old(self).parsed_diff,
            final(self).pending_send == old(self).pending_send,
            final(self).pending_resolve == old(self).pending_resolve,
            final(self).exit == old(self).exit,
    {
        let mut j: usize = 0;
        while j < indices.len()
            invariant
                j <= indices@.len(),
                self.wf(),
                self.threads@.len() == old(self).threads@.len(),
                self.selected@ == old(self).selected@,
                self.app_state == old(self).app_state,
                self.current == old(self).current,
                self.merge_request_id == old(self).merge_request_id,
                self.merge_request == old(self).merge_request,
                self.parsed_diff == old(self).parsed_diff,
                self.pending_send == old(self).pending_send,
                self.pending_resolve == old(self).pending_resolve,
                self.exit == old(self).exit,
                forall|k: int|
                    0 <= k < old(self).threads@.len() ==> #[trigger] self.threads@[k] == (FlatThread {
                        resolved: old(self).threads@[k].resolved || listed_before(indices@, j as int, k),
                        ..old(self).threads@[k]
                    }),
            decreases indices@.len() - j,
        {
            let i = indices[j];
            let ghost before = self.threads@;
            if i < self.threads.len() {
                self.threads[i].resolved = true;
            }
            proof {
                assert forall|k: int| 0 <= k < old(self).threads@.len() implies #[trigger] self.threads@[k]
                    == (FlatThread {
                    resolved: old(self).threads@[k].resolved || listed_before(indices@, j + 1, k),
                    ..old(self).threads@[k]
                }) by {
                    assert(before[k] == (FlatThread {
                        resolved: old(self).threads@[k].resolved || listed_before(indices@, j as int, k),
                        ..old(self).threads@[k]
                    }));
                    if k == i {
                        assert(indices@[j as int] == k);
                    } else {
                        if listed_before(indices@, j + 1, k) {
                            let w = choose|w: int| 0 <= w < j + 1 && #[trigger] indices@[w] == k;
                            assert(w != j);
                        }
                    }
                }
            }
            j = j + 1;
        }
        proof {
            assert forall|k: int| 0 <= k < old(self).threads@.len() implies listed_before(
                indices@,
                indices@.len() as int,
                k,
            ) == indices@.contains(k as usize) by {
                assert(old(self).threads@.len() == old(self).threads.len());
                if indices@.contains(k as usize) {
                    let w = choose|w: int| 0 <= w < indices@.len() && indices@[w] == k as usize;
                    assert(indices@[w] == k);
                }
            }
        }
        self.selected.clear();
    }
}

/// Some entry of `indices` before position `j` is `k`.
pub open spec fn listed_before(indices: Seq<usize>, j: int, k: int) -> bool {
    exists|w: int| 0 <= w < j && #[trigger] indices[w] == k
}


// ---------------------------------------------------------------------------
// The prompt sent to OpenCode
// ---------------------------------------------------------------------------

/// The diff lines as text: each with its marker, its content and a newline.
pub open spec fn diff_text(ls: Seq<DiffLineView>) -> Seq<char>
    decreases ls.len(),
{
    if ls.len() == 0 {
        Seq::<char>::empty()
    } else {
        diff_text(ls.drop_last()) + seq![kind_marker(ls.last().kind)] + ls.last().content + seq!['\n']
    }
}

/// The code shown with a comment on `line` of `path`: five lines of context
/// on each side, taken from the diff when the file's lines are fewer than
/// `usize::MAX - 5` (which every diff held in memory is).
pub open spec fn prompt_context(
    diff: Map<Seq<char>, Seq<DiffLineView>>,
    path: Seq<char>,
    line: usize,
) -> Seq<DiffLineView> {
    if !diff.contains_key(path) || diff[path].len() + 5 < usize::MAX {
        spec_extract_context(diff, path, line, 5)
    } else {
        Seq::empty()
    }
}

/// The part of the prompt that says where the comment was left.
pub open spec fn code_section(
    file_path: Option<String>,
    line: Option<usize>,
    diff: Map<Seq<char>, Seq<DiffLineView>>,
) -> Seq<char> {
    match (file_path, line) {
        (Some(p), Some(l)) => {
            let head = "The following review comment was left on `"@ + p@ + "` at line "@ + decimal(
                l as nat,
            ) + ":"@;
            let ctx = prompt_context(diff, p@, l);
            if ctx.len() == 0 {
                head
            } else {
                head + "\n\nCode context:\n```\n"@ + diff_text(ctx) + "```"@
            }
        },
        _ => "The following general review comment was left on this merge request:"@,
    }
}

/// The opening of every prompt: the merge request and its description.
pub open spec fn prompt_header(mr: MergeRequestWithDiscussions) -> Seq<char> {
    "I'm reviewing merge request \"!"@ + decimal(mr.iid as nat) + " "@ + mr.title@
        + "\".\n\nMR Description:\n"@ + match mr.description {
        Some(d) => d@,
        None => "No description provided."@,
    } + "\n\n"@
}

/// The closing request of a prompt about one comment.
pub open spec fn single_tail() -> Seq<char> {
    "\n\nThink about this review comment carefully. Explain the pros and cons of the suggested change, and propose a concrete implementation plan. Do not make any changes -- only provide the plan."@
}

/// The closing request of a prompt about several comments.
pub open spec fn batch_tail() -> Seq<char> {
    "\n\nThink about these review comments carefully. Explain the pros and cons of each suggested change, and propose a concrete implementation plan. Do not make any changes -- only provide the plan."@
}

/// One comment in a prompt: where it was left, then its body.
pub open spec fn comment_item(section: Seq<char>, body: Seq<char>) -> Seq<char> {
    section + "\n\nComment:\n"@ + body
}

/// The prompt for a comment with body `body` on the merge request `mr`.
pub open spec fn prompt_text(mr: MergeRequestWithDiscussions, section: Seq<char>, body: Seq<char>) -> Seq<
    char,
> {
    prompt_header(mr) + comment_item(section, body) + single_tail()
}

/// The item of a thread in a prompt: its root comment.
pub open spec fn thread_item(t: FlatThread, diff: Map<Seq<char>, Seq<DiffLineView>>) -> Seq<char> {
    let note = t.notes@[0];
    comment_item(code_section(note.file_path, note.new_line, diff), note.body@)
}

/// The items of the target threads among the first `k`, in order; a thread
/// without notes has none.
pub open spec fn prompt_items(s: ReviewState, k: nat) -> Seq<Seq<char>>
    decreases k,
{
    if k == 0 {
        Seq::empty()
    } else {
        let i = (k - 1) as int;
        let before = prompt_items(s, (k - 1) as nat);
        if s.is_target(i) && s.threads@[i].notes@.len() > 0 {
            before.push(thread_item(s.threads@[i], s.parsed_diff@))
        } else {
            before
        }
    }
}

/// The items, separated by blank lines.
pub open spec fn joined_items(items: Seq<Seq<char>>) -> Seq<char>
    decreases items.len(),
{
    if items.len() == 0 {
        Seq::empty()
    } else if items.len() == 1 {
        items[0]
    } else {
        joined_items(items.drop_last()) + "\n\n"@ + items.last()
    }
}

/// The prompt about the given items: one comment is asked about as such,
/// several as a batch.
pub open spec fn batch_prompt(mr: MergeRequestWithDiscussions, items: Seq<Seq<char>>) -> Seq<char> {
    prompt_header(mr) + joined_items(items) + if items.len() == 1 {
        single_tail()
    } else {
        batch_tail()
    }
}

fn push_diff_text(out: &mut String, ls: &Vec<DiffLine>)
    ensures
        final(out)@ == old(out)@ + diff_text(line_views(ls@)),
{
    let mut i: usize = 0;
    proof {
        assert(line_views(ls@).take(0) =~= Seq::<DiffLineView>::empty());
        assert(old(out)@ + Seq::<char>::empty() =~= old(out)@);
    }
    while i < ls.len()
        invariant
            i <= ls@.len(),
            out@ == old(out)@ + diff_text(line_views(ls@).take(i as int)),
        decreases ls@.len() - i,
    {
        let l = &ls[i];
        out.push(l.kind.marker());
        out.append(l.content.as_str());
        out.push('\n');
        proof {
            let v = line_views(ls@);
            assert(v.take(i + 1).drop_last() =~= v.take(i as int));
            assert(v.take(i + 1).last() == l@);
            assert(out@ =~= old(out)@ + diff_text(v.take(i + 1)));
        }
        i = i + 1;
    }
    proof {
        assert(line_views(ls@).take(ls@.len() as int) =~= line_views(ls@));
    }
}

impl ReviewState {
    /// Whether some thread is selected.
    fn any_thread_selected(&self) -> (r: bool)
        ensures
            r == any_selected(self.sel()),
    {
        let mut i: usize = 0;
        while i < self.threads.len()
            invariant
                i <= self.threads@.len(),
                forall|k: int| 0 <= k < i ==> !self.sel()[k],
            decreases self.threads@.len() - i,
        {
            proof {
                assert(self.sel()[i as int] == self.selected@.contains(i));
            }
            if self.selected.contains(&i) {
                return true;
            }
            i = i + 1;
        }
        false
    }

    /// The prompt item of thread `t`: where its root comment was left, with
    /// the code around that line, then the comment.
    fn thread_prompt_item(&self, t: &FlatThread) -> (r: String)
        requires
            t.notes@.len() > 0,
        ensures
            r@ == thread_item(*t, self.parsed_diff@),
    {
        let note = &t.notes[0];
        let mut item = match (&note.file_path, note.new_line) {
            (Some(file_path), Some(target_line)) => {
                let mut head = "The following review comment was left on `".to_owned();
                head.append(file_path.as_str());
                head.append("` at line ");
                push_decimal(&mut head, target_line as u64);
                head.append(":");
                let small = match self.parsed_diff.get(file_path.as_str()) {
                    Some(lines) => lines.len() < usize::MAX - 5,
                    None => true,
                };
                if small {
                    proof {
                        let d = self.parsed_diff@;
                        if d.contains_key(file_path@) {
                            crate::diff::lemma_first_new_line(d[file_path@], target_line);
                        }
                    }
                    let context_lines = extract_context(&self.parsed_diff, file_path.as_str(), target_line, 5);
                    if context_lines.len() == 0 {
                        head
                    } else {
                        head.append("\n\nCode context:\n```\n");
                        push_diff_text(&mut head, &context_lines);
                        head.append("```");
                        head
                    }
                } else {
                    head
                }
            },
            _ => "The following general review comment was left on this merge request:".to_owned(),
        };
        item.append("\n\nComment:\n");
        item.append(note.body.as_str());
        item
    }

    /// Build one prompt from the root comments of the threads that "send"
    /// acts on: the selected threads in order, or the current thread when
    /// none is selected. `None` when there is no such comment.
    pub fn build_prompt_for_current_comment(&self) -> (r: Option<String>)
        requires
            self.wf(),
        ensures
            ({
                let items = prompt_items(*self, self.threads@.len());
                if items.len() == 0 {
                    r is None
                } else {
                    r matches Some(p) && p@ == batch_prompt(self.merge_request, items)
                }
            }),
    {
        let any = self.any_thread_selected();
        let mut body = String::new();
        let mut count: usize = 0;
        let mut i: usize = 0;
        while i < self.threads.len()
            invariant
                self.wf(),
                i <= self.threads@.len(),
                any == any_selected(self.sel()),
                count == prompt_items(*self, i as nat).len(),
                count <= i,
                body@ == joined_items(prompt_items(*self, i as nat)),
            decreases self.threads@.len() - i,
        {
            let target = if any {
                self.selected.contains(&i)
            } else {
                match self.current {
                    Some(c) => c == i,
                    None => false,
                }
            };
            proof {
                assert(target == self.is_target(i as int));
            }
            if target && self.threads[i].notes.len() > 0 {
                let item = self.thread_prompt_item(&self.threads[i]);
                if count > 0 {
                    body.append("\n\n");
                }
                body.append(item.as_str());
                proof {
                    let before = prompt_items(*self, i as nat);
                    let after = prompt_items(*self, (i + 1) as nat);
                    assert(after == before.push(item@));
                    assert(after.drop_last() =~= before);
                    if count == 0 {
                        assert(body@ =~= joined_items(after));
                    } else {
                        assert(body@ =~= joined_items(after));
                    }
                }
                count = count + 1;
            }
            i = i + 1;
        }
        if count == 0 {
            return None;
        }
        let mr = &self.merge_request;
        let mut prompt = "I'm reviewing merge request \"!".to_owned();
        push_decimal(&mut prompt, mr.iid);
        prompt.append(" ");
        prompt.append(mr.title.as_str());
        prompt.append("\".\n\nMR Description:\n");
        match &mr.description {
            Some(d) => prompt.append(d.as_str()),
            None => prompt.append("No description provided."),
        }
        prompt.append("\n\n");
        prompt.append(body.as_str());
        if count == 1 {
            prompt.append(
                "\n\nThink about this review comment carefully. Explain the pros and cons of the suggested change, and propose a concrete implementation plan. Do not make any changes -- only provide the plan.",
            );
        } else {
            prompt.append(
                "\n\nThink about these review comments carefully. Explain the pros and cons of each suggested change, and propose a concrete implementation plan. Do not make any changes -- only provide the plan.",
            );
        }
        Some(prompt)
    }
}

/// The label `"#a, #b, ..."` of the given thread indices, counted from one.
pub open spec fn thread_list_label(indices: Seq<usize>) -> Seq<char>
    decreases indices.len(),
{
    if indices.len() == 0 {
        Seq::<char>::empty()
    } else if indices.len() == 1 {
        seq!['#'] + decimal((indices[0] + 1) as nat)
    } else {
        thread_list_label(indices.drop_last()) + seq![',', ' ', '#'] + decimal((indices.last() + 1) as nat)
    }
}

/// The list of threads that the resolve popup asks about, as `"#1, #3"`.
pub fn resolve_popup_thread_list(indices: &Vec<usize>) -> (r: String)
    requires
        forall|k: int| 0 <= k < indices@.len() ==> indices@[k] < usize::MAX,
    ensures
        r@ == thread_list_label(indices@),
{
    let mut r = String::new();
    let mut i: usize = 0;
    proof {
        assert(indices@.take(0) =~= Seq::<usize>::empty());
    }
    while i < indices.len()
        invariant
            i <= indices@.len(),
            forall|k: int| 0 <= k < indices@.len() ==> indices@[k] < usize::MAX,
            r@ == thread_list_label(indices@.take(i as int)),
        decreases indices@.len() - i,
    {
        if i > 0 {
            r.push(',');
            r.push(' ');
        }
        r.push('#');
        push_decimal(&mut r, (indices[i] + 1) as u64);
        proof {
            let t = indices@.take(i + 1);
            assert(t.drop_last() =~= indices@.take(i as int));
            if i == 0 {
                assert(r@ =~= thread_list_label(t));
            } else {
                assert(r@ =~= thread_list_label(t));
            }
        }
        i = i + 1;
    }
    proof {
        assert(indices@.take(indices@.len() as int) =~= indices@);
    }
    r
}


// ---------------------------------------------------------------------------
// Properties of navigation and selection
// ---------------------------------------------------------------------------

/// Moving to the previous thread undoes moving to the next one, and the
/// other way round, from any existing thread.
pub proof fn lemma_prev_undoes_next(cur: usize, len: nat)
    requires
        cur < len <= usize::MAX,
    ensures
        prev_index(next_index(Some(cur), len), len) == Some(cur),
        next_index(prev_index(Some(cur), len), len) == Some(cur),
{
}

/// Wrapping navigation never leaves the threads.
pub proof fn lemma_navigation_stays_in_range(cur: Option<usize>, len: nat)
    requires
        len <= usize::MAX,
        cur matches Some(i) ==> i < len,
    ensures
        next_index(cur, len) matches Some(i) ==> i < len,
        prev_index(cur, len) matches Some(i) ==> i < len,
        len > 0 ==> next_index(cur, len) is Some && prev_index(cur, len) is Some,
{
}

/// Toggling the current thread twice leaves the selection as it was.
pub proof fn lemma_toggle_current_twice(sel: Seq<bool>, cur: Option<usize>)
    requires
        cur matches Some(i) ==> i < sel.len(),
    ensures
        toggle_current(toggle_current(sel, cur), cur) == sel,
{
    if let Some(i) = cur {
        assert(toggle_current(toggle_current(sel, cur), cur) =~= sel);
    }
}

/// "Select all / deselect all" selects every thread unless every thread was
/// selected, and then none; from a selection of none, doing it twice gives
/// none again.
pub proof fn lemma_toggle_all(sel: Seq<bool>)
    ensures
        toggle_all(sel).len() == sel.len(),
        all_selected(sel) ==> !any_selected(toggle_all(sel)),
        !all_selected(sel) ==> all_selected(toggle_all(sel)),
        !any_selected(sel) && sel.len() > 0 ==> toggle_all(toggle_all(sel)) == sel,
{
    if !any_selected(sel) && sel.len() > 0 {
        assert(!sel[0]);
        assert(all_selected(toggle_all(sel)));
        assert(toggle_all(toggle_all(sel)) =~= sel);
    }
}

/// In the comment view, `j` then `k` (or `k` then `j`) comes back to the
/// thread it started from and changes nothing else.
pub proof fn lemma_down_then_up_returns(s: ReviewState)
    requires
        s.wf(),
        s.app_state == AppState::CommentList,
        s.current is Some,
    ensures
        key_effect(s, Key::Char('j')).0.current == next_index(s.current, s.threads@.len()),
        prev_index(key_effect(s, Key::Char('j')).0.current, s.threads@.len()) == s.current,
        key_effect(s, Key::Char('j')).0 == (SessionFlags {
            current: key_effect(s, Key::Char('j')).0.current,
            ..s.flags()
        }),
{
    assert(s.threads@.len() == s.threads.len());
    lemma_prev_undoes_next(s.current->0, s.threads@.len());
}

/// A confirmed resolve asks for the resolve and returns to the comment view;
/// a cancelled one only returns.
pub proof fn lemma_confirm_resolve(s: ReviewState)
    requires
        s.app_state == AppState::ConfirmResolve,
    ensures
        key_effect(s, Key::Char('y')).0.app_state == AppState::CommentList,
        key_effect(s, Key::Char('y')).0.pending_resolve,
        key_effect(s, Key::Enter) == key_effect(s, Key::Char('y')),
        key_effect(s, Key::Char('n')).0 == (SessionFlags {
            app_state: AppState::CommentList,
            ..s.flags()
        }),
        key_effect(s, Key::Esc) == key_effect(s, Key::Char('n')),
{
}

/// `r` in the comment view asks for confirmation exactly when some thread can
/// be resolved.
pub proof fn lemma_resolve_needs_target(s: ReviewState)
    requires
        s.app_state == AppState::CommentList,
    ensures
        key_effect(s, Key::Char('r')).0.app_state == if s.has_resolve_target() {
            AppState::ConfirmResolve
        } else {
            AppState::CommentList
        },
{
}

/// The items of the first `k` threads: with no thread selected, only the
/// current thread `c` has one, once the first `k` threads include it.
proof fn lemma_items_of_focused(s: ReviewState, c: usize, k: nat)
    requires
        !any_selected(s.sel()),
        s.current == Some(c),
        0 <= c < s.threads@.len(),
        s.threads@[c as int].notes@.len() > 0,
        k <= s.threads@.len(),
    ensures
        prompt_items(s, k) == if k > c {
            seq![thread_item(s.threads@[c as int], s.parsed_diff@)]
        } else {
            Seq::<Seq<char>>::empty()
        },
    decreases k,
{
    if k > 0 {
        lemma_items_of_focused(s, c, (k - 1) as nat);
        if k - 1 == c {
            assert(Seq::<Seq<char>>::empty().push(thread_item(s.threads@[c as int], s.parsed_diff@)) =~= seq![
                thread_item(s.threads@[c as int], s.parsed_diff@),
            ]);
        }
    }
}

/// With no thread selected, "send" asks about the current thread's root
/// comment alone, in the words of a prompt about one comment.
pub proof fn lemma_prompt_for_focused_thread(s: ReviewState, c: usize)
    requires
        s.wf(),
        !any_selected(s.sel()),
        s.current == Some(c),
        s.threads@[c as int].notes@.len() > 0,
    ensures
        prompt_items(s, s.threads@.len()).len() == 1,
        batch_prompt(s.merge_request, prompt_items(s, s.threads@.len())) == prompt_text(
            s.merge_request,
            code_section(
                s.threads@[c as int].notes@[0].file_path,
                s.threads@[c as int].notes@[0].new_line,
                s.parsed_diff@,
            ),
            s.threads@[c as int].notes@[0].body@,
        ),
{
    lemma_items_of_focused(s, c, s.threads@.len());
}

/// Every target thread among the first `k` that has a comment has its item
/// among the items of the first `k` threads, after those of the targets
/// before it.
proof fn lemma_items_cover(s: ReviewState, k: nat)
    requires
        k <= s.threads@.len(),
    ensures
        forall|i: int|
            0 <= i < k && s.is_target(i) && s.threads@[i].notes@.len() > 0 ==> prompt_items(
                s,
                k,
            ).contains(thread_item(s.threads@[i], s.parsed_diff@)),
        forall|j: nat| j <= k ==> #[trigger] prompt_items(s, j).is_prefix_of(prompt_items(s, k)),
    decreases k,
{
    if k > 0 {
        let p = (k - 1) as nat;
        lemma_items_cover(s, p);
        let before = prompt_items(s, p);
        let after = prompt_items(s, k);
        assert(before.is_prefix_of(after));
        assert forall|i: int|
            0 <= i < k && s.is_target(i) && s.threads@[i].notes@.len() > 0 implies after.contains(
                thread_item(s.threads@[i], s.parsed_diff@),
            ) by {
            if i == k - 1 {
                assert(after[after.len() - 1] == thread_item(s.threads@[i], s.parsed_diff@));
            } else {
                let w = choose|w: int| 0 <= w < before.len() && before[w] == thread_item(s.threads@[i], s.parsed_diff@);
                assert(after[w] == before[w]);
            }
        }
        assert forall|j: nat| j <= k implies #[trigger] prompt_items(s, j).is_prefix_of(after) by {
            if j < k {
                assert(prompt_items(s, j).is_prefix_of(before));
            }
        }
    }
}

/// "Send" covers every thread it acts on: the root comment of each target
/// thread is one of the prompt's items.
pub proof fn lemma_prompt_covers_targets(s: ReviewState, i: int)
    requires
        s.wf(),
        0 <= i < s.threads@.len(),
        s.is_target(i),
        s.threads@[i].notes@.len() > 0,
    ensures
        prompt_items(s, s.threads@.len()).contains(thread_item(s.threads@[i], s.parsed_diff@)),
{
    lemma_items_cover(s, s.threads@.len());
}

/// The arrow keys do what `j` and `k` do, on every screen; on the merge
/// request list (and when leaving) they move the list's selection down and
/// up and change nothing else.
pub proof fn lemma_arrow_keys_match_letters(s: ReviewState)
    ensures
        key_effect(s, Key::Down) == key_effect(s, Key::Char('j')),
        key_effect(s, Key::Up) == key_effect(s, Key::Char('k')),
        s.app_state == AppState::MergeRequestList ==> key_effect(s, Key::Down) == (
            s.flags(),
            ListAction::SelectNext,
        ) && key_effect(s, Key::Up) == (s.flags(), ListAction::SelectPrevious),
{
}

/// The discussion has a note that is not a system event.
pub open spec fn has_comment(d: Discussion) -> bool {
    exists|k: int| 0 <= k < d.notes@.len() && !d.notes@[k].system
}

/// The notes shown of a thread are its notes that are not system events,
/// in order.
pub proof fn lemma_visible_notes_are_comments(ns: Seq<Note>)
    ensures
        visible_notes(ns) == ns.filter(|n: Note| !n.system),
        visible_notes(ns).len() > 0 <==> exists|k: int| 0 <= k < ns.len() && !ns[k].system,
    decreases ns.len(),
{
    reveal(Seq::filter);
    if ns.len() > 0 {
        let init = ns.drop_last();
        lemma_visible_notes_are_comments(init);
        if exists|k: int| 0 <= k < init.len() && !init[k].system {
            let k = choose|k: int| 0 <= k < init.len() && !init[k].system;
            assert(ns[k] == init[k]);
        }
        if exists|k: int| 0 <= k < ns.len() && !ns[k].system {
            let k = choose|k: int| 0 <= k < ns.len() && !ns[k].system;
            if k < init.len() {
                assert(init[k] == ns[k]);
            }
        }
    }
}

/// The threads are exactly the discussions that hold a note which is not a
/// system event, in order, whatever else they are (an `individual_note`
/// comment too).
pub proof fn lemma_threads_are_commented_discussions(ds: Seq<Discussion>)
    ensures
        threaded(ds) == ds.filter(|d: Discussion| has_comment(d)),
    decreases ds.len(),
{
    reveal(Seq::filter);
    if ds.len() > 0 {
        lemma_threads_are_commented_discussions(ds.drop_last());
        lemma_visible_notes_are_comments(ds.last().notes@);
    }
}

/// The key bindings of the thread view: `Esc`/`q` go back to the merge
/// request list, `Space` toggles the current thread, `a` selects all or none,
/// `Enter` asks for a send, `r` opens the resolve popup only when there is
/// something to resolve; none of them touches the merge request list.
pub proof fn lemma_thread_view_keys(s: ReviewState)
    requires
        s.app_state == AppState::CommentList,
    ensures
        key_effect(s, Key::Esc) == key_effect(s, Key::Char('q')),
        key_effect(s, Key::Esc).0 == (SessionFlags { app_state: AppState::MergeRequestList, ..s.flags() }),
        key_effect(s, Key::Char(' ')).0 == (SessionFlags {
            selected: toggle_current(s.sel(), s.current),
            ..s.flags()
        }),
        key_effect(s, Key::Char('a')).0 == (SessionFlags { selected: toggle_all(s.sel()), ..s.flags() }),
        key_effect(s, Key::Enter).0 == (SessionFlags { pending_send: true, ..s.flags() }),
        key_effect(s, Key::Char('r')).0.app_state == if s.has_resolve_target() {
            AppState::ConfirmResolve
        } else {
            AppState::CommentList
        },
        key_effect(s, Key::Char('r')).0 == (SessionFlags {
            app_state: key_effect(s, Key::Char('r')).0.app_state,
            ..s.flags()
        }),
        key_effect(s, Key::Down).0 == (SessionFlags {
            current: next_index(s.current, s.threads@.len()),
            ..s.flags()
        }),
        key_effect(s, Key::Up).0 == (SessionFlags {
            current: prev_index(s.current, s.threads@.len()),
            ..s.flags()
        }),
        forall|k: Key| #[trigger] key_effect(s, k).1 == ListAction::Nothing,
{
}

/// The key bindings of the merge request list: `Esc`/`q` quit, `Enter` opens
/// the selected merge request; nothing else in the session changes.
pub proof fn lemma_merge_request_list_keys(s: ReviewState)
    requires
        s.app_state == AppState::MergeRequestList,
    ensures
        key_effect(s, Key::Esc) == key_effect(s, Key::Char('q')),
        key_effect(s, Key::Esc) == (SessionFlags { exit: true, ..s.flags() }, ListAction::Nothing),
        key_effect(s, Key::Enter) == (s.flags(), ListAction::OpenSelected),
        key_effect(s, Key::Other) == (s.flags(), ListAction::Nothing),
{
}

/// The keys of the resolve popup: `y`/`Enter` confirm (back to the thread
/// view with a resolve requested), `n`/`Esc` cancel (back without one), and
/// no other key does anything.
pub proof fn lemma_resolve_popup_keys(s: ReviewState)
    requires
        s.app_state == AppState::ConfirmResolve,
    ensures
        key_effect(s, Key::Char('y')) == key_effect(s, Key::Enter),
        key_effect(s, Key::Enter) == (
            SessionFlags { app_state: AppState::CommentList, pending_resolve: true, ..s.flags() },
            ListAction::Nothing,
        ),
        key_effect(s, Key::Char('n')) == key_effect(s, Key::Esc),
        key_effect(s, Key::Esc) == (SessionFlags { app_state: AppState::CommentList, ..s.flags() }, ListAction::Nothing),
        forall|k: Key|
            k != Key::Char('y') && k != Key::Enter && k != Key::Char('n') && k != Key::Esc ==> #[trigger] key_effect(
                s,
                k,
            ) == (s.flags(), ListAction::Nothing),
{
}

} // verus!
