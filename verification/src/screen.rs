//! The text of the status bar and of a thread in the comment view, with the
//! tone each piece is drawn in.

use vstd::prelude::*;
use vstd::string::StringExecFns;

use crate::diff::{extract_context, line_views, DiffLine};
use crate::review::{prompt_context, FlatNote, FlatThread, ReviewState};
use crate::text::{chars_of, decimal, line_ranges, pieces, push_decimal, push_piece, spec_lines};
use crate::types::AppState;

verus! {

/// How a piece of text is drawn.
#[derive(Debug, Clone, Copy, PartialEq, Eq, Structural)]
pub enum Tone {
    /// Default style.
    Plain,
    /// The accent colour.
    Accent,
    /// The accent colour, bold.
    AccentBold,
    /// Secondary text.
    Muted,
    /// Secondary text, bold.
    MutedBold,
    /// A key hint.
    Hint,
    /// A highlighted notice (yellow, bold).
    Warning,
    /// A success notice (green, bold).
    Success,
    /// An alarm (red).
    Danger,
    /// Subtle chrome such as separators.
    Surface,
    /// Comment text (white).
    Body,
}

/// A piece of text and its tone.
#[derive(Debug, Clone)]
pub struct Segment {
    pub text: String,
    pub tone: Tone,
}

impl View for Segment {
    type V = (Seq<char>, Tone);

    open spec fn view(&self) -> (Seq<char>, Tone) {
        (self.text@, self.tone)
    }
}

pub open spec fn segs(v: Seq<Segment>) -> Seq<(Seq<char>, Tone)> {
    v.map_values(|s: Segment| s@)
}

pub open spec fn lines_view(v: Seq<Vec<Segment>>) -> Seq<Seq<(Seq<char>, Tone)>> {
    v.map_values(|l: Vec<Segment>| segs(l@))
}

fn seg(text: String, tone: Tone) -> (r: Segment)
    ensures
        r@ == (text@, tone),
{
    Segment { text, tone }
}

fn seg_lit(text: &str, tone: Tone) -> (r: Segment)
    ensures
        r@ == (text@, tone),
{
    Segment { text: text.to_owned(), tone }
}

/// `[key] desc` as a key hint.
pub open spec fn hint(key: Seq<char>, desc: Seq<char>) -> (Seq<char>, Tone) {
    (seq!['['] + key + seq![']', ' '] + desc, Tone::Hint)
}

fn key_hint(key: &str, desc: &str) -> (r: Segment)
    ensures
        r@ == hint(key@, desc@),
{
    let mut t = String::new();
    t.push('[');
    t.append(key);
    t.push(']');
    t.push(' ');
    t.append(desc);
    assert(t@ =~= seq!['['] + key@ + seq![']', ' '] + desc@);
    Segment { text: t, tone: Tone::Hint }
}

pub open spec fn gap() -> (Seq<char>, Tone) {
    ("  "@, Tone::Plain)
}

/// The number of selected threads.
pub open spec fn count_selected(sel: Seq<bool>) -> nat
    decreases sel.len(),
{
    if sel.len() == 0 {
        0
    } else {
        count_selected(sel.drop_last()) + if sel.last() {
            1nat
        } else {
            0nat
        }
    }
}

proof fn lemma_count_bound(sel: Seq<bool>)
    ensures
        count_selected(sel) <= sel.len(),
    decreases sel.len(),
{
    if sel.len() > 0 {
        lemma_count_bound(sel.drop_last());
    }
}

/// `"  {selected}/{total}"`: the position of the current thread, counted from one.
pub open spec fn position_text(s: ReviewState) -> Seq<char> {
    let selected = match s.current {
        Some(i) => i as nat + 1,
        None => 1nat,
    };
    "  "@ + decimal(selected) + seq!['/'] + decimal(s.threads@.len())
}

/// The left part of the status bar in the comment view.
pub open spec fn comment_status(
    s: ReviewState,
    sent_active: bool,
    message: Option<Seq<char>>,
) -> Seq<(Seq<char>, Tone)> {
    let n = count_selected(s.sel());
    let selection = if n > 0 {
        ("  ["@ + decimal(n) + " selected]"@, Tone::Warning)
    } else {
        (Seq::<char>::empty(), Tone::Plain)
    };
    match message {
        Some(m) => seq![(seq![' '] + m, Tone::Warning)],
        None => if sent_active {
            seq![(" Sent to OpenCode "@, Tone::Success), (position_text(s), Tone::Muted)]
        } else {
            seq![
                (" MR !"@ + s.merge_request_id@, Tone::Accent),
                (position_text(s), Tone::Muted),
                selection,
            ]
        },
    }
}

/// The status bar: its left part and its right part.  `message` is the
/// status message still on display, `sent_active` whether a prompt was sent
/// moments ago, `mr_count` the number of merge requests listed.
pub open spec fn status_bar_spec(
    s: ReviewState,
    mr_count: usize,
    sent_active: bool,
    message: Option<Seq<char>>,
) -> (Seq<(Seq<char>, Tone)>, Seq<(Seq<char>, Tone)>) {
    match s.app_state {
        AppState::MergeRequestList => (
            seq![
                (" Merge Requests"@, Tone::Accent),
                ("  "@ + decimal(mr_count as nat) + " items"@, Tone::Muted),
            ],
            seq![
                hint("q"@, "quit"@),
                gap(),
                hint("enter"@, "select"@),
                gap(),
                hint("j/k"@, "navigate"@),
            ],
        ),
        AppState::CommentList => (
            comment_status(s, sent_active, message),
            seq![
                hint("esc"@, "back"@),
                gap(),
                hint("space"@, "select"@),
                gap(),
                hint("a"@, "all"@),
                gap(),
                hint("r"@, "resolve"@),
                gap(),
                hint("enter"@, "send"@),
                gap(),
                hint("j/k"@, "navigate"@),
            ],
        ),
        AppState::ConfirmResolve => (
            seq![(" Confirm resolve"@, Tone::Warning)],
            seq![hint("y/enter"@, "confirm"@), gap(), hint("n/esc"@, "cancel"@)],
        ),
        AppState::Exiting => (
            seq![(" Exiting"@, Tone::Danger)],
            seq![hint("esc"@, "cancel"@), gap(), hint("enter"@, "confirm"@)],
        ),
    }
}

fn count_selected_exec(s: &ReviewState) -> (n: usize)
    ensures
        n == count_selected(s.sel()),
{
    let ghost sel = s.sel();
    let mut n: usize = 0;
    let mut i: usize = 0;
    proof {
        assert(sel.take(0) =~= Seq::<bool>::empty());
    }
    while i < s.threads.len()
        invariant
            sel == s.sel(),
            sel.len() == s.threads@.len(),
            i <= sel.len(),
            n == count_selected(sel.take(i as int)),
            n <= i,
        decreases sel.len() - i,
    {
        proof {
            assert(sel.take(i + 1).drop_last() =~= sel.take(i as int));
        }
        if s.selected.contains(&i) {
            n = n + 1;
        }
        i = i + 1;
    }
    proof {
        assert(sel.take(sel.len() as int) =~= sel);
    }
    n
}

fn position_segment(s: &ReviewState) -> (r: Segment)
    requires
        s.wf(),
    ensures
        r@ == (position_text(*s), Tone::Muted),
{
    let len = s.threads.len();
    let selected = match s.current {
        Some(i) => i + 1,
        None => 1,
    };
    let mut t = "  ".to_owned();
    push_decimal(&mut t, selected as u64);
    t.push('/');
    push_decimal(&mut t, s.threads.len() as u64);
    Segment { text: t, tone: Tone::Muted }
}

/// An indicator set `age` seconds ago (`None`: not set) is still shown on
/// screen `state`: it is only checked, and dropped once `limit` seconds old,
/// while the comment view is drawn.
pub open spec fn indicator_kept(state: AppState, age: Option<u64>, limit: u64) -> bool {
    match age {
        Some(a) => state != AppState::CommentList || a < limit,
        None => false,
    }
}

/// Which of the two timed indicators stay set: the "Sent" mark for two
/// seconds and a status message for five, counted while the comment view is
/// drawn; `sent_age` and `message_age` are their ages in whole seconds.
pub fn kept_indicators(state: AppState, sent_age: Option<u64>, message_age: Option<u64>) -> (r: (
    bool,
    bool,
))
    ensures
        r.0 == indicator_kept(state, sent_age, 2),
        r.1 == indicator_kept(state, message_age, 5),
{
    let on_comments = match state {
        AppState::CommentList => true,
        _ => false,
    };
    let sent = match sent_age {
        Some(a) => !on_comments || a < 2,
        None => false,
    };
    let message = match message_age {
        Some(a) => !on_comments || a < 5,
        None => false,
    };
    (sent, message)
}

/// The status message after resolving threads: the last failure, if any,
/// else how many threads were resolved.
pub fn resolve_status(resolved: usize, last_failure: Option<String>) -> (r: String)
    ensures
        r@ == match last_failure {
            Some(m) => m@,
            None => "Resolved "@ + decimal(resolved as nat) + " thread(s)"@,
        },
{
    match last_failure {
        Some(m) => m,
        None => {
            let mut r = "Resolved ".to_owned();
            push_decimal(&mut r, resolved as u64);
            r.append(" thread(s)");
            r
        },
    }
}

/// The status bar as [`status_bar_spec`] describes it.
pub fn status_bar(
    s: &ReviewState,
    mr_count: usize,
    sent_active: bool,
    message: Option<&str>,
) -> (r: (Vec<Segment>, Vec<Segment>))
    requires
        s.wf(),
    ensures
        (segs(r.0@), segs(r.1@)) == status_bar_spec(
            *s,
            mr_count,
            sent_active,
            match message {
                Some(m) => Some(m@),
                None => None,
            },
        ),
{
    let mut left: Vec<Segment> = Vec::new();
    let mut right: Vec<Segment> = Vec::new();
    match s.app_state {
        AppState::MergeRequestList => {
            left.push(seg_lit(" Merge Requests", Tone::Accent));
            let mut t = "  ".to_owned();
            push_decimal(&mut t, mr_count as u64);
            t.append(" items");
            left.push(seg(t, Tone::Muted));
            right.push(key_hint("q", "quit"));
            right.push(seg_lit("  ", Tone::Plain));
            right.push(key_hint("enter", "select"));
            right.push(seg_lit("  ", Tone::Plain));
            right.push(key_hint("j/k", "navigate"));
        },
        AppState::CommentList => {
            match message {
                Some(m) => {
                    let mut t = String::new();
                    t.push(' ');
                    t.append(m);
                    assert(t@ =~= seq![' '] + m@);
                    left.push(seg(t, Tone::Warning));
                },
                None => if sent_active {
                    left.push(seg_lit(" Sent to OpenCode ", Tone::Success));
                    left.push(position_segment(s));
                } else {
                    let mut t = " MR !".to_owned();
                    t.append(s.merge_request_id.as_str());
                    left.push(seg(t, Tone::Accent));
                    left.push(position_segment(s));
                    let n = count_selected_exec(s);
                    if n > 0 {
                        let mut t = "  [".to_owned();
                        push_decimal(&mut t, n as u64);
                        t.append(" selected]");
                        left.push(seg(t, Tone::Warning));
                    } else {
                        left.push(seg(String::new(), Tone::Plain));
                    }
                },
            }
            right.push(key_hint("esc", "back"));
            right.push(seg_lit("  ", Tone::Plain));
            right.push(key_hint("space", "select"));
            right.push(seg_lit("  ", Tone::Plain));
            right.push(key_hint("a", "all"));
            right.push(seg_lit("  ", Tone::Plain));
            right.push(key_hint("r", "resolve"));
            right.push(seg_lit("  ", Tone::Plain));
            right.push(key_hint("enter", "send"));
            right.push(seg_lit("  ", Tone::Plain));
            right.push(key_hint("j/k", "navigate"));
        },
        AppState::ConfirmResolve => {
            left.push(seg_lit(" Confirm resolve", Tone::Warning));
            right.push(key_hint("y/enter", "confirm"));
            right.push(seg_lit("  ", Tone::Plain));
            right.push(key_hint("n/esc", "cancel"));
        },
        AppState::Exiting => {
            left.push(seg_lit(" Exiting", Tone::Danger));
            right.push(key_hint("esc", "cancel"));
            right.push(seg_lit("  ", Tone::Plain));
            right.push(key_hint("enter", "confirm"));
        },
    }
    proof {
        let expect = status_bar_spec(
            *s,
            mr_count,
            sent_active,
            match message {
                Some(m) => Some(m@),
                None => None,
            },
        );
        assert(segs(left@) =~= expect.0);
        assert(segs(right@) =~= expect.1);
    }
    (left, right)
}


// ---------------------------------------------------------------------------
// A thread in the comment view
// ---------------------------------------------------------------------------

pub open spec fn blank() -> Seq<(Seq<char>, Tone)> {
    Seq::empty()
}

/// The lines of a comment body, each behind `indent`.
pub open spec fn body_lines(indent: Seq<char>, body: Seq<char>) -> Seq<Seq<(Seq<char>, Tone)>> {
    Seq::new(spec_lines(body).len(), |k: int| seq![(indent + spec_lines(body)[k], Tone::Body)])
}

/// The lines of the note at position `i` of a thread: a separator before a
/// reply, the author and the time, the body, then a blank line; replies are
/// indented.
pub open spec fn note_block(i: int, n: FlatNote) -> Seq<Seq<(Seq<char>, Tone)>> {
    let indent = if i > 0 {
        "  "@
    } else {
        Seq::<char>::empty()
    };
    (if i > 0 {
        seq![seq![("  ┄┄┄"@, Tone::Surface)], blank()]
    } else {
        Seq::<Seq<(Seq<char>, Tone)>>::empty()
    }) + seq![
        seq![
            (indent, Tone::Plain),
            (n.author_username@, Tone::AccentBold),
            ("  "@, Tone::Plain),
            (n.created_at@, Tone::Muted),
        ],
        blank(),
    ] + body_lines(indent, n.body@) + seq![blank()]
}

pub open spec fn note_blocks(ns: Seq<FlatNote>) -> Seq<Seq<(Seq<char>, Tone)>>
    decreases ns.len(),
{
    if ns.len() == 0 {
        Seq::empty()
    } else {
        note_blocks(ns.drop_last()) + note_block(ns.len() - 1, ns.last())
    }
}

/// The header of a thread: its selection box, whether it is resolved, and
/// the number of replies.
pub open spec fn thread_header(t: FlatThread, is_selected: bool) -> Seq<(Seq<char>, Tone)> {
    seq![
        if is_selected {
            ("[x] "@, Tone::Warning)
        } else {
            ("[ ] "@, Tone::MutedBold)
        },
    ] + (if t.resolved {
        seq![("RESOLVED "@, Tone::Success)]
    } else {
        Seq::<(Seq<char>, Tone)>::empty()
    }) + (if t.notes@.len() > 1 {
        seq![(decimal((t.notes@.len() - 1) as nat) + " replies"@, Tone::Muted)]
    } else {
        Seq::<(Seq<char>, Tone)>::empty()
    })
}

/// All lines of a thread in the comment view.
pub open spec fn thread_body_spec(t: FlatThread, is_selected: bool) -> Seq<
    Seq<(Seq<char>, Tone)>,
> {
    seq![thread_header(t, is_selected), blank()] + note_blocks(t.notes@)
}

fn push_body_lines(out: &mut Vec<Vec<Segment>>, indent: &str, body: &str)
    ensures
        lines_view(final(out)@) == lines_view(old(out)@) + body_lines(indent@, body@),
{
    let s = chars_of(body);
    let ranges = line_ranges(&s);
    let ghost ls = spec_lines(body@);
    let mut k: usize = 0;
    proof {
        assert(lines_view(out@) + body_lines(indent@, body@).take(0) =~= lines_view(out@));
    }
    while k < ranges.len()
        invariant
            s@ == body@,
            ls == spec_lines(body@),
            pieces(s@, ranges@) == ls,
            forall|j: int| 0 <= j < ranges@.len() ==> 0 <= #[trigger] ranges@[j].0 <= ranges@[j].1 <= s@.len(),
            k <= ranges@.len(),
            lines_view(out@) == lines_view(old(out)@) + body_lines(indent@, body@).take(k as int),
        decreases ranges@.len() - k,
    {
        let (a, b) = ranges[k];
        let mut t = indent.to_owned();
        push_piece(&mut t, &s, a, b);
        let mut line: Vec<Segment> = Vec::new();
        line.push(Segment { text: t, tone: Tone::Body });
        let ghost before = out@;
        out.push(line);
        proof {
            assert(ls[k as int] == s@.subrange(a as int, b as int));
            assert(segs(line@) =~= seq![(indent@ + ls[k as int], Tone::Body)]);
            assert(body_lines(indent@, body@).take(k + 1) =~= body_lines(indent@, body@).take(
                k as int,
            ).push(seq![(indent@ + ls[k as int], Tone::Body)]));
            assert(lines_view(out@) =~= lines_view(before).push(segs(line@)));
        }
        k = k + 1;
    }
    proof {
        assert(body_lines(indent@, body@).take(ranges@.len() as int) =~= body_lines(indent@, body@));
    }
}

fn push_line(out: &mut Vec<Vec<Segment>>, line: Vec<Segment>)
    ensures
        lines_view(final(out)@) == lines_view(old(out)@).push(segs(line@)),
{
    out.push(line);
    assert(lines_view(out@) =~= lines_view(old(out)@).push(segs(line@)));
}

/// The lines of a thread in the comment view, as [`thread_body_spec`]
/// describes them.
pub fn thread_body_lines(t: &FlatThread, is_selected: bool) -> (r: Vec<Vec<Segment>>)
    ensures
        lines_view(r@) == thread_body_spec(*t, is_selected),
{
    let mut lines: Vec<Vec<Segment>> = Vec::new();
    let mut header: Vec<Segment> = Vec::new();
    if is_selected {
        header.push(seg_lit("[x] ", Tone::Warning));
    } else {
        header.push(seg_lit("[ ] ", Tone::MutedBold));
    }
    if t.resolved {
        header.push(seg_lit("RESOLVED ", Tone::Success));
    }
    if t.notes.len() > 1 {
        let mut r = String::new();
        push_decimal(&mut r, (t.notes.len() - 1) as u64);
        r.append(" replies");
        header.push(seg(r, Tone::Muted));
    }
    proof {
        assert(segs(header@) =~= thread_header(*t, is_selected));
    }
    push_line(&mut lines, header);
    push_line(&mut lines, Vec::new());
    proof {
        assert(segs(Seq::<Segment>::empty()) =~= blank());
        assert(lines_view(lines@) =~= seq![thread_header(*t, is_selected), blank()]);
        assert(t.notes@.take(0) =~= Seq::<FlatNote>::empty());
    }
    let mut i: usize = 0;
    while i < t.notes.len()
        invariant
            i <= t.notes@.len(),
            lines_view(lines@) == seq![thread_header(*t, is_selected), blank()] + note_blocks(
                t.notes@.take(i as int),
            ),
        decreases t.notes@.len() - i,
    {
        let note = &t.notes[i];
        let ghost start = lines_view(lines@);
        let ghost block = note_block(i as int, *note);
        let indent = if i > 0 {
            "  "
        } else {
            ""
        };
        proof {
            reveal_strlit("");
            assert(""@ =~= Seq::<char>::empty());
            assert(segs(Seq::<Segment>::empty()) =~= blank());
        }
        let ghost ind: Seq<char> = if i > 0 {
            "  "@
        } else {
            Seq::<char>::empty()
        };
        assert(indent@ == ind);
        let ghost sep_part: Seq<Seq<(Seq<char>, Tone)>> = if i > 0 {
            seq![seq![("  ┄┄┄"@, Tone::Surface)], blank()]
        } else {
            Seq::<Seq<(Seq<char>, Tone)>>::empty()
        };
        if i > 0 {
            let mut sep: Vec<Segment> = Vec::new();
            sep.push(seg_lit("  ┄┄┄", Tone::Surface));
            assert(segs(sep@) =~= seq![("  ┄┄┄"@, Tone::Surface)]);
            push_line(&mut lines, sep);
            push_line(&mut lines, Vec::new());
        }
        assert(lines_view(lines@) =~= start + sep_part);
        let mut who: Vec<Segment> = Vec::new();
        who.push(seg_lit(indent, Tone::Plain));
        who.push(seg(note.author_username.clone(), Tone::AccentBold));
        who.push(seg_lit("  ", Tone::Plain));
        who.push(seg(note.created_at.clone(), Tone::Muted));
        let ghost who_v = seq![
            (ind, Tone::Plain),
            (note.author_username@, Tone::AccentBold),
            ("  "@, Tone::Plain),
            (note.created_at@, Tone::Muted),
        ];
        assert(segs(who@) =~= who_v);
        push_line(&mut lines, who);
        push_line(&mut lines, Vec::new());
        assert(lines_view(lines@) =~= start + sep_part + seq![who_v, blank()]);
        push_body_lines(&mut lines, indent, note.body.as_str());
        push_line(&mut lines, Vec::new());
        proof {
            assert(lines_view(lines@) =~= start + sep_part + seq![who_v, blank()] + body_lines(
                ind,
                note.body@,
            ) + seq![blank()]);
            assert(block =~= sep_part + seq![who_v, blank()] + body_lines(ind, note.body@) + seq![
                blank(),
            ]);
            assert(t.notes@.take(i + 1).drop_last() =~= t.notes@.take(i as int));
            assert(t.notes@.take(i + 1).last() == *note);
            assert(lines_view(lines@) =~= start + block);
        }
        i = i + 1;
    }
    proof {
        assert(t.notes@.take(t.notes@.len() as int) =~= t.notes@);
    }
    lines
}


// ---------------------------------------------------------------------------
// Code shown with a thread, and the gutter of a diff line
// ---------------------------------------------------------------------------

/// The code shown above the current thread when it was left on a line of a
/// file and the diff has lines around it: the label `" {path}:{line} "` and
/// the lines.
pub open spec fn code_context_spec(s: ReviewState) -> Option<(Seq<char>, Seq<crate::diff::DiffLineView>)> {
    match s.current {
        Some(i) => match (s.threads@[i as int].file_path, s.threads@[i as int].new_line) {
            (Some(p), Some(l)) => {
                let ctx = prompt_context(s.parsed_diff@, p@, l);
                if ctx.len() == 0 {
                    None
                } else {
                    Some((seq![' '] + p@ + seq![':'] + decimal(l as nat) + seq![' '], ctx))
                }
            },
            _ => None,
        },
        None => None,
    }
}

/// The code shown above the current thread, as [`code_context_spec`] says.
pub fn code_context(s: &ReviewState) -> (r: Option<(String, Vec<DiffLine>)>)
    requires
        s.wf(),
    ensures
        match code_context_spec(*s) {
            Some((label, ctx)) => r matches Some(v) && v.0@ == label && line_views(v.1@) == ctx,
            None => r is None,
        },
{
    let i = match s.current {
        Some(i) => i,
        None => return None,
    };
    let thread = &s.threads[i];
    let (file_path, line) = match (&thread.file_path, thread.new_line) {
        (Some(p), Some(l)) => (p, l),
        _ => return None,
    };
    let small = match s.parsed_diff.get(file_path.as_str()) {
        Some(lines) => lines.len() < usize::MAX - 5,
        None => true,
    };
    if !small {
        return None;
    }
    proof {
        let d = s.parsed_diff@;
        if d.contains_key(file_path@) {
            crate::diff::lemma_first_new_line(d[file_path@], line);
        }
    }
    let ctx = extract_context(&s.parsed_diff, file_path.as_str(), line, 5);
    if ctx.len() == 0 {
        return None;
    }
    let mut label = String::new();
    label.push(' ');
    label.append(file_path.as_str());
    label.push(':');
    push_decimal(&mut label, line as u64);
    label.push(' ');
    Some((label, ctx))
}

/// `n` in decimal, right-aligned in four columns, then a space
/// (`format!("{:>4} ", n)`).
pub open spec fn gutter_number(n: usize) -> Seq<char> {
    let d = decimal(n as nat);
    if d.len() < 4 {
        Seq::new((4 - d.len()) as nat, |k: int| ' ') + d + seq![' ']
    } else {
        d + seq![' ']
    }
}

/// The line-number gutter of a diff line: its new-file number, else its
/// old-file number, else blank.
pub open spec fn gutter_spec(new_line: Option<usize>, old_line: Option<usize>) -> Seq<char> {
    match (new_line, old_line) {
        (Some(n), _) => gutter_number(n),
        (_, Some(n)) => gutter_number(n),
        _ => seq![' ', ' ', ' ', ' ', ' '],
    }
}

/// The line-number gutter of a diff line, as [`gutter_spec`] says.
pub fn gutter_label(new_line: Option<usize>, old_line: Option<usize>) -> (r: String)
    ensures
        r@ == gutter_spec(new_line, old_line),
{
    let n = match (new_line, old_line) {
        (Some(n), _) => n,
        (_, Some(n)) => n,
        _ => {
            let mut r = String::new();
            r.push(' ');
            r.push(' ');
            r.push(' ');
            r.push(' ');
            r.push(' ');
            assert(r@ =~= seq![' ', ' ', ' ', ' ', ' ']);
            return r;
        },
    };
    let mut digits = String::new();
    push_decimal(&mut digits, n as u64);
    let dv = chars_of(digits.as_str());
    let mut r = String::new();
    let mut k: usize = dv.len();
    while k < 4
        invariant
            dv@ == decimal(n as nat),
            dv@.len() <= k <= 4 || (dv@.len() > 4 && k == dv@.len()),
            r@ == Seq::new((k - dv@.len()) as nat, |j: int| ' '),
        decreases 4 - k,
    {
        r.push(' ');
        assert(r@ =~= Seq::new((k + 1 - dv@.len()) as nat, |j: int| ' '));
        k = k + 1;
    }
    r.append(digits.as_str());
    r.push(' ');
    proof {
        let d = decimal(n as nat);
        if d.len() < 4 {
            assert(r@ =~= Seq::new((4 - d.len()) as nat, |j: int| ' ') + d + seq![' ']);
        } else {
            assert(Seq::new(0nat, |j: int| ' ') + d =~= d);
            assert(r@ =~= d + seq![' ']);
        }
    }
    r
}

} // verus!
