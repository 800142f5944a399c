//! Syntax-highlighted diff lines: the spans of each line with a gutter, the
//! diff marker, the highlighted code on a background by the line's kind.

use syntect::easy::HighlightLines;
use syntect::highlighting::ThemeSet;
use syntect::parsing::SyntaxSet;
use syntect::util::LinesWithEndings;
use vstd::prelude::*;
use vstd::string::StringExecFns;

use crate::diff::{kind_marker, line_views, DiffLine, DiffLineKind, DiffLineView};
use crate::screen::{gutter_label, gutter_spec};
use crate::text::{after_last, after_last_start, chars_of, string_of, trim_end_matches, trim_end_matches_at};

verus! {

/// A colour of a span.
#[derive(Debug, Clone, Copy, PartialEq, Eq, Structural)]
pub enum SpanColor {
    DarkGray,
    Green,
    Red,
    Rgb(u8, u8, u8),
}

/// A span of a highlighted diff line and how it is drawn: its foreground and
/// background (the terminal's own where `None`) and its font style.
#[derive(Debug, Clone)]
pub struct StyledSpan {
    pub text: String,
    pub fg: Option<SpanColor>,
    pub bg: Option<SpanColor>,
    pub bold: bool,
    pub italic: bool,
    pub underline: bool,
}

/// The model of a [`StyledSpan`].
pub struct SpanView {
    pub text: Seq<char>,
    pub fg: Option<SpanColor>,
    pub bg: Option<SpanColor>,
    pub bold: bool,
    pub italic: bool,
    pub underline: bool,
}

impl View for StyledSpan {
    type V = SpanView;

    open spec fn view(&self) -> SpanView {
        SpanView {
            text: self.text@,
            fg: self.fg,
            bg: self.bg,
            bold: self.bold,
            italic: self.italic,
            underline: self.underline,
        }
    }
}

pub open spec fn spans_view(v: Seq<StyledSpan>) -> Seq<SpanView> {
    v.map_values(|s: StyledSpan| s@)
}

pub open spec fn span_lines_view(v: Seq<Vec<StyledSpan>>) -> Seq<Seq<SpanView>> {
    v.map_values(|l: Vec<StyledSpan>| spans_view(l@))
}

/// A piece of a line as the highlighter gives it: the foreground
/// `(red, green, blue)`, the font-style bits (bold 1, underline 2, italic 4)
/// and the text.
pub type Piece = ((u8, u8, u8), u8, String);

pub open spec fn piece_view(p: Piece) -> ((u8, u8, u8), u8, Seq<char>) {
    (p.0, p.1, p.2@)
}

pub open spec fn pieces_view(v: Seq<Vec<Piece>>) -> Seq<Seq<((u8, u8, u8), u8, Seq<char>)>> {
    v.map_values(|l: Vec<Piece>| l@.map_values(|p: Piece| piece_view(p)))
}

/// The themes of `syntect`'s `ThemeSet::load_defaults`, by their keys.
pub open spec fn default_theme(name: Seq<char>) -> bool {
    ||| name == "base16-ocean.dark"@
    ||| name == "base16-eighties.dark"@
    ||| name == "base16-mocha.dark"@
    ||| name == "base16-ocean.light"@
    ||| name == "InspiredGitHub"@
    ||| name == "Solarized (dark)"@
    ||| name == "Solarized (light)"@
}

/// How many `'\n'` the text holds.
pub open spec fn newline_count(s: Seq<char>) -> nat
    decreases s.len(),
{
    if s.len() == 0 {
        0
    } else {
        newline_count(s.drop_last()) + if s.last() == '\n' {
            1nat
        } else {
            0nat
        }
    }
}

/// How many lines `syntect`'s `LinesWithEndings` cuts `text` into: one per
/// `'\n'`, and one more for a rest without one.
pub open spec fn lines_with_endings_count(text: Seq<char>) -> nat {
    newline_count(text) + if text.len() > 0 && text.last() != '\n' {
        1nat
    } else {
        0nat
    }
}

/// The pieces into which `syntect` cuts each line of `text` (lines ended by
/// `'\n'`, that ending kept) when it highlights it with the syntax for the
/// file extension `ext` among its default syntaxes (plain text when none has
/// it) and the default theme `theme`.
pub uninterp spec fn syntect_pieces(ext: Seq<char>, theme: Seq<char>, text: Seq<char>) -> Seq<
    Seq<((u8, u8, u8), u8, Seq<char>)>,
>;

/// The highlighter of `syntect`: `SyntaxSet::load_defaults_newlines`, its
/// `find_syntax_by_extension(ext)` or else `find_syntax_plain_text`, the
/// theme `theme` of `ThemeSet::load_defaults` (one of its keys, so the
/// lookup does not panic), and `HighlightLines::highlight_line` on each line
/// of `LinesWithEndings::from(text)`, a line that fails giving no pieces:
/// one vector of pieces per line.  The pieces are named, not spelled out.
#[verifier::external_body]
fn highlight_pieces(ext: &str, theme: &str, text: &str) -> (r: Vec<Vec<Piece>>)
    requires
        default_theme(theme@),
    ensures
        pieces_view(r@) == syntect_pieces(ext@, theme@, text@),
        r@.len() == lines_with_endings_count(text@),
{
    let ss = SyntaxSet::load_defaults_newlines();
    let ts = ThemeSet::load_defaults();
    let syntax = ss.find_syntax_by_extension(ext).unwrap_or_else(|| ss.find_syntax_plain_text());
    let mut h = HighlightLines::new(syntax, &ts.themes[theme]);
    LinesWithEndings::from(text).map(|line| {
        h.highlight_line(line, &ss).unwrap_or_default().into_iter().map(|(s, t)| {
            ((s.foreground.r, s.foreground.g, s.foreground.b), s.font_style.bits(), t.to_owned())
        }).collect()
    }).collect()
}

/// The last component of the `'/'`-separated path `p`, as `Path::file_name`
/// reads it: trailing `'/'` and `"."` components are passed over, and a last
/// component `".."`, or none, gives `None`.
pub open spec fn file_name_of(p: Seq<char>) -> Option<Seq<char>>
    decreases p.len(),
{
    let seg = after_last(p, '/');
    if seg == seq!['.', '.'] {
        None
    } else if seg.len() == 0 || seg == seq!['.'] {
        if seg.len() < p.len() {
            file_name_of(p.take(p.len() - seg.len() - 1))
        } else {
            None
        }
    } else {
        Some(seg)
    }
}

/// The extension of a file name, as `Path::extension` reads it: what follows
/// its last `'.'`, unless it has none or its only `'.'` is its first
/// character.
pub open spec fn extension_of(name: Seq<char>) -> Option<Seq<char>> {
    let after = after_last(name, '.');
    if after.len() + 1 >= name.len() {
        None
    } else {
        Some(after)
    }
}

/// The extension by which the syntax of the file `p` is looked up: its own,
/// else `"txt"`.
pub open spec fn syntax_extension(p: Seq<char>) -> Seq<char> {
    match file_name_of(p) {
        Some(n) => match extension_of(n) {
            Some(e) => e,
            None => seq!['t', 'x', 't'],
        },
        None => seq!['t', 'x', 't'],
    }
}

/// The theme the diff lines are highlighted with.
pub open spec fn diff_theme() -> Seq<char> {
    "base16-ocean.dark"@
}

/// The place `[a, b)` of the file name of the path `s`.
fn file_name_range(s: &Vec<char>) -> (r: Option<(usize, usize)>)
    ensures
        match file_name_of(s@) {
            Some(n) => r matches Some((a, b)) && a <= b <= s@.len() && s@.subrange(a as int, b as int) == n,
            None => r is None,
        },
{
    let mut e = s.len();
    proof {
        assert(s@.subrange(0, e as int) =~= s@);
    }
    loop
        invariant
            e <= s@.len(),
            file_name_of(s@.subrange(0, e as int)) == file_name_of(s@),
        decreases e,
    {
        let st = after_last_start(s, 0, e, '/');
        let ghost t = s@.subrange(0, e as int);
        let ghost seg = s@.subrange(st as int, e as int);
        proof {
            assert(seg == after_last(t, '/'));
        }
        let n = e - st;
        if n == 2 && s[st] == '.' && s[st + 1] == '.' {
            proof {
                assert(seg =~= seq!['.', '.']);
            }
            return None;
        }
        proof {
            assert(seg != seq!['.', '.']) by {
                if seg == seq!['.', '.'] {
                    assert(seg[0] == s@[st as int] && seg[1] == s@[st + 1]);
                }
            }
        }
        if n == 0 || (n == 1 && s[st] == '.') {
            proof {
                if n == 1 {
                    assert(seg =~= seq!['.']);
                }
            }
            if st == 0 {
                return None;
            }
            proof {
                assert(t.take(t.len() - seg.len() - 1) =~= s@.subrange(0, st - 1));
            }
            e = st - 1;
        } else {
            proof {
                assert(seg != seq!['.']) by {
                    if seg == seq!['.'] {
                        assert(seg[0] == s@[st as int]);
                    }
                }
            }
            return Some((st, e));
        }
    }
}

/// The extension by which the syntax of the file `path` is looked up, as
/// [`syntax_extension`] says.
pub fn file_syntax_extension(path: &str) -> (r: String)
    ensures
        r@ == syntax_extension(path@),
{
    let s = chars_of(path);
    proof {
        reveal_strlit("txt");
    }
    match file_name_range(&s) {
        Some((a, b)) => {
            let d = after_last_start(&s, a, b, '.');
            proof {
                assert(s@.subrange(d as int, b as int) == after_last(s@.subrange(a as int, b as int), '.'));
            }
            if d - a <= 1 {
                "txt".to_owned()
            } else {
                string_of(&s, d, b)
            }
        },
        None => "txt".to_owned(),
    }
}

/// The background of a line of the given kind.
pub open spec fn line_background(kind: DiffLineKind) -> Option<SpanColor> {
    match kind {
        DiffLineKind::Add => Some(SpanColor::Rgb(30, 60, 30)),
        DiffLineKind::Remove => Some(SpanColor::Rgb(60, 30, 30)),
        DiffLineKind::Context => None,
    }
}

/// The colour of the marker of a line of the given kind.
pub open spec fn marker_color(kind: DiffLineKind) -> SpanColor {
    match kind {
        DiffLineKind::Add => SpanColor::Green,
        DiffLineKind::Remove => SpanColor::Red,
        DiffLineKind::Context => SpanColor::DarkGray,
    }
}

/// A span in one colour with no background and no font style.
pub open spec fn plain_span(text: Seq<char>, fg: SpanColor) -> SpanView {
    SpanView { text, fg: Some(fg), bg: None, bold: false, italic: false, underline: false }
}

/// The spans of the highlighted pieces: each without its trailing newlines,
/// empty ones left out, in the piece's colour and font style on `bg`.
pub open spec fn piece_spans(pieces: Seq<((u8, u8, u8), u8, Seq<char>)>, bg: Option<SpanColor>) -> Seq<
    SpanView,
>
    decreases pieces.len(),
{
    if pieces.len() == 0 {
        Seq::empty()
    } else {
        let before = piece_spans(pieces.drop_last(), bg);
        let p = pieces.last();
        let text = trim_end_matches(p.2, seq!['\n']);
        if text.len() == 0 {
            before
        } else {
            before.push(
                SpanView {
                    text,
                    fg: Some(SpanColor::Rgb(p.0.0, p.0.1, p.0.2)),
                    bg,
                    bold: p.1 % 2 == 1,
                    italic: (p.1 / 4) % 2 == 1,
                    underline: (p.1 / 2) % 2 == 1,
                },
            )
        }
    }
}

/// The spans of a diff line: the line-number gutter, the marker and a space,
/// the highlighted pieces, and on added and removed lines a space that
/// carries their background to the end.
pub open spec fn line_spans(l: DiffLineView, pieces: Seq<((u8, u8, u8), u8, Seq<char>)>) -> Seq<
    SpanView,
> {
    let bg = line_background(l.kind);
    seq![
        plain_span(gutter_spec(l.new_line, l.old_line), SpanColor::DarkGray),
        plain_span(seq![kind_marker(l.kind), ' '], marker_color(l.kind)),
    ] + piece_spans(pieces, bg) + match bg {
        Some(c) => seq![
            SpanView { text: seq![' '], fg: None, bg: Some(c), bold: false, italic: false, underline: false },
        ],
        None => Seq::<SpanView>::empty(),
    }
}

/// The text given to the highlighter: each line's content and a newline.
pub open spec fn highlight_source(ls: Seq<DiffLineView>) -> Seq<char>
    decreases ls.len(),
{
    if ls.len() == 0 {
        Seq::empty()
    } else {
        highlight_source(ls.drop_last()) + ls.last().content + seq!['\n']
    }
}

fn plain(text: String, fg: SpanColor) -> (r: StyledSpan)
    ensures
        r@ == plain_span(text@, fg),
{
    StyledSpan { text, fg: Some(fg), bg: None, bold: false, italic: false, underline: false }
}

fn push_piece_spans(out: &mut Vec<StyledSpan>, pieces: &Vec<Piece>, bg: Option<SpanColor>)
    ensures
        spans_view(final(out)@) == spans_view(old(out)@) + piece_spans(
            pieces@.map_values(|p: Piece| piece_view(p)),
            bg,
        ),
{
    let ghost pv = pieces@.map_values(|p: Piece| piece_view(p));
    let ghost start = spans_view(out@);
    let nl = ['\n'];
    let mut i: usize = 0;
    proof {
        assert(pv.take(0) =~= Seq::<((u8, u8, u8), u8, Seq<char>)>::empty());
        assert(start + Seq::<SpanView>::empty() =~= start);
    }
    while i < pieces.len()
        invariant
            i <= pieces@.len(),
            pv == pieces@.map_values(|p: Piece| piece_view(p)),
            nl@ == seq!['\n'],
            spans_view(out@) == start + piece_spans(pv.take(i as int), bg),
        decreases pieces@.len() - i,
    {
        let p = &pieces[i];
        let s = chars_of(p.2.as_str());
        let e = trim_end_matches_at(&s, 0, s.len(), &nl);
        proof {
            assert(s@.subrange(0, s@.len() as int) =~= s@);
            assert(pv.take(i + 1).drop_last() =~= pv.take(i as int));
            assert(pv.take(i + 1).last() == piece_view(*p));
        }
        proof {
            assert(nl@ =~= seq!['\n']);
            assert(piece_view(*p).2 == s@);
        }
        if e > 0 {
            let text = string_of(&s, 0, e);
            let fg = SpanColor::Rgb((p.0).0, (p.0).1, (p.0).2);
            let span = StyledSpan {
                text,
                fg: Some(fg),
                bg,
                bold: p.1 % 2 == 1,
                italic: (p.1 / 4) % 2 == 1,
                underline: (p.1 / 2) % 2 == 1,
            };
            let ghost before = out@;
            proof {
                assert(span@.text == trim_end_matches(piece_view(*p).2, seq!['\n']));
                assert(piece_spans(pv.take(i + 1), bg) == piece_spans(pv.take(i as int), bg).push(span@));
            }
            out.push(span);
            proof {
                assert(spans_view(out@) =~= spans_view(before).push(span@));
                assert(spans_view(out@) =~= start + piece_spans(pv.take(i + 1), bg));
            }
        } else {
            proof {
                let t = trim_end_matches(piece_view(*p).2, seq!['\n']);
                assert(t =~= s@.subrange(0, 0));
                assert(piece_spans(pv.take(i + 1), bg) == piece_spans(pv.take(i as int), bg));
            }
        }
        i = i + 1;
    }
    proof {
        assert(pv.take(pieces@.len() as int) =~= pv);
    }
}

/// The spans of each diff line with the highlighted pieces of its text: the
/// lines and the pieces' lines are taken in pairs, as many as both have.
pub fn diff_line_spans(lines: &Vec<DiffLine>, pieces: &Vec<Vec<Piece>>) -> (r: Vec<Vec<StyledSpan>>)
    ensures
        r@.len() == if lines@.len() <= pieces@.len() {
            lines@.len()
        } else {
            pieces@.len()
        },
        forall|i: int|
            0 <= i < r@.len() ==> spans_view(#[trigger] r@[i]@) == line_spans(
                lines@[i]@,
                pieces_view(pieces@)[i],
            ),
{
    let mut r: Vec<Vec<StyledSpan>> = Vec::new();
    let mut i: usize = 0;
    while i < lines.len() && i < pieces.len()
        invariant
            i <= lines@.len(),
            i <= pieces@.len(),
            r@.len() == i,
            forall|k: int|
                0 <= k < i ==> spans_view(#[trigger] r@[k]@) == line_spans(
                    lines@[k]@,
                    pieces_view(pieces@)[k],
                ),
        decreases lines@.len() - i,
    {
        let l = &lines[i];
        let bg = match l.kind {
            DiffLineKind::Add => Some(SpanColor::Rgb(30, 60, 30)),
            DiffLineKind::Remove => Some(SpanColor::Rgb(60, 30, 30)),
            DiffLineKind::Context => None,
        };
        let fg = match l.kind {
            DiffLineKind::Add => SpanColor::Green,
            DiffLineKind::Remove => SpanColor::Red,
            DiffLineKind::Context => SpanColor::DarkGray,
        };
        let mut marker = String::new();
        marker.push(l.kind.marker());
        marker.push(' ');
        let mut spans: Vec<StyledSpan> = Vec::new();
        spans.push(plain(gutter_label(l.new_line, l.old_line), SpanColor::DarkGray));
        spans.push(plain(marker, fg));
        let ghost head = spans_view(spans@);
        push_piece_spans(&mut spans, &pieces[i], bg);
        match bg {
            Some(c) => {
                let mut pad = String::new();
                pad.push(' ');
                spans.push(StyledSpan { text: pad, fg: None, bg: Some(c), bold: false, italic: false, underline: false });
            },
            None => {},
        }
        proof {
            let lv = lines@[i as int]@;
            assert(pieces_view(pieces@)[i as int] == pieces@[i as int]@.map_values(|p: Piece| piece_view(p)));
            assert(bg == line_background(lv.kind));
            assert(marker@ =~= seq![kind_marker(lv.kind), ' ']);
            assert(head =~= seq![
                plain_span(gutter_spec(lv.new_line, lv.old_line), SpanColor::DarkGray),
                plain_span(seq![kind_marker(lv.kind), ' '], marker_color(lv.kind)),
            ]);
            assert(spans_view(spans@) =~= line_spans(lv, pieces_view(pieces@)[i as int]));
        }
        r.push(spans);
        i = i + 1;
    }
    r
}

/// No line holds a `'\n'` in its content.
pub open spec fn single_line_contents(ls: Seq<DiffLineView>) -> bool {
    forall|i: int, k: int|
        0 <= i < ls.len() && 0 <= k < ls[i].content.len() ==> #[trigger] ls[i].content[k] != '\n'
}

proof fn lemma_newline_count_concat(a: Seq<char>, b: Seq<char>)
    ensures
        newline_count(a + b) == newline_count(a) + newline_count(b),
    decreases b.len(),
{
    if b.len() == 0 {
        assert(a + b =~= a);
    } else {
        lemma_newline_count_concat(a, b.drop_last());
        assert((a + b).drop_last() =~= a + b.drop_last());
    }
}

proof fn lemma_no_newline(s: Seq<char>)
    requires
        forall|k: int| 0 <= k < s.len() ==> s[k] != '\n',
    ensures
        newline_count(s) == 0,
    decreases s.len(),
{
    if s.len() > 0 {
        lemma_no_newline(s.drop_last());
    }
}

/// The text of lines whose contents hold no `'\n'` is cut back into as many
/// lines.
proof fn lemma_source_line_count(ls: Seq<DiffLineView>)
    requires
        single_line_contents(ls),
    ensures
        lines_with_endings_count(highlight_source(ls)) == ls.len(),
        newline_count(highlight_source(ls)) == ls.len(),
    decreases ls.len(),
{
    if ls.len() > 0 {
        let init = ls.drop_last();
        assert(single_line_contents(init)) by {
            assert forall|i: int, k: int| 0 <= i < init.len() && 0 <= k < init[i].content.len() implies #[trigger] init[i].content[k] != '\n' by {
                assert(init[i] == ls[i]);
            }
        }
        lemma_source_line_count(init);
        let c = ls.last().content;
        assert forall|k: int| 0 <= k < c.len() implies c[k] != '\n' by {
            assert(ls[ls.len() - 1].content[k] != '\n');
        }
        lemma_no_newline(c);
        lemma_newline_count_concat(highlight_source(init), c);
        lemma_newline_count_concat(highlight_source(init) + c, seq!['\n']);
        assert(newline_count(seq!['\n']) == 1) by {
            let nl = seq!['\n'];
            assert(nl.drop_last() =~= Seq::<char>::empty());
            assert(newline_count(Seq::<char>::empty()) == 0);
            assert(nl.last() == '\n');
        }
        assert(highlight_source(ls) == highlight_source(init) + c + seq!['\n']);
    }
}

/// Highlight diff lines of the file `file_path`: the text of all the lines
/// is highlighted at once, so that a construct spanning lines is coloured as
/// a whole, and each line gets its spans from its own pieces.
pub fn highlight_diff_lines(file_path: &str, lines: &Vec<DiffLine>) -> (r: Vec<Vec<StyledSpan>>)
    ensures
        ({
            let pieces = syntect_pieces(
                syntax_extension(file_path@),
                diff_theme(),
                highlight_source(line_views(lines@)),
            );
            &&& r@.len() == if lines@.len() <= pieces.len() {
                lines@.len()
            } else {
                pieces.len()
            }
            &&& forall|i: int|
                0 <= i < r@.len() ==> spans_view(#[trigger] r@[i]@) == line_spans(lines@[i]@, pieces[i])
            &&& single_line_contents(line_views(lines@)) ==> r@.len() == lines@.len()
        }),
{
    let mut text = String::new();
    let mut i: usize = 0;
    proof {
        assert(line_views(lines@).take(0) =~= Seq::<DiffLineView>::empty());
    }
    while i < lines.len()
        invariant
            i <= lines@.len(),
            text@ == highlight_source(line_views(lines@).take(i as int)),
        decreases lines@.len() - i,
    {
        text.append(lines[i].content.as_str());
        text.push('\n');
        proof {
            let v = line_views(lines@);
            assert(v.take(i + 1).drop_last() =~= v.take(i as int));
            assert(text@ =~= highlight_source(v.take(i + 1)));
        }
        i = i + 1;
    }
    proof {
        assert(line_views(lines@).take(lines@.len() as int) =~= line_views(lines@));
    }
    proof {
        if single_line_contents(line_views(lines@)) {
            lemma_source_line_count(line_views(lines@));
        }
    }
    let ext = file_syntax_extension(file_path);
    let pieces = highlight_pieces(ext.as_str(), "base16-ocean.dark", text.as_str());
    diff_line_spans(lines, &pieces)
}

} // verus!
