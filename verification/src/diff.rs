//! Parser for unified diff text, and extraction of the code around a line.

use vstd::prelude::*;

use crate::text::{
    before_char, before_char_end, chars_of, decimal, has_prefix, line_ranges, parse_bounded, parse_bounded_at, piece, pieces, spec_lines,
    starts_with_at, string_of, token_ranges, ws_tokens,
};

verus! {

/// Whether a diff line is an addition, removal, or context.
#[derive(Debug, Clone, Copy, PartialEq, Eq, Structural)]
pub enum DiffLineKind {
    Add,
    Remove,
    Context,
}

/// The marker that starts a diff line of this kind.
pub open spec fn kind_marker(kind: DiffLineKind) -> char {
    match kind {
        DiffLineKind::Add => '+',
        DiffLineKind::Remove => '-',
        DiffLineKind::Context => ' ',
    }
}

impl DiffLineKind {
    /// The marker that starts a diff line of this kind: `'+'`, `'-'` or `' '`.
    pub fn marker(self) -> (c: char)
        ensures
            c == kind_marker(self),
    {
        match self {
            DiffLineKind::Add => '+',
            DiffLineKind::Remove => '-',
            DiffLineKind::Context => ' ',
        }
    }
}

/// A single line from a unified diff.
#[derive(Debug, Clone)]
pub struct DiffLine {
    /// The content of the line (without the leading +/-/space marker).
    pub content: String,
    /// Line number in the new file, if applicable.
    pub new_line: Option<usize>,
    /// Line number in the old file, if applicable.
    pub old_line: Option<usize>,
    /// The kind of diff line.
    pub kind: DiffLineKind,
}

/// The mathematical value of a [`DiffLine`].
pub struct DiffLineView {
    pub content: Seq<char>,
    pub new_line: Option<usize>,
    pub old_line: Option<usize>,
    pub kind: DiffLineKind,
}

impl View for DiffLine {
    type V = DiffLineView;

    open spec fn view(&self) -> DiffLineView {
        DiffLineView {
            content: self.content@,
            new_line: self.new_line,
            old_line: self.old_line,
            kind: self.kind,
        }
    }
}

/// The diff lines recorded for one file.
#[derive(Debug, Clone)]
pub struct FileDiff {
    /// Path of the file in the new revision.
    pub path: String,
    /// Its diff lines, in the order of the diff text.
    pub lines: Vec<DiffLine>,
}

/// Parsed diff data: maps file paths to their diff lines.
#[derive(Debug)]
pub struct ParsedDiff {
    /// One entry per file path, in the order the paths first appear.
    pub files: Vec<FileDiff>,
}

pub open spec fn line_views(v: Seq<DiffLine>) -> Seq<DiffLineView> {
    v.map_values(|l: DiffLine| l@)
}

/// The association list of file paths and their lines.
pub open spec fn entries_of(v: Seq<FileDiff>) -> Seq<(Seq<char>, Seq<DiffLineView>)> {
    v.map_values(|f: FileDiff| (f.path@, line_views(f.lines@)))
}

/// The index of the first entry for `path`.
pub open spec fn find_file(files: Seq<(Seq<char>, Seq<DiffLineView>)>, path: Seq<char>) -> Option<
    int,
>
    decreases files.len(),
{
    if files.len() == 0 {
        None
    } else {
        match find_file(files.drop_last(), path) {
            Some(i) => Some(i),
            None => if files.last().0 == path {
                Some(files.len() - 1)
            } else {
                None
            },
        }
    }
}

/// The map from each path to the lines of its first entry.
pub open spec fn files_map(files: Seq<(Seq<char>, Seq<DiffLineView>)>) -> Map<
    Seq<char>,
    Seq<DiffLineView>,
> {
    Map::new(|k: Seq<char>| find_file(files, k) is Some, |k: Seq<char>| files[find_file(files, k)->0].1)
}

impl View for ParsedDiff {
    type V = Map<Seq<char>, Seq<DiffLineView>>;

    open spec fn view(&self) -> Map<Seq<char>, Seq<DiffLineView>> {
        files_map(entries_of(self.files@))
    }
}

pub proof fn lemma_find_file(files: Seq<(Seq<char>, Seq<DiffLineView>)>, path: Seq<char>)
    ensures
        match find_file(files, path) {
            Some(i) => 0 <= i < files.len() && files[i].0 == path && forall|k: int|
                0 <= k < i ==> files[k].0 != path,
            None => forall|k: int| 0 <= k < files.len() ==> files[k].0 != path,
        },
    decreases files.len(),
{
    if files.len() > 0 {
        let d = files.drop_last();
        lemma_find_file(d, path);
        assert(forall|k: int| 0 <= k < d.len() ==> d[k] == files[k]);
    }
}

/// `find_file` only looks at the keys.
pub proof fn lemma_find_file_keys(
    a: Seq<(Seq<char>, Seq<DiffLineView>)>,
    b: Seq<(Seq<char>, Seq<DiffLineView>)>,
    path: Seq<char>,
)
    requires
        a.len() == b.len(),
        forall|k: int| 0 <= k < a.len() ==> a[k].0 == b[k].0,
    ensures
        find_file(a, path) == find_file(b, path),
    decreases a.len(),
{
    if a.len() > 0 {
        lemma_find_file_keys(a.drop_last(), b.drop_last(), path);
    }
}

// ---------------------------------------------------------------------------
// Specification of the parse
// ---------------------------------------------------------------------------

/// A hunk header field `-start[,count]` or `+start[,count]`: its start.
pub open spec fn hunk_field(tok: Seq<char>, sign: char) -> Option<nat> {
    if tok.len() > 0 && tok[0] == sign {
        parse_bounded(before_char(tok.skip(1), ','), usize::MAX as nat)
    } else {
        None
    }
}

/// `(old_start, new_start)` of a hunk header `@@ -o[,c] +n[,c] @@`: the
/// second and third white-space separated tokens, of at least four.
pub open spec fn hunk_header(line: Seq<char>) -> Option<(nat, nat)> {
    let toks = ws_tokens(line);
    if toks.len() < 4 {
        None
    } else {
        match (hunk_field(toks[1], '-'), hunk_field(toks[2], '+')) {
            (Some(o), Some(n)) => Some((o, n)),
            _ => None,
        }
    }
}

/// The state of the parse after some lines.
pub struct DiffScan {
    /// Paths and their lines, in order of first appearance.
    pub files: Seq<(Seq<char>, Seq<DiffLineView>)>,
    /// The entry of the current file, if a file header was seen.
    pub current: Option<int>,
    /// Next line number in the old file.
    pub old: int,
    /// Next line number in the new file.
    pub new: int,
    /// No line counter has been incremented past `usize::MAX`.
    pub fits: bool,
}

pub open spec fn scan_start() -> DiffScan {
    DiffScan { files: Seq::empty(), current: None, old: 0, new: 0, fits: true }
}

pub open spec fn add_line(
    files: Seq<(Seq<char>, Seq<DiffLineView>)>,
    i: int,
    l: DiffLineView,
) -> Seq<(Seq<char>, Seq<DiffLineView>)> {
    files.update(i, (files[i].0, files[i].1.push(l)))
}

/// One line of the diff text.
pub open spec fn scan_line(st: DiffScan, line: Seq<char>) -> DiffScan {
    if has_prefix(line, seq!['+', '+', '+', ' ']) {
        let rest = line.skip(4);
        let path = if has_prefix(rest, seq!['b', '/']) {
            rest.skip(2)
        } else {
            rest
        };
        match find_file(st.files, path) {
            Some(i) => DiffScan { current: Some(i), ..st },
            None => DiffScan {
                files: st.files.push((path, Seq::empty())),
                current: Some(st.files.len() as int),
                ..st
            },
        }
    } else if has_prefix(line, seq!['-', '-', '-', ' ']) {
        st
    } else if has_prefix(line, seq!['@', '@', ' ']) {
        match hunk_header(line) {
            Some((o, n)) => DiffScan { old: o as int, new: n as int, ..st },
            None => st,
        }
    } else {
        match st.current {
            None => st,
            Some(i) => if line.len() > 0 && line[0] == '+' {
                DiffScan {
                    files: add_line(
                        st.files,
                        i,
                        DiffLineView {
                            content: line.skip(1),
                            new_line: Some(st.new as usize),
                            old_line: None,
                            kind: DiffLineKind::Add,
                        },
                    ),
                    new: st.new + 1,
                    fits: st.fits && st.new < usize::MAX,
                    ..st
                }
            } else if line.len() > 0 && line[0] == '-' {
                DiffScan {
                    files: add_line(
                        st.files,
                        i,
                        DiffLineView {
                            content: line.skip(1),
                            new_line: None,
                            old_line: Some(st.old as usize),
                            kind: DiffLineKind::Remove,
                        },
                    ),
                    old: st.old + 1,
                    fits: st.fits && st.old < usize::MAX,
                    ..st
                }
            } else if line.len() > 0 && line[0] == ' ' {
                DiffScan {
                    files: add_line(
                        st.files,
                        i,
                        DiffLineView {
                            content: line.skip(1),
                            new_line: Some(st.new as usize),
                            old_line: Some(st.old as usize),
                            kind: DiffLineKind::Context,
                        },
                    ),
                    new: st.new + 1,
                    old: st.old + 1,
                    fits: st.fits && st.new < usize::MAX && st.old < usize::MAX,
                    ..st
                }
            } else {
                st
            },
        }
    }
}

/// The parse of a sequence of lines.
pub open spec fn scan_lines(lines: Seq<Seq<char>>) -> DiffScan
    decreases lines.len(),
{
    if lines.len() == 0 {
        scan_start()
    } else {
        scan_line(scan_lines(lines.drop_last()), lines.last())
    }
}

/// The parse of a diff text.
pub open spec fn scan_diff(raw: Seq<char>) -> DiffScan {
    scan_lines(spec_lines(raw))
}

/// The line counters of the parse of `raw` never pass `usize::MAX` (an
/// increment past it would overflow).
pub open spec fn diff_counters_fit(raw: Seq<char>) -> bool {
    scan_diff(raw).fits
}

/// What `parse_unified_diff` gives for `raw`.
pub open spec fn spec_parse_unified_diff(raw: Seq<char>) -> Map<Seq<char>, Seq<DiffLineView>> {
    files_map(scan_diff(raw).files)
}

proof fn lemma_fits_prefix(lines: Seq<Seq<char>>, k: int)
    requires
        0 <= k <= lines.len(),
        !scan_lines(lines.take(k)).fits,
    ensures
        !scan_lines(lines).fits,
    decreases lines.len(),
{
    if k < lines.len() {
        assert(lines.drop_last().take(k) =~= lines.take(k));
        lemma_fits_prefix(lines.drop_last(), k);
    } else {
        assert(lines.take(k) =~= lines);
    }
}


// ---------------------------------------------------------------------------
// The parse
// ---------------------------------------------------------------------------

/// The start of a hunk header field `s[a..b]` signed with `sign`.
fn hunk_field_at(s: &Vec<char>, a: usize, b: usize, sign: char) -> (r: Option<usize>)
    requires
        a <= b <= s@.len(),
    ensures
        match hunk_field(s@.subrange(a as int, b as int), sign) {
            Some(v) => r == Some(v as usize),
            None => r is None,
        },
{
    if a < b && s[a] == sign {
        let ghost t = s@.subrange(a as int, b as int);
        proof {
            assert(t.skip(1) =~= s@.subrange(a + 1, b as int));
        }
        let e = before_char_end(s, a + 1, b, ',');
        match parse_bounded_at(s, a + 1, e, usize::MAX as u64) {
            Some(v) => Some(v as usize),
            None => None,
        }
    } else {
        None
    }
}

/// Parses a hunk header like `@@ -1,3 +1,5 @@` in `s[a..b]` and returns
/// `(old_start, new_start)`.
fn hunk_header_at(s: &Vec<char>, a: usize, b: usize) -> (r: Option<(usize, usize)>)
    requires
        a <= b <= s@.len(),
    ensures
        match hunk_header(s@.subrange(a as int, b as int)) {
            Some((o, n)) => r == Some((o as usize, n as usize)),
            None => r is None,
        },
{
    let toks = token_ranges(s, a, b);
    proof {
        let ts = ws_tokens(s@.subrange(a as int, b as int));
        assert(ts.len() == toks@.len());
        if toks@.len() >= 4 {
            assert(ts[1] == piece(s@, toks@[1]));
            assert(ts[2] == piece(s@, toks@[2]));
        }
    }
    if toks.len() < 4 {
        return None;
    }
    let old_start = hunk_field_at(s, toks[1].0, toks[1].1, '-');
    let new_start = hunk_field_at(s, toks[2].0, toks[2].1, '+');
    match (old_start, new_start) {
        (Some(o), Some(n)) => Some((o, n)),
        _ => None,
    }
}

/// Parses a hunk header like `@@ -1,3 +1,5 @@` and returns
/// `(old_start, new_start)`: of at least four white-space separated tokens,
/// the second must be `-` and the third `+`, each followed by a start that
/// `usize` parses, up to an optional `,count`.
pub fn parse_hunk_header(line: &str) -> (r: Option<(usize, usize)>)
    ensures
        match hunk_header(line@) {
            Some((o, n)) => r == Some((o as usize, n as usize)),
            None => r is None,
        },
{
    let s = chars_of(line);
    proof {
        assert(s@.subrange(0, s@.len() as int) =~= s@);
    }
    hunk_header_at(&s, 0, s.len())
}

/// The first entry of `files` whose path is `path`.
fn find_file_index(files: &Vec<FileDiff>, path: &String) -> (r: Option<usize>)
    ensures
        match r {
            Some(i) => find_file(entries_of(files@), path@) == Some(i as int),
            None => find_file(entries_of(files@), path@) is None,
        },
{
    let ghost es = entries_of(files@);
    proof {
        lemma_find_file(es, path@);
    }
    let mut i: usize = 0;
    while i < files.len()
        invariant
            i <= files@.len(),
            es == entries_of(files@),
            es.len() == files@.len(),
            forall|k: int| 0 <= k < i ==> es[k].0 != path@,
            match find_file(es, path@) {
                Some(j) => 0 <= j < es.len() && es[j].0 == path@ && forall|k: int|
                    0 <= k < j ==> es[k].0 != path@,
                None => forall|k: int| 0 <= k < es.len() ==> es[k].0 != path@,
            },
        decreases files@.len() - i,
    {
        if files[i].path == *path {
            proof {
                assert(es[i as int].0 == path@);
            }
            return Some(i);
        }
        proof {
            assert(es[i as int].0 != path@);
        }
        i = i + 1;
    }
    None
}

proof fn lemma_add_line(files: Seq<FileDiff>, i: int, l: DiffLine, nf: Seq<FileDiff>)
    requires
        0 <= i < files.len(),
        nf.len() == files.len(),
        nf[i].path@ == files[i].path@,
        nf[i].lines@ == files[i].lines@.push(l),
        forall|k: int| 0 <= k < files.len() && k != i ==> nf[k] == files[k],
    ensures
        entries_of(nf) == add_line(entries_of(files), i, l@),
{
    assert(line_views(nf[i].lines@) =~= line_views(files[i].lines@).push(l@));
    assert(entries_of(nf) =~= add_line(entries_of(files), i, l@));
}

/// Makes the entry for `path` current, adding an empty one if there is none.
fn open_file(files: &mut Vec<FileDiff>, path: String) -> (i: usize)
    ensures
        i < final(files)@.len(),
        match find_file(entries_of(old(files)@), path@) {
            Some(j) => i == j && final(files)@ == old(files)@,
            None => i == old(files)@.len() && entries_of(final(files)@) == entries_of(
                old(files)@,
            ).push((path@, Seq::<DiffLineView>::empty())),
        },
{
    proof {
        lemma_find_file(entries_of(files@), path@);
    }
    match find_file_index(files, &path) {
        Some(i) => i,
        None => {
            let ghost before = files@;
            let ghost pv = path@;
            files.push(FileDiff { path, lines: Vec::new() });
            proof {
                assert(line_views(files@.last().lines@) =~= Seq::<DiffLineView>::empty());
                assert(entries_of(files@) =~= entries_of(before).push((pv, Seq::<DiffLineView>::empty())));
            }
            files.len() - 1
        },
    }
}

/// The parse of `raw`, or `None` where a line counter would pass `usize::MAX`.
fn scan_unified_diff(raw: &str) -> (r: Option<ParsedDiff>)
    ensures
        match r {
            Some(p) => diff_counters_fit(raw@) && entries_of(p.files@) == scan_diff(raw@).files,
            None => !diff_counters_fit(raw@),
        },
{
    let s = chars_of(raw);
    let ranges = line_ranges(&s);
    let ghost ls = spec_lines(s@);
    let mut files: Vec<FileDiff> = Vec::new();
    let mut current: Option<usize> = None;
    let mut old_n: usize = 0;
    let mut new_n: usize = 0;
    let mut k: usize = 0;
    proof {
        assert(ls.take(0) =~= Seq::<Seq<char>>::empty());
        assert(entries_of(files@) =~= Seq::<(Seq<char>, Seq<DiffLineView>)>::empty());
    }
    while k < ranges.len()
        invariant
            s@ == raw@,
            ls == spec_lines(s@),
            pieces(s@, ranges@) == ls,
            forall|j: int| 0 <= j < ranges@.len() ==> 0 <= #[trigger] ranges@[j].0 <= ranges@[j].1 <= s@.len(),
            k <= ranges@.len(),
            scan_lines(ls.take(k as int)).fits,
            entries_of(files@) == scan_lines(ls.take(k as int)).files,
            old_n == scan_lines(ls.take(k as int)).old,
            new_n == scan_lines(ls.take(k as int)).new,
            match current {
                Some(i) => scan_lines(ls.take(k as int)).current == Some(i as int) && i < files@.len(),
                None => scan_lines(ls.take(k as int)).current is None,
            },
        decreases ranges@.len() - k,
    {
        let (a, b) = ranges[k];
        let ghost line = s@.subrange(a as int, b as int);
        let ghost st = scan_lines(ls.take(k as int));
        proof {
            assert(ls[k as int] == line);
            assert(ls.take(k + 1).drop_last() =~= ls.take(k as int));
            assert(ls.take(k + 1).last() == line);
        }
        if starts_with_at(&s, a, b, &['+', '+', '+', ' ']) {
            assert(line.skip(4) =~= s@.subrange(a + 4, b as int));
            let mut pa = a + 4;
            if starts_with_at(&s, pa, b, &['b', '/']) {
                assert(line.skip(4).skip(2) =~= s@.subrange(a + 6, b as int));
                pa = pa + 2;
            }
            let path = string_of(&s, pa, b);
            proof {
                let rest = line.skip(4);
                let spath = if has_prefix(rest, seq!['b', '/']) {
                    rest.skip(2)
                } else {
                    rest
                };
                assert(path@ == spath);
            }
            current = Some(open_file(&mut files, path));
        } else if starts_with_at(&s, a, b, &['-', '-', '-', ' ']) {
            // The old file's header names nothing the parse keeps.
        } else if starts_with_at(&s, a, b, &['@', '@', ' ']) {
            if let Some((o, n)) = hunk_header_at(&s, a, b) {
                old_n = o;
                new_n = n;
            }
        } else if let Some(i) = current {
            if a < b && (s[a] == '+' || s[a] == '-' || s[a] == ' ') {
                let c = s[a];
                assert(line.skip(1) =~= s@.subrange(a + 1, b as int));
                let content = string_of(&s, a + 1, b);
                let dl = if c == '+' {
                    if new_n == usize::MAX {
                        proof {
                            lemma_fits_prefix(ls, k + 1);
                        }
                        return None;
                    }
                    let dl = DiffLine { content, new_line: Some(new_n), old_line: None, kind: DiffLineKind::Add };
                    new_n = new_n + 1;
                    dl
                } else if c == '-' {
                    if old_n == usize::MAX {
                        proof {
                            lemma_fits_prefix(ls, k + 1);
                        }
                        return None;
                    }
                    let dl = DiffLine { content, new_line: None, old_line: Some(old_n), kind: DiffLineKind::Remove };
                    old_n = old_n + 1;
                    dl
                } else {
                    if new_n == usize::MAX || old_n == usize::MAX {
                        proof {
                            lemma_fits_prefix(ls, k + 1);
                        }
                        return None;
                    }
                    let dl = DiffLine {
                        content,
                        new_line: Some(new_n),
                        old_line: Some(old_n),
                        kind: DiffLineKind::Context,
                    };
                    new_n = new_n + 1;
                    old_n = old_n + 1;
                    dl
                };
                let ghost before = files@;
                let ghost dlv = dl;
                files[i].lines.push(dl);
                proof {
                    lemma_add_line(before, i as int, dlv, files@);
                }
            }
        }
        k = k + 1;
    }
    proof {
        assert(ls.take(ranges@.len() as int) =~= ls);
    }
    Some(ParsedDiff { files })
}

/// Parse raw unified diff text into a [`ParsedDiff`].
///
/// Each `"+++ "` header starts (or returns to) the file it names, without a
/// leading `"b/"`; `"--- "` lines are skipped; `"@@ "` hunk headers reset the
/// line counters; `'+'`, `'-'` and `' '` lines of the current file are
/// recorded with their line numbers; every other line is skipped.
pub fn parse_unified_diff(raw: &str) -> (r: ParsedDiff)
    requires
        diff_counters_fit(raw@),
    ensures
        r@ == spec_parse_unified_diff(raw@),
        entries_of(r.files@) == scan_diff(raw@).files,
        distinct_paths(r.files@),
{
    proof {
        lemma_scan_paths_distinct(raw@);
    }
    match scan_unified_diff(raw) {
        Some(p) => p,
        None => {
            proof {
                assert(false);
            }
            ParsedDiff { files: Vec::new() }
        },
    }
}

/// [`parse_unified_diff`] for every text: `None` exactly where a line counter
/// would be incremented past `usize::MAX`.
pub fn try_parse_unified_diff(raw: &str) -> (r: Option<ParsedDiff>)
    ensures
        r is Some <==> diff_counters_fit(raw@),
        r matches Some(p) ==> p@ == spec_parse_unified_diff(raw@) && entries_of(p.files@)
            == scan_diff(raw@).files && distinct_paths(p.files@),
{
    proof {
        lemma_scan_paths_distinct(raw@);
    }
    scan_unified_diff(raw)
}

/// No two files have the same path.
pub open spec fn distinct_paths(files: Seq<FileDiff>) -> bool {
    forall|i: int, j: int|
        #![trigger files[i], files[j]]
        0 <= i < files.len() && 0 <= j < files.len() && i != j ==> files[i].path@ != files[j].path@
}

/// The files of a parse have distinct paths.
proof fn lemma_scan_paths_distinct(raw: Seq<char>)
    ensures
        forall|files: Seq<FileDiff>| entries_of(files) == scan_diff(raw).files ==> #[trigger] distinct_paths(files),
{
    lemma_scan_matches_lines(spec_lines(raw));
    assert forall|files: Seq<FileDiff>| entries_of(files) == scan_diff(raw).files implies #[trigger] distinct_paths(files) by {
        let es = entries_of(files);
        assert forall|i: int, j: int|
            #![trigger files[i], files[j]]
            0 <= i < files.len() && 0 <= j < files.len() && i != j implies files[i].path@ != files[j].path@ by {
            assert(es[i].0 == files[i].path@ && es[j].0 == files[j].path@);
            assert(es[i] == scan_diff(raw).files[i] && es[j] == scan_diff(raw).files[j]);
        }
    }
}


// ---------------------------------------------------------------------------
// Looking up files
// ---------------------------------------------------------------------------

impl ParsedDiff {
    /// A parsed diff without files.
    pub fn new() -> (r: ParsedDiff)
        ensures
            r@ == Map::<Seq<char>, Seq<DiffLineView>>::empty(),
            r.files@.len() == 0,
    {
        let r = ParsedDiff { files: Vec::new() };
        assert(r@ =~= Map::<Seq<char>, Seq<DiffLineView>>::empty());
        r
    }

    /// The diff lines recorded for `path`, if the diff names that file.
    pub fn get(&self, path: &str) -> (r: Option<&Vec<DiffLine>>)
        ensures
            match r {
                Some(v) => self@.contains_key(path@) && line_views(v@) == self@[path@],
                None => !self@.contains_key(path@),
            },
    {
        let key = path.to_owned();
        match find_file_index(&self.files, &key) {
            Some(i) => {
                proof {
                    lemma_find_file(entries_of(self.files@), path@);
                }
                Some(&self.files[i].lines)
            },
            None => None,
        }
    }

    /// Whether the diff names the file `path`.
    pub fn contains_key(&self, path: &str) -> (r: bool)
        ensures
            r == self@.contains_key(path@),
    {
        self.get(path).is_some()
    }
}

impl Default for ParsedDiff {
    fn default() -> (r: ParsedDiff)
        ensures
            r@ == Map::<Seq<char>, Seq<DiffLineView>>::empty(),
            r.files@.len() == 0,
    {
        ParsedDiff::new()
    }
}

// ---------------------------------------------------------------------------
// Code context around a line
// ---------------------------------------------------------------------------

/// The index of the first line whose new-file number is `target`.
pub open spec fn first_new_line(lines: Seq<DiffLineView>, target: usize) -> Option<int>
    decreases lines.len(),
{
    if lines.len() == 0 {
        None
    } else {
        match first_new_line(lines.drop_last(), target) {
            Some(i) => Some(i),
            None => if lines.last().new_line == Some(target) {
                Some(lines.len() - 1)
            } else {
                None
            },
        }
    }
}

pub proof fn lemma_first_new_line(lines: Seq<DiffLineView>, target: usize)
    ensures
        match first_new_line(lines, target) {
            Some(i) => 0 <= i < lines.len() && lines[i].new_line == Some(target) && forall|k: int|
                0 <= k < i ==> lines[k].new_line != Some(target),
            None => forall|k: int| 0 <= k < lines.len() ==> lines[k].new_line != Some(target),
        },
    decreases lines.len(),
{
    if lines.len() > 0 {
        let d = lines.drop_last();
        lemma_first_new_line(d, target);
        assert(forall|k: int| 0 <= k < d.len() ==> d[k] == lines[k]);
    }
}

/// The lines from `context` before to `context` after the first line whose
/// new-file number is `target`, cut at both ends of `lines`.
pub open spec fn context_window(lines: Seq<DiffLineView>, target: usize, context: usize) -> Seq<
    DiffLineView,
> {
    match first_new_line(lines, target) {
        None => Seq::empty(),
        Some(i) => {
            let start = if i >= context {
                i - context
            } else {
                0
            };
            let end = if i + context + 1 <= lines.len() {
                i + context + 1
            } else {
                lines.len() as int
            };
            lines.subrange(start, end)
        },
    }
}

/// What `extract_context` gives.
pub open spec fn spec_extract_context(
    diff: Map<Seq<char>, Seq<DiffLineView>>,
    path: Seq<char>,
    target: usize,
    context: usize,
) -> Seq<DiffLineView> {
    if diff.contains_key(path) {
        context_window(diff[path], target, context)
    } else {
        Seq::empty()
    }
}

/// The end of the window, `index + context + 1`, fits in a `usize`.
pub open spec fn extract_context_fits(
    diff: Map<Seq<char>, Seq<DiffLineView>>,
    path: Seq<char>,
    target: usize,
    context: usize,
) -> bool {
    diff.contains_key(path) ==> match first_new_line(diff[path], target) {
        Some(i) => i + context + 1 <= usize::MAX,
        None => true,
    }
}

fn copy_line(l: &DiffLine) -> (r: DiffLine)
    ensures
        r@ == l@,
{
    DiffLine { content: l.content.clone(), new_line: l.new_line, old_line: l.old_line, kind: l.kind }
}

/// Extract lines from a parsed diff around a given new-file line number,
/// with `context` lines above and below. Returns the matching [`DiffLine`]s.
pub fn extract_context(diff: &ParsedDiff, file_path: &str, target_new_line: usize, context: usize) -> (r: Vec<DiffLine>)
    requires
        extract_context_fits(diff@, file_path@, target_new_line, context),
    ensures
        line_views(r@) == spec_extract_context(diff@, file_path@, target_new_line, context),
{
    let lines = match diff.get(file_path) {
        Some(l) => l,
        None => {
            assert(line_views(Seq::<DiffLine>::empty()) =~= Seq::<DiffLineView>::empty());
            return Vec::new();
        },
    };
    let ghost lv = line_views(lines@);
    proof {
        lemma_first_new_line(lv, target_new_line);
    }
    let mut idx: usize = 0;
    while idx < lines.len() && lines[idx].new_line != Some(target_new_line)
        invariant
            idx <= lines@.len(),
            lv == line_views(lines@),
            lv.len() == lines@.len(),
            forall|k: int| 0 <= k < idx ==> lv[k].new_line != Some(target_new_line),
            match first_new_line(lv, target_new_line) {
                Some(i) => 0 <= i < lv.len() && lv[i].new_line == Some(target_new_line) && forall|k: int|
                    0 <= k < i ==> lv[k].new_line != Some(target_new_line),
                None => forall|k: int| 0 <= k < lv.len() ==> lv[k].new_line != Some(target_new_line),
            },
        decreases lines@.len() - idx,
    {
        assert(lv[idx as int] == lines@[idx as int]@);
        idx = idx + 1;
    }
    if idx == lines.len() {
        assert(line_views(Seq::<DiffLine>::empty()) =~= Seq::<DiffLineView>::empty());
        return Vec::new();
    }
    assert(lv[idx as int] == lines@[idx as int]@);
    assert(lv[idx as int].new_line == Some(target_new_line));
    assert(first_new_line(lv, target_new_line) == Some(idx as int));
    let start = if idx >= context {
        idx - context
    } else {
        0
    };
    let end = if context < lines.len() - idx {
        idx + context + 1
    } else {
        lines.len()
    };
    let mut out: Vec<DiffLine> = Vec::new();
    let mut j = start;
    while j < end
        invariant
            start <= j <= end <= lines@.len(),
            lv == line_views(lines@),
            lv.len() == lines@.len(),
            line_views(out@) == lv.subrange(start as int, j as int),
        decreases end - j,
    {
        let l = copy_line(&lines[j]);
        let ghost before = out@;
        out.push(l);
        assert(lv[j as int] == lines@[j as int]@);
        assert(line_views(out@) =~= line_views(before).push(l@));
        assert(line_views(out@) =~= lv.subrange(start as int, j + 1));
        j = j + 1;
    }
    out
}


// ---------------------------------------------------------------------------
// Properties of the parse and of the context window
// ---------------------------------------------------------------------------

/// The path a `"+++ "` file header line names.
pub open spec fn header_path(line: Seq<char>) -> Option<Seq<char>> {
    if has_prefix(line, seq!['+', '+', '+', ' ']) {
        let rest = line.skip(4);
        Some(
            if has_prefix(rest, seq!['b', '/']) {
                rest.skip(2)
            } else {
                rest
            },
        )
    } else {
        None
    }
}

/// Some line of `lines` is a file header naming `path`.
pub open spec fn names_file(lines: Seq<Seq<char>>, path: Seq<char>) -> bool {
    exists|k: int| 0 <= k < lines.len() && header_path(#[trigger] lines[k]) == Some(path)
}

/// A diff line carries the line numbers its kind calls for: an addition only
/// a new-file number, a removal only an old-file number, context both.
pub open spec fn numbered_by_kind(l: DiffLineView) -> bool {
    match l.kind {
        DiffLineKind::Add => l.new_line is Some && l.old_line is None,
        DiffLineKind::Remove => l.new_line is None && l.old_line is Some,
        DiffLineKind::Context => l.new_line is Some && l.old_line is Some,
    }
}

pub open spec fn all_numbered(files: Seq<(Seq<char>, Seq<DiffLineView>)>) -> bool {
    forall|i: int, k: int|
        0 <= i < files.len() && 0 <= k < files[i].1.len() ==> numbered_by_kind(
            #[trigger] files[i].1[k],
        )
}

proof fn lemma_scan_invariants(lines: Seq<Seq<char>>)
    ensures
        all_numbered(scan_lines(lines).files),
        scan_lines(lines).current matches Some(i) ==> 0 <= i < scan_lines(lines).files.len(),
    decreases lines.len(),
{
    if lines.len() > 0 {
        let init = lines.drop_last();
        lemma_scan_invariants(init);
        let st = scan_lines(init);
        lemma_find_file(st.files, header_path(lines.last()).unwrap_or(Seq::empty()));
        let st2 = scan_lines(lines);
        assert forall|i: int, k: int|
            0 <= i < st2.files.len() && 0 <= k < st2.files[i].1.len() implies numbered_by_kind(
            #[trigger] st2.files[i].1[k],
        ) by {
            if i < st.files.len() && k < st.files[i].1.len() {
                assert(st.files[i].1[k] == st2.files[i].1[k]);
            }
        }
    }
}

proof fn lemma_scan_keys(lines: Seq<Seq<char>>, path: Seq<char>)
    ensures
        find_file(scan_lines(lines).files, path) is Some <==> names_file(lines, path),
    decreases lines.len(),
{
    if lines.len() > 0 {
        let init = lines.drop_last();
        let last = lines.last();
        lemma_scan_keys(init, path);
        lemma_scan_invariants(init);
        let st = scan_lines(init);
        let st2 = scan_lines(lines);
        assert(forall|k: int| 0 <= k < init.len() ==> init[k] == lines[k]);
        if names_file(lines, path) && !names_file(init, path) {
            let k = choose|k: int| 0 <= k < lines.len() && header_path(#[trigger] lines[k]) == Some(path);
            assert(k == lines.len() - 1);
        }
        if names_file(init, path) {
            let k = choose|k: int| 0 <= k < init.len() && header_path(#[trigger] init[k]) == Some(path);
            assert(header_path(lines[k]) == Some(path));
        }
        match header_path(last) {
            Some(q) => {
                lemma_find_file(st.files, q);
                let e = (q, Seq::<DiffLineView>::empty());
                assert(st.files.push(e).drop_last() =~= st.files);
                if header_path(last) == Some(path) {
                    assert(header_path(lines[lines.len() - 1]) == Some(path));
                }
            },
            None => {
                assert(st2.files.len() == st.files.len());
                assert forall|k: int| 0 <= k < st.files.len() implies st.files[k].0 == st2.files[k].0 by {
                }
                lemma_find_file_keys(st.files, st2.files, path);
            },
        }
    }
}

/// The path named by the last file header among `lines`.
pub open spec fn current_header(lines: Seq<Seq<char>>) -> Option<Seq<char>>
    decreases lines.len(),
{
    if lines.len() == 0 {
        None
    } else {
        match header_path(lines.last()) {
            Some(p) => Some(p),
            None => current_header(lines.drop_last()),
        }
    }
}

/// A line of a file's body: it starts with `'+'`, `'-'` or `' '` and is
/// neither a `"+++ "` nor a `"--- "` header.
pub open spec fn is_body_line(l: Seq<char>) -> bool {
    &&& l.len() > 0
    &&& (l[0] == '+' || l[0] == '-' || l[0] == ' ')
    &&& !has_prefix(l, seq!['+', '+', '+', ' '])
    &&& !has_prefix(l, seq!['-', '-', '-', ' '])
}

/// The body lines of `lines` that stand under a header naming `path` (after
/// it and before the next header), in order.
pub open spec fn lines_under(lines: Seq<Seq<char>>, path: Seq<char>) -> Seq<Seq<char>>
    decreases lines.len(),
{
    if lines.len() == 0 {
        Seq::empty()
    } else {
        let before = lines_under(lines.drop_last(), path);
        if current_header(lines.drop_last()) == Some(path) && is_body_line(lines.last()) {
            before.push(lines.last())
        } else {
            before
        }
    }
}

/// A parsed line written back: its marker, then its content.
pub open spec fn marked_line(l: DiffLineView) -> Seq<char> {
    seq![kind_marker(l.kind)] + l.content
}

pub open spec fn marked_lines(ls: Seq<DiffLineView>) -> Seq<Seq<char>> {
    ls.map_values(|l: DiffLineView| marked_line(l))
}

/// The body lines among `ls`, in order.
pub open spec fn body_lines(ls: Seq<Seq<char>>) -> Seq<Seq<char>>
    decreases ls.len(),
{
    if ls.len() == 0 {
        Seq::empty()
    } else if is_body_line(ls.last()) {
        body_lines(ls.drop_last()).push(ls.last())
    } else {
        body_lines(ls.drop_last())
    }
}

/// Lines without a file header, after `x`: the body lines among them go to
/// the file of `x`'s last header.
pub proof fn lemma_lines_under_append(x: Seq<Seq<char>>, y: Seq<Seq<char>>, p: Seq<char>)
    requires
        forall|k: int| 0 <= k < y.len() ==> header_path(#[trigger] y[k]) is None,
    ensures
        current_header(x + y) == current_header(x),
        lines_under(x + y, p) == lines_under(x, p) + if current_header(x) == Some(p) {
            body_lines(y)
        } else {
            Seq::<Seq<char>>::empty()
        },
    decreases y.len(),
{
    if y.len() == 0 {
        assert(x + y =~= x);
        assert(lines_under(x, p) + Seq::<Seq<char>>::empty() =~= lines_under(x, p));
    } else {
        let yi = y.drop_last();
        lemma_lines_under_append(x, yi, p);
        assert((x + y).drop_last() =~= x + yi);
        assert((x + y).last() == y.last());
        assert(header_path(y[y.len() - 1]) is None);
        if current_header(x) == Some(p) {
            assert(lines_under(x + y, p) =~= lines_under(x, p) + body_lines(y));
        } else {
            assert(lines_under(x + y, p) =~= lines_under(x, p) + Seq::<Seq<char>>::empty());
        }
    }
}

/// A line that is not a body line adds nothing under any header; a header
/// line makes its path the current one.
pub proof fn lemma_lines_under_push(x: Seq<Seq<char>>, l: Seq<char>, p: Seq<char>)
    requires
        !is_body_line(l),
    ensures
        lines_under(x.push(l), p) == lines_under(x, p),
        current_header(x.push(l)) == match header_path(l) {
            Some(q) => Some(q),
            None => current_header(x),
        },
{
    assert(x.push(l).drop_last() =~= x);
}

spec fn keys_distinct(files: Seq<(Seq<char>, Seq<DiffLineView>)>) -> bool {
    forall|i: int, j: int|
        #![trigger files[i], files[j]]
        0 <= i < files.len() && 0 <= j < files.len() && i != j ==> files[i].0 != files[j].0
}

spec fn scan_matches_lines(st: DiffScan, lines: Seq<Seq<char>>) -> bool {
    &&& keys_distinct(st.files)
    &&& forall|i: int|
        0 <= i < st.files.len() ==> marked_lines(#[trigger] st.files[i].1) == lines_under(
            lines,
            st.files[i].0,
        )
    &&& forall|p: Seq<char>|
        find_file(st.files, p) is None ==> #[trigger] lines_under(lines, p) == Seq::<Seq<char>>::empty()
    &&& match current_header(lines) {
        None => st.current is None,
        Some(p) => find_file(st.files, p) is Some && st.current == find_file(st.files, p),
    }
}

proof fn lemma_scan_matches_lines(lines: Seq<Seq<char>>)
    ensures
        scan_matches_lines(scan_lines(lines), lines),
    decreases lines.len(),
{
    if lines.len() > 0 {
        let init = lines.drop_last();
        let l = lines.last();
        lemma_scan_matches_lines(init);
        lemma_scan_invariants(init);
        let st = scan_lines(init);
        let st2 = scan_lines(lines);
        assert(st2 == scan_line(st, l));
        match header_path(l) {
            Some(q) => {
                assert(!is_body_line(l));
                assert(forall|p: Seq<char>| #[trigger] lines_under(lines, p) == lines_under(init, p));
                lemma_find_file(st.files, q);
                match find_file(st.files, q) {
                    Some(i) => {
                        assert(st2.files == st.files);
                    },
                    None => {
                        let nf = st.files.push((q, Seq::<DiffLineView>::empty()));
                        assert(st2.files == nf);
                        assert(nf.drop_last() =~= st.files);
                        assert(find_file(nf, q) == Some(st.files.len() as int));
                        assert(marked_lines(Seq::<DiffLineView>::empty()) =~= Seq::<Seq<char>>::empty());
                        assert forall|p: Seq<char>| find_file(nf, p) is None implies #[trigger] lines_under(
                            lines,
                            p,
                        ) == Seq::<Seq<char>>::empty() by {
                            lemma_find_file(nf, p);
                            lemma_find_file(st.files, p);
                            if find_file(st.files, p) is Some {
                                let i = find_file(st.files, p)->0;
                                assert(nf[i] == st.files[i]);
                            }
                        }
                        assert forall|i: int| 0 <= i < nf.len() implies marked_lines(#[trigger] nf[i].1)
                            == lines_under(lines, nf[i].0) by {
                            if i < st.files.len() {
                                assert(nf[i] == st.files[i]);
                            }
                        }
                        assert forall|i: int, j: int|
                            #![trigger nf[i], nf[j]]
                            0 <= i < nf.len() && 0 <= j < nf.len() && i != j implies nf[i].0 != nf[j].0 by {
                            if i < st.files.len() && j < st.files.len() {
                                assert(nf[i] == st.files[i] && nf[j] == st.files[j]);
                            } else if i < st.files.len() {
                                assert(nf[i] == st.files[i]);
                            } else {
                                assert(nf[j] == st.files[j]);
                            }
                        }
                    },
                }
            },
            None => {
                assert(current_header(lines) == current_header(init));
                if has_prefix(l, seq!['+', '+', '+', ' ']) {
                    assert(header_path(l) is Some);
                }
                let body = is_body_line(l);
                if !body || st.current is None {
                    assert(forall|p: Seq<char>| #[trigger] lines_under(lines, p) == lines_under(init, p));
                }
                if has_prefix(l, seq!['-', '-', '-', ' ']) {
                    assert(st2 == st);
                } else if has_prefix(l, seq!['@', '@', ' ']) {
                    assert(l[0] == '@') by {
                        assert(l.take(3)[0] == '@');
                    }
                    assert(!body);
                    assert(st2.files == st.files && st2.current == st.current);
                } else {
                    match st.current {
                        None => {},
                        Some(i) => {
                            let q = current_header(init)->0;
                            lemma_find_file(st.files, q);
                            assert(st.files[i].0 == q);
                            if body {
                                let v = st2.files[i].1.last();
                                let nf = st2.files;
                                assert(nf.len() == st.files.len());
                                assert(nf[i].1 == st.files[i].1.push(v));
                                assert(v.content == l.skip(1));
                                assert(kind_marker(v.kind) == l[0]);
                                assert(marked_line(v) =~= l);
                                assert(marked_lines(nf[i].1) =~= marked_lines(st.files[i].1).push(l));
                                assert forall|k: int| 0 <= k < st.files.len() implies st.files[k].0 == nf[k].0 by {
                                }
                                lemma_find_file_keys(st.files, nf, q);
                                assert forall|p: Seq<char>| find_file(nf, p) == find_file(st.files, p) by {
                                    lemma_find_file_keys(st.files, nf, p);
                                }
                                assert forall|p: Seq<char>| p != q implies #[trigger] lines_under(lines, p)
                                    == lines_under(init, p) by {
                                }
                                assert(lines_under(lines, q) == lines_under(init, q).push(l));
                                assert forall|j: int| 0 <= j < nf.len() implies marked_lines(#[trigger] nf[j].1)
                                    == lines_under(lines, nf[j].0) by {
                                    if j != i {
                                        assert(st.files[j] == nf[j]);
                                        assert(st.files[j].0 != st.files[i].0);
                                    }
                                }
                                assert forall|a: int, b: int|
                                    #![trigger nf[a], nf[b]]
                                    0 <= a < nf.len() && 0 <= b < nf.len() && a != b implies nf[a].0 != nf[b].0 by {
                                    assert(st.files[a].0 == nf[a].0 && st.files[b].0 == nf[b].0);
                                }
                            } else {
                                assert(st2 == st);
                            }
                        },
                    }
                }
            },
        }
    }
}

/// Each file of the parse holds, in order and written back with their
/// markers, exactly the body lines that stand under a `"+++ "` header naming
/// it: lines starting with `'+'`, `'-'` or `' '` that are not `"--- "` or
/// `"+++ "` headers, up to the next header.  Lines before the first header,
/// hunk headers and other lines are left out; a path that no header names
/// has no such lines.
pub proof fn lemma_parsed_lines_are_lines_under_headers(raw: Seq<char>, path: Seq<char>)
    ensures
        spec_parse_unified_diff(raw).contains_key(path) ==> marked_lines(
            spec_parse_unified_diff(raw)[path],
        ) == lines_under(spec_lines(raw), path),
        !spec_parse_unified_diff(raw).contains_key(path) ==> lines_under(spec_lines(raw), path)
            == Seq::<Seq<char>>::empty(),
{
    let lines = spec_lines(raw);
    lemma_scan_matches_lines(lines);
    let files = scan_lines(lines).files;
    lemma_find_file(files, path);
    if find_file(files, path) is Some {
        let i = find_file(files, path)->0;
        assert(marked_lines(files[i].1) == lines_under(lines, files[i].0));
    }
}

/// How many of the lines start with `'+'` or `' '`: the lines that carry a
/// new-file number.
pub open spec fn new_count(ls: Seq<Seq<char>>) -> nat
    decreases ls.len(),
{
    if ls.len() == 0 {
        0
    } else {
        new_count(ls.drop_last()) + if ls.last().len() > 0 && (ls.last()[0] == '+' || ls.last()[0] == ' ') {
            1nat
        } else {
            0nat
        }
    }
}

/// How many of the lines start with `'-'` or `' '`: the lines that carry an
/// old-file number.
pub open spec fn old_count(ls: Seq<Seq<char>>) -> nat
    decreases ls.len(),
{
    if ls.len() == 0 {
        0
    } else {
        old_count(ls.drop_last()) + if ls.last().len() > 0 && (ls.last()[0] == '-' || ls.last()[0] == ' ') {
            1nat
        } else {
            0nat
        }
    }
}

proof fn lemma_counts_monotone(ls: Seq<Seq<char>>, j: int)
    requires
        0 <= j <= ls.len(),
    ensures
        new_count(ls.take(j)) <= new_count(ls),
        old_count(ls.take(j)) <= old_count(ls),
    decreases ls.len(),
{
    if j < ls.len() {
        lemma_counts_monotone(ls.drop_last(), j);
        assert(ls.drop_last().take(j) =~= ls.take(j));
    } else {
        assert(ls.take(j) =~= ls);
    }
}

/// The lines recorded for `p` in a parse state.
pub open spec fn entries_for(files: Seq<(Seq<char>, Seq<DiffLineView>)>, p: Seq<char>) -> Seq<DiffLineView> {
    files[find_file(files, p)->0].1
}

/// The counters of a parse whose increments all fit stay within `usize`.
proof fn lemma_counters_bounded(lines: Seq<Seq<char>>)
    ensures
        scan_lines(lines).fits ==> 0 <= scan_lines(lines).new <= usize::MAX && 0 <= scan_lines(
            lines,
        ).old <= usize::MAX,
    decreases lines.len(),
{
    if lines.len() > 0 {
        lemma_counters_bounded(lines.drop_last());
    }
}

/// Parsing more lines keeps the entry of a path where it is and only adds
/// lines to its end.
proof fn lemma_entries_grow(lines: Seq<Seq<char>>, n: int, p: Seq<char>)
    requires
        0 <= n <= lines.len(),
        find_file(scan_lines(lines.take(n)).files, p) is Some,
    ensures
        find_file(scan_lines(lines).files, p) == find_file(scan_lines(lines.take(n)).files, p),
        entries_for(scan_lines(lines.take(n)).files, p).is_prefix_of(entries_for(scan_lines(lines).files, p)),
    decreases lines.len(),
{
    if n == lines.len() {
        assert(lines.take(n) =~= lines);
    } else {
        let init = lines.drop_last();
        assert(init.take(n) =~= lines.take(n));
        lemma_entries_grow(init, n, p);
        lemma_scan_invariants(init);
        let st = scan_lines(init);
        let st2 = scan_lines(lines);
        let i = find_file(st.files, p)->0;
        lemma_find_file(st.files, p);
        match header_path(lines.last()) {
            Some(q) => {
                if find_file(st.files, q) is None {
                    let nf = st.files.push((q, Seq::<DiffLineView>::empty()));
                    assert(nf.drop_last() =~= st.files);
                    assert(find_file(nf, p) == find_file(st.files, p));
                }
            },
            None => {
                assert forall|k: int| 0 <= k < st.files.len() implies st.files[k].0 == st2.files[k].0 by {
                }
                lemma_find_file_keys(st.files, st2.files, p);
                assert(entries_for(st.files, p).is_prefix_of(entries_for(st2.files, p)));
            },
        }
    }
}

/// The numbering of one hunk while its lines are parsed: `body` is read
/// after the hunk header, up to `t` lines of it.
#[verifier::rlimit(30)]
proof fn lemma_hunk_progress(
    pre: Seq<Seq<char>>,
    hunk: Seq<char>,
    body: Seq<Seq<char>>,
    f: Seq<char>,
    a: nat,
    b: nat,
    t: int,
)
    requires
        current_header(pre) == Some(f),
        has_prefix(hunk, seq!['@', '@', ' ']),
        hunk_header(hunk) == Some((a, b)),
        forall|u: int|
            0 <= u < body.len() ==> !has_prefix(#[trigger] body[u], seq!['+', '+', '+', ' '])
                && !has_prefix(body[u], seq!['@', '@', ' ']),
        0 <= t <= body.len(),
    ensures
        ({
            let l0 = pre.push(hunk);
            let lt = l0 + body.take(t);
            let st = scan_lines(lt);
            let m = lines_under(l0, f).len();
            let bl = lines_under(lt, f).skip(m as int);
            let es = entries_for(st.files, f);
            &&& current_header(lt) == Some(f)
            &&& find_file(st.files, f) is Some
            &&& es.len() == lines_under(lt, f).len()
            &&& m <= lines_under(lt, f).len()
            &&& st.new == b + new_count(bl)
            &&& st.old == a + old_count(bl)
            &&& forall|j: int|
                0 <= j < bl.len() ==> {
                    let e = #[trigger] es[m + j];
                    &&& e.kind != DiffLineKind::Remove ==> e.new_line == Some(
                        (b + new_count(bl.take(j))) as usize,
                    )
                    &&& e.kind != DiffLineKind::Add ==> e.old_line == Some(
                        (a + old_count(bl.take(j))) as usize,
                    )
                }
        }),
    decreases t,
{
    let l0 = pre.push(hunk);
    let lt = l0 + body.take(t);
    let m = lines_under(l0, f).len();
    lemma_scan_matches_lines(lt);
    let st = scan_lines(lt);
    lemma_find_file(st.files, f);
    if t == 0 {
        assert(lt =~= l0);
        assert(l0.drop_last() =~= pre);
        assert(hunk[0] == '@') by {
            assert(hunk.take(3)[0] == '@');
        }
        assert(header_path(hunk) is None);
        let bl = lines_under(lt, f).skip(m as int);
        assert(bl =~= Seq::<Seq<char>>::empty());
        assert(marked_lines(entries_for(st.files, f)).len() == entries_for(st.files, f).len());
    } else {
        lemma_hunk_progress(pre, hunk, body, f, a, b, t - 1);
        let lp = l0 + body.take(t - 1);
        let sp = scan_lines(lp);
        let l = body[t - 1];
        assert(lt.drop_last() =~= lp);
        assert(lt.last() == l);
        lemma_scan_matches_lines(lp);
        lemma_scan_invariants(lp);
        lemma_find_file(sp.files, f);
        assert(header_path(l) is None);
        assert(current_header(lt) == Some(f));
        let blp = lines_under(lp, f).skip(m as int);
        let bl = lines_under(lt, f).skip(m as int);
        let i = find_file(sp.files, f)->0;
        assert(sp.current == Some(i));
        assert(marked_lines(entries_for(st.files, f)).len() == entries_for(st.files, f).len());
        if is_body_line(l) {
            assert(lines_under(lt, f) == lines_under(lp, f).push(l));
            assert(bl =~= blp.push(l));
            assert(bl.take(bl.len() - 1) =~= blp);
            assert(!has_prefix(l, seq!['-', '-', '-', ' ']));
            assert forall|k: int| 0 <= k < sp.files.len() implies sp.files[k].0 == st.files[k].0 by {
            }
            lemma_find_file_keys(sp.files, st.files, f);
            let es = entries_for(st.files, f);
            let esp = entries_for(sp.files, f);
            assert(es == esp.push(es.last()));
            assert forall|j: int| 0 <= j < bl.len() implies {
                let e = #[trigger] es[m + j];
                &&& e.kind != DiffLineKind::Remove ==> e.new_line == Some(
                    (b + new_count(bl.take(j))) as usize,
                )
                &&& e.kind != DiffLineKind::Add ==> e.old_line == Some(
                    (a + old_count(bl.take(j))) as usize,
                )
            } by {
                if j < blp.len() {
                    assert(bl.take(j) =~= blp.take(j));
                    assert(es[m + j] == esp[m + j]);
                } else {
                    assert(bl.take(j) =~= blp);
                }
            }
        } else {
            assert(lines_under(lt, f) == lines_under(lp, f));
            if has_prefix(l, seq!['-', '-', '-', ' ']) {
                assert(st == sp);
            } else {
                assert(st == sp);
            }
        }
    }
}

/// The line numbers of a hunk: under a header naming `f`, after a hunk
/// header `@@ -a[,n] +b[,m] @@` that parses, the lines of the hunk (up to the
/// next hunk or file header) are numbered from there: the `j`-th recorded
/// line of the hunk has the new-file number `b` plus the count of earlier
/// recorded lines of the hunk that carry one (`'+'` and `' '`), and the
/// old-file number `a` plus the count of those that carry one (`'-'` and
/// `' '`).  Other lines of the hunk (such as `\ No newline at end of file`)
/// advance neither number.  This holds where no counter passes `usize::MAX`.
pub proof fn lemma_hunk_numbering(
    raw: Seq<char>,
    pre: Seq<Seq<char>>,
    hunk: Seq<char>,
    body: Seq<Seq<char>>,
    post: Seq<Seq<char>>,
    f: Seq<char>,
    j: int,
)
    requires
        spec_lines(raw) == pre.push(hunk) + body + post,
        diff_counters_fit(raw),
        current_header(pre) == Some(f),
        has_prefix(hunk, seq!['@', '@', ' ']),
        hunk_header(hunk) is Some,
        forall|u: int|
            0 <= u < body.len() ==> !has_prefix(#[trigger] body[u], seq!['+', '+', '+', ' '])
                && !has_prefix(body[u], seq!['@', '@', ' ']),
        0 <= j < lines_under(pre.push(hunk) + body, f).len() - lines_under(pre.push(hunk), f).len(),
    ensures
        ({
            let (a, b) = hunk_header(hunk)->0;
            let m = lines_under(pre.push(hunk), f).len();
            let bl = lines_under(pre.push(hunk) + body, f).skip(m as int);
            let e = spec_parse_unified_diff(raw)[f][m + j];
            &&& spec_parse_unified_diff(raw).contains_key(f)
            &&& e.kind != DiffLineKind::Remove ==> (e.new_line matches Some(n) && n == b + new_count(
                bl.take(j),
            ))
            &&& e.kind != DiffLineKind::Add ==> (e.old_line matches Some(o) && o == a + old_count(
                bl.take(j),
            ))
        }),
{
    let (a, b) = hunk_header(hunk)->0;
    let lines = spec_lines(raw);
    let l0 = pre.push(hunk);
    let n = (l0.len() + body.len()) as int;
    assert(lines.take(n) =~= l0 + body.take(body.len() as int));
    assert(body.take(body.len() as int) =~= body);
    lemma_hunk_progress(pre, hunk, body, f, a, b, body.len() as int);
    let lt = l0 + body;
    let st = scan_lines(lt);
    let m = lines_under(l0, f).len();
    let bl = lines_under(lt, f).skip(m as int);
    lemma_entries_grow(lines, n, f);
    if !scan_lines(lines.take(n)).fits {
        lemma_fits_prefix(lines, n);
    }
    assert(lines.take(n) =~= lt);
    lemma_counters_bounded(lt);
    lemma_counts_monotone(bl, j);
    lemma_scan_matches_lines(lines);
    let fin = scan_lines(lines).files;
    lemma_find_file(fin, f);
    assert(spec_parse_unified_diff(raw)[f] == entries_for(fin, f));
    let es = entries_for(st.files, f);
    assert(es[m + j] == entries_for(fin, f)[m + j]);
    assert(b + new_count(bl.take(j)) <= usize::MAX);
    assert(a + old_count(bl.take(j)) <= usize::MAX);
}

/// Every line that the parse records carries exactly the line numbers its
/// kind calls for.
pub proof fn lemma_parsed_lines_numbered_by_kind(raw: Seq<char>, path: Seq<char>, k: int)
    requires
        spec_parse_unified_diff(raw).contains_key(path),
        0 <= k < spec_parse_unified_diff(raw)[path].len(),
    ensures
        numbered_by_kind(spec_parse_unified_diff(raw)[path][k]),
{
    let files = scan_diff(raw).files;
    lemma_scan_invariants(spec_lines(raw));
    lemma_find_file(files, path);
    let i = find_file(files, path)->0;
    assert(numbered_by_kind(files[i].1[k]));
}

/// The parsed diff has an entry for a path exactly when some line of the text
/// is a `"+++ "` header naming it (with any `"b/"` prefix removed), whether or
/// not lines follow it.
pub proof fn lemma_parsed_files_are_headers(raw: Seq<char>, path: Seq<char>)
    ensures
        spec_parse_unified_diff(raw).contains_key(path) <==> names_file(spec_lines(raw), path),
{
    lemma_scan_keys(spec_lines(raw), path);
}

/// When the target line is in the file, the context window holds at most
/// `2 * context + 1` lines and has the target line at position
/// `min(index, context)`; otherwise it is empty.
pub proof fn lemma_context_window_holds_target(lines: Seq<DiffLineView>, target: usize, context: usize)
    ensures
        first_new_line(lines, target) is None ==> context_window(lines, target, context).len() == 0,
        first_new_line(lines, target) matches Some(i) ==> {
            let w = context_window(lines, target, context);
            let at = if i >= context {
                context as int
            } else {
                i
            };
            &&& w.len() <= 2 * context + 1
            &&& 0 <= at < w.len()
            &&& w[at].new_line == Some(target)
        },
{
    lemma_first_new_line(lines, target);
}

/// Widening the window by one line on each side: the window is empty for
/// both widths or for neither, the wider one holds at most two more lines,
/// and the narrower one stands in it as a run of lines, from its first or
/// second line on.
pub proof fn lemma_wider_context_nests(
    diff: Map<Seq<char>, Seq<DiffLineView>>,
    path: Seq<char>,
    target: usize,
    context: usize,
)
    requires
        context < usize::MAX,
    ensures
        ({
            let w1 = spec_extract_context(diff, path, target, context);
            let w2 = spec_extract_context(diff, path, target, (context + 1) as usize);
            &&& (w1.len() == 0 <==> w2.len() == 0)
            &&& w1.len() <= w2.len() <= w1.len() + 2
            &&& exists|off: int|
                0 <= off <= 1 && off + w1.len() <= w2.len() && #[trigger] w2.subrange(off, off + w1.len())
                    == w1
        }),
{
    let w1 = spec_extract_context(diff, path, target, context);
    let w2 = spec_extract_context(diff, path, target, (context + 1) as usize);
    if diff.contains_key(path) {
        let lines = diff[path];
        lemma_first_new_line(lines, target);
        match first_new_line(lines, target) {
            Some(i) => {
                let c1 = (context + 1) as usize;
                let s1 = if i >= context { i - context } else { 0 };
                let e1 = if i + context + 1 <= lines.len() { i + context + 1 } else { lines.len() as int };
                let s2 = if i >= c1 { i - c1 } else { 0 };
                let e2 = if i + c1 + 1 <= lines.len() { i + c1 + 1 } else { lines.len() as int };
                assert(w1 == lines.subrange(s1, e1));
                assert(w2 == lines.subrange(s2, e2));
                assert(s2 <= s1 <= s2 + 1);
                assert(e1 <= e2 <= e1 + 1);
                assert(s1 < e1);
                let off: int = s1 - s2;
                assert(w2.subrange(off, off + w1.len()) =~= w1);
                assert(0 <= off <= 1 && off + w1.len() <= w2.len() && w2.subrange(off, off + w1.len()) == w1);
            },
            None => {
                assert(w2.subrange(0int, 0int + w1.len()) =~= w1);
            },
        }
    } else {
        assert(w2.subrange(0int, 0int + w1.len()) =~= w1);
    }
}

/// The window around the first line `i` whose new-file number is `target`
/// holds `min(context, i)` lines before it, the line itself and
/// `min(context, len - 1 - i)` lines after it: the lines of the file from
/// `i - min(context, i)` on, in order.
pub proof fn lemma_context_window_shape(
    lines: Seq<DiffLineView>,
    target: usize,
    context: usize,
    i: int,
)
    requires
        0 <= i < lines.len(),
        lines[i].new_line == Some(target),
        forall|k: int| 0 <= k < i ==> lines[k].new_line != Some(target),
    ensures
        ({
            let w = context_window(lines, target, context);
            let before = if i < context {
                i
            } else {
                context as int
            };
            let after = if lines.len() - 1 - i < context {
                lines.len() - 1 - i
            } else {
                context as int
            };
            &&& w.len() == before + 1 + after
            &&& forall|k: int| 0 <= k < w.len() ==> #[trigger] w[k] == lines[i - before + k]
            &&& w[before] == lines[i]
        }),
{
    lemma_first_new_line(lines, target);
    match first_new_line(lines, target) {
        Some(j) => {
            if j < i {
                assert(lines[j].new_line == Some(target));
            } else if j > i {
                assert(lines[i].new_line != Some(target));
            }
        },
        None => {
            assert(lines[i].new_line != Some(target));
        },
    }
}

/// What `extract_context` gives for a line of a file of the diff: the
/// window of [`lemma_context_window_shape`] over the file's lines, and nothing
/// for a file that the diff does not hold or a line it does not number.
pub proof fn lemma_extract_context_shape(
    diff: Map<Seq<char>, Seq<DiffLineView>>,
    path: Seq<char>,
    target: usize,
    context: usize,
)
    ensures
        !diff.contains_key(path) ==> spec_extract_context(diff, path, target, context).len() == 0,
        diff.contains_key(path) && (forall|k: int|
            0 <= k < diff[path].len() ==> #[trigger] diff[path][k].new_line != Some(target))
            ==> spec_extract_context(diff, path, target, context).len() == 0,
        forall|i: int|
            #![trigger diff[path][i]]
            diff.contains_key(path) && 0 <= i < diff[path].len() && diff[path][i].new_line == Some(target)
                && (forall|k: int| 0 <= k < i ==> diff[path][k].new_line != Some(target)) ==> {
                let w = spec_extract_context(diff, path, target, context);
                let lines = diff[path];
                let before = if i < context {
                    i
                } else {
                    context as int
                };
                let after = if lines.len() - 1 - i < context {
                    lines.len() - 1 - i
                } else {
                    context as int
                };
                &&& w.len() == before + 1 + after
                &&& forall|k: int| 0 <= k < w.len() ==> #[trigger] w[k] == lines[i - before + k]
            },
{
    if diff.contains_key(path) {
        lemma_first_new_line(diff[path], target);
        assert forall|i: int|
            #![trigger diff[path][i]]
            diff.contains_key(path) && 0 <= i < diff[path].len() && diff[path][i].new_line == Some(target)
                && (forall|k: int| 0 <= k < i ==> diff[path][k].new_line != Some(target)) implies {
                let w = spec_extract_context(diff, path, target, context);
                let lines = diff[path];
                let before = if i < context {
                    i
                } else {
                    context as int
                };
                let after = if lines.len() - 1 - i < context {
                    lines.len() - 1 - i
                } else {
                    context as int
                };
                &&& w.len() == before + 1 + after
                &&& forall|k: int| 0 <= k < w.len() ==> #[trigger] w[k] == lines[i - before + k]
            } by {
            lemma_context_window_shape(diff[path], target, context, i);
        }
    }
}

/// No character of the text is white space.
pub open spec fn no_ws(t: Seq<char>) -> bool {
    forall|k: int| 0 <= k < t.len() ==> !crate::text::is_ws(t[k])
}

/// A field `sign`, the start in decimal, then an optional `,count` (any
/// text without white space that starts with `','`) gives back the start.
proof fn lemma_hunk_field_reads(sign: char, n: usize, rest: Seq<char>)
    requires
        rest.len() == 0 || rest[0] == ',',
    ensures
        hunk_field(seq![sign] + decimal(n as nat) + rest, sign) == Some(n as nat),
{
    let d = decimal(n as nat);
    crate::text::lemma_decimal_parses(n as nat);
    let tok = seq![sign] + d + rest;
    assert(tok.skip(1) =~= d + rest);
    assert forall|k: int| 0 <= k < d.len() implies d[k] != ',' by {
        assert(crate::text::is_digit(d[k]));
    }
    crate::text::lemma_before_char_joined(d, rest, ',');
}

/// Every pair of starts that `usize` holds is read back from a hunk header
/// `@@ -a[,n] +b[,m] @@...`: the old start `a` and the new start `b`, in that
/// order, whatever counts and trailing text follow.
pub proof fn lemma_hunk_header_reads_starts(
    a: usize,
    b: usize,
    old_count: Seq<char>,
    new_count: Seq<char>,
    rest: Seq<char>,
)
    requires
        old_count.len() == 0 || old_count[0] == ',',
        new_count.len() == 0 || new_count[0] == ',',
        no_ws(old_count),
        no_ws(new_count),
        ws_tokens(rest).len() > 0,
    ensures
        hunk_header(
            seq!['@', '@', ' ', '-'] + decimal(a as nat) + old_count + seq![' ', '+'] + decimal(b as nat)
                + new_count + seq![' '] + rest,
        ) == Some((a as nat, b as nat)),
{
    let at = seq!['@', '@'];
    let fo = seq!['-'] + decimal(a as nat) + old_count;
    let fnw = seq!['+'] + decimal(b as nat) + new_count;
    let line = seq!['@', '@', ' ', '-'] + decimal(a as nat) + old_count + seq![' ', '+'] + decimal(b as nat)
        + new_count + seq![' '] + rest;
    assert(line =~= at + seq![' '] + (fo + seq![' '] + (fnw + seq![' '] + rest)));
    crate::text::lemma_decimal_parses(a as nat);
    crate::text::lemma_decimal_parses(b as nat);
    assert forall|k: int| 0 <= k < fo.len() implies !crate::text::is_ws(fo[k]) by {
        if 1 <= k < 1 + decimal(a as nat).len() {
            assert(fo[k] == decimal(a as nat)[k - 1]);
            assert(crate::text::is_digit(decimal(a as nat)[k - 1]));
        } else if k > 0 {
            assert(fo[k] == old_count[k - 1 - decimal(a as nat).len()]);
        }
    }
    assert forall|k: int| 0 <= k < fnw.len() implies !crate::text::is_ws(fnw[k]) by {
        if 1 <= k < 1 + decimal(b as nat).len() {
            assert(fnw[k] == decimal(b as nat)[k - 1]);
            assert(crate::text::is_digit(decimal(b as nat)[k - 1]));
        } else if k > 0 {
            assert(fnw[k] == new_count[k - 1 - decimal(b as nat).len()]);
        }
    }
    crate::text::lemma_ws_tokens_split(fnw, ' ', rest);
    crate::text::lemma_ws_tokens_split(fo, ' ', fnw + seq![' '] + rest);
    crate::text::lemma_ws_tokens_split(at, ' ', fo + seq![' '] + (fnw + seq![' '] + rest));
    crate::text::lemma_ws_tokens_single(at);
    crate::text::lemma_ws_tokens_single(fo);
    crate::text::lemma_ws_tokens_single(fnw);
    let toks = ws_tokens(line);
    assert(toks =~= seq![at] + (seq![fo] + (seq![fnw] + ws_tokens(rest))));
    assert(toks[1] == fo && toks[2] == fnw);
    lemma_hunk_field_reads('-', a, old_count);
    lemma_hunk_field_reads('+', b, new_count);
}

} // verus!
