use mimimi::diff::{DiffLine, DiffLineKind};
use mimimi::highlight::{diff_line_spans, file_syntax_extension, highlight_diff_lines, SpanColor, StyledSpan};
use std::path::Path;

fn line(kind: DiffLineKind, content: &str, new_line: Option<usize>, old_line: Option<usize>) -> DiffLine {
    DiffLine { kind, content: content.to_string(), new_line, old_line }
}

fn texts(spans: &[StyledSpan]) -> Vec<&str> {
    spans.iter().map(|s| s.text.as_str()).collect()
}

#[test]
fn spans_of_added_and_context_lines() {
    let lines = vec![
        line(DiffLineKind::Add, "let y;", Some(12), None),
        line(DiffLineKind::Context, "x", Some(13), Some(9)),
        line(DiffLineKind::Remove, "z", None, Some(1234)),
    ];
    let pieces = vec![
        vec![((1, 2, 3), 1, "let".to_string()), ((4, 5, 6), 6, " y;\n".to_string()), ((0, 0, 0), 0, "\n".to_string())],
        vec![((7, 8, 9), 0, "x\n".to_string())],
        vec![((9, 9, 9), 2, "z\n".to_string())],
    ];
    let r = diff_line_spans(&lines, &pieces);
    assert_eq!(r.len(), 3);

    assert_eq!(texts(&r[0]), vec!["  12 ", "+ ", "let", " y;", " "]);
    assert_eq!(r[0][0].fg, Some(SpanColor::DarkGray));
    assert_eq!(r[0][0].bg, None);
    assert_eq!(r[0][1].fg, Some(SpanColor::Green));
    assert_eq!(r[0][2].fg, Some(SpanColor::Rgb(1, 2, 3)));
    assert_eq!(r[0][2].bg, Some(SpanColor::Rgb(30, 60, 30)));
    assert!(r[0][2].bold && !r[0][2].italic && !r[0][2].underline);
    assert!(!r[0][3].bold && r[0][3].italic && r[0][3].underline);
    assert_eq!(r[0][4].fg, None);
    assert_eq!(r[0][4].bg, Some(SpanColor::Rgb(30, 60, 30)));

    assert_eq!(texts(&r[1]), vec!["  13 ", "  ", "x"]);
    assert_eq!(r[1][1].fg, Some(SpanColor::DarkGray));
    assert_eq!(r[1][2].bg, None);

    assert_eq!(texts(&r[2]), vec!["1234 ", "- ", "z", " "]);
    assert_eq!(r[2][1].fg, Some(SpanColor::Red));
    assert_eq!(r[2][2].bg, Some(SpanColor::Rgb(60, 30, 30)));
    assert!(r[2][2].underline);
}

#[test]
fn spans_pair_lines_with_pieces() {
    let lines = vec![line(DiffLineKind::Context, "a", None, None), line(DiffLineKind::Context, "b", None, None)];
    let r = diff_line_spans(&lines, &vec![vec![((0, 0, 0), 0, "a\n".to_string())]]);
    assert_eq!(r.len(), 1);
    assert_eq!(texts(&r[0]), vec!["     ", "  ", "a"]);
}

#[test]
fn highlighting_keeps_the_code_text() {
    let lines = vec![
        line(DiffLineKind::Context, "fn main() {", Some(1), Some(1)),
        line(DiffLineKind::Add, "    let x = \"s\";", Some(2), None),
        line(DiffLineKind::Context, "}", Some(3), Some(2)),
    ];
    let r = highlight_diff_lines("src/main.rs", &lines);
    assert_eq!(r.len(), 3);
    for (spans, l) in r.iter().zip(lines.iter()) {
        let n = spans.len();
        let code_end = if l.kind == DiffLineKind::Add { n - 1 } else { n };
        let code: String = spans[2..code_end].iter().map(|s| s.text.as_str()).collect();
        assert_eq!(code, l.content);
        assert!(spans[2..code_end].iter().all(|s| matches!(s.fg, Some(SpanColor::Rgb(_, _, _)))));
    }
    // Rust is highlighted: the line holds pieces in more than one colour.
    let colours: Vec<Option<SpanColor>> = r[1][2..r[1].len() - 1].iter().map(|s| s.fg).collect();
    assert!(colours.iter().any(|c| *c != colours[0]));
    assert_eq!(r[1][r[1].len() - 1].bg, Some(SpanColor::Rgb(30, 60, 30)));
    assert!(highlight_diff_lines("notes", &vec![]).is_empty());
}

#[test]
fn syntax_extension_follows_path_extension() {
    let cases = [
        ("src/main.rs", "rs"),
        ("a/b.tar.gz", "gz"),
        (".bashrc", "txt"),
        ("Makefile", "txt"),
        ("dir.d/file", "txt"),
        ("x.rs/", "rs"),
        ("x.rs/.", "rs"),
        ("x.rs//./", "rs"),
        ("a/..", "txt"),
        ("..", "txt"),
        ("/", "txt"),
        ("", "txt"),
        ("a.", ""),
        ("..x", "x"),
    ];
    for (path, ext) in cases {
        assert_eq!(file_syntax_extension(path), ext, "{path}");
        let std_ext = Path::new(path).extension().and_then(|e| e.to_str()).unwrap_or("txt");
        assert_eq!(file_syntax_extension(path), std_ext, "{path}");
    }
}

#[test]
fn one_span_line_per_diff_line() {
    let lines = vec![
        line(DiffLineKind::Context, "a", Some(1), Some(1)),
        line(DiffLineKind::Add, "", Some(2), None),
        line(DiffLineKind::Remove, "b", None, Some(2)),
    ];
    assert_eq!(highlight_diff_lines("notes.md", &lines).len(), 3);
}
