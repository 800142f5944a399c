use mimimi::diff::{
    extract_context, parse_hunk_header, parse_unified_diff, try_parse_unified_diff, DiffLineKind,
    ParsedDiff,
};

#[test]
fn test_parse_simple_diff() {
    let raw = "\
--- a/hello.txt
+++ b/hello.txt
@@ -1,3 +1,4 @@
 line one
-old line two
+new line two
+inserted line
 line three
";
    let parsed = parse_unified_diff(raw);
    let lines = parsed.get("hello.txt").unwrap();
    assert_eq!(lines.len(), 5);
    assert_eq!(lines[0].kind, DiffLineKind::Context);
    assert_eq!(lines[0].content, "line one");
    assert_eq!(lines[1].kind, DiffLineKind::Remove);
    assert_eq!(lines[2].kind, DiffLineKind::Add);
    assert_eq!(lines[3].kind, DiffLineKind::Add);
    assert_eq!(lines[4].kind, DiffLineKind::Context);
    assert_eq!(lines[4].content, "line three");
}

#[test]
fn test_extract_context_lines() {
    let raw = "\
--- a/code.js
+++ b/code.js
@@ -0,0 +1,6 @@
+console.log('hi there!');
+
+const myVar = \"test\";
+
+
+console.log('what?', myVar);
";
    let parsed = parse_unified_diff(raw);
    let ctx = extract_context(&parsed, "code.js", 3, 2);
    // Should get lines 1..5 (target=3, context=2 above/below)
    assert_eq!(ctx.len(), 5);
    assert_eq!(ctx[2].new_line, Some(3));
}

#[test]
fn test_parse_no_prefix_paths() {
    // glab mr diff sometimes outputs without a/ b/ prefixes
    let raw = "\
--- NewIdea.md
+++ NewIdea.md
@@ -0,0 +1,2 @@
+hello
+world
";
    let parsed = parse_unified_diff(raw);
    assert!(parsed.contains_key("NewIdea.md"));
    assert_eq!(parsed.get("NewIdea.md").unwrap().len(), 2);
}

#[test]
fn line_numbers_follow_hunk_header() {
    let raw = "+++ b/a.rs\n@@ -10,2 +20,3 @@\n ctx\n-gone\n+new\n+newer\n";
    let parsed = parse_unified_diff(raw);
    let lines = parsed.get("a.rs").unwrap();
    assert_eq!(lines.len(), 4);
    assert_eq!((lines[0].old_line, lines[0].new_line), (Some(10), Some(20)));
    assert_eq!((lines[1].old_line, lines[1].new_line), (Some(11), None));
    assert_eq!((lines[2].old_line, lines[2].new_line), (None, Some(21)));
    assert_eq!((lines[3].old_line, lines[3].new_line), (None, Some(22)));
    assert_eq!(lines[2].content, "new");
}

#[test]
fn every_line_numbered_by_kind() {
    let raw = "+++ b/x\n@@ -1 +1 @@\n a\n-b\n+c\n";
    let parsed = parse_unified_diff(raw);
    for l in parsed.get("x").unwrap() {
        match l.kind {
            DiffLineKind::Add => assert!(l.new_line.is_some() && l.old_line.is_none()),
            DiffLineKind::Remove => assert!(l.new_line.is_none() && l.old_line.is_some()),
            DiffLineKind::Context => assert!(l.new_line.is_some() && l.old_line.is_some()),
        }
    }
}

#[test]
fn lines_before_any_header_and_other_lines_are_skipped() {
    let raw = "+orphan\n+++ b/f\n\\ No newline at end of file\n+kept\n";
    let parsed = parse_unified_diff(raw);
    assert_eq!(parsed.files.len(), 1);
    let lines = parsed.get("f").unwrap();
    assert_eq!(lines.len(), 1);
    assert_eq!(lines[0].content, "kept");
    assert_eq!(lines[0].new_line, Some(0));
}

#[test]
fn header_without_lines_names_a_file() {
    let parsed = parse_unified_diff("--- a/empty\n+++ b/empty\n");
    assert!(parsed.contains_key("empty"));
    assert_eq!(parsed.get("empty").unwrap().len(), 0);
    assert!(!parsed.contains_key("b/empty"));
}

#[test]
fn returning_to_a_file_appends_to_it() {
    let raw = "+++ b/a\n+1\n+++ b/b\n+2\n+++ b/a\n+3\n";
    let parsed = parse_unified_diff(raw);
    assert_eq!(parsed.files.len(), 2);
    let a = parsed.get("a").unwrap();
    assert_eq!(a.len(), 2);
    assert_eq!(a[1].content, "3");
}

#[test]
fn crlf_lines_and_bad_hunk_headers() {
    let raw = "+++ b/w\r\n@@ -5 +7 @@\r\n+x\r\n@@ bad @@\r\n+y\r\n@@ -+3,1 ++4,2 @@\n+z\n";
    let parsed = parse_unified_diff(raw);
    let lines = parsed.get("w").unwrap();
    assert_eq!(lines.len(), 3);
    assert_eq!(lines[0].content, "x");
    assert_eq!(lines[0].new_line, Some(7));
    // An unreadable hunk header leaves the counters as they were.
    assert_eq!(lines[1].new_line, Some(8));
    // A '+' sign before the number is accepted, as by `str::parse`.
    assert_eq!(lines[2].new_line, Some(4));
}

#[test]
fn counter_past_usize_max_is_refused() {
    let raw = format!("+++ b/f\n@@ -1 +{} @@\n+a\n", usize::MAX);
    assert!(try_parse_unified_diff(&raw).is_none());
    let ok = format!("+++ b/f\n@@ -1 +{} @@\n", usize::MAX);
    assert!(try_parse_unified_diff(&ok).is_some());
}

#[test]
fn extract_context_edges() {
    let raw = "+++ b/f\n@@ -1 +1 @@\n+1\n+2\n+3\n";
    let parsed = parse_unified_diff(raw);
    let ctx = extract_context(&parsed, "f", 1, 5);
    assert_eq!(ctx.len(), 3);
    assert_eq!(ctx[0].new_line, Some(1));
    assert!(extract_context(&parsed, "f", 9, 5).is_empty());
    assert!(extract_context(&parsed, "g", 1, 5).is_empty());
    let one = extract_context(&parsed, "f", 2, 0);
    assert_eq!(one.len(), 1);
    assert_eq!(one[0].content, "2");
}

#[test]
fn empty_parsed_diff() {
    let d = ParsedDiff::default();
    assert!(d.files.is_empty());
    assert!(!d.contains_key(""));
    assert_eq!(DiffLineKind::Add.marker(), '+');
    assert_eq!(DiffLineKind::Remove.marker(), '-');
    assert_eq!(DiffLineKind::Context.marker(), ' ');
}

#[test]
fn hunk_headers() {
    assert_eq!(parse_hunk_header("@@ -1,3 +1,5 @@"), Some((1, 1)));
    assert_eq!(parse_hunk_header("@@ -10 +12,0 @@ fn main()"), Some((10, 12)));
    assert_eq!(parse_hunk_header("@@  -+7,2\t++8 @@"), Some((7, 8)));
    assert_eq!(parse_hunk_header("@@ -1,3 +1,5"), None);
    assert_eq!(parse_hunk_header("@@ +1 -1 @@"), None);
    assert_eq!(parse_hunk_header("@@ -x,3 +1 @@"), None);
    assert_eq!(parse_hunk_header("@@ -99999999999999999999999 +1 @@"), None);
}

#[test]
fn files_hold_the_lines_under_their_headers() {
    let raw = "preamble\n+not a file line\n--- a/one.rs\n+++ b/one.rs\n@@ -1,2 +1,2 @@\n keep\n-old\n+new\n\\ No newline at end of file\n--- a/two.rs\n+++ two.rs\n@@ -5 +5 @@\n+x\n+++ b/one.rs\n@@ -9 +9 @@\n more\n";
    let d = parse_unified_diff(raw);
    let marked = |path: &str| -> Vec<String> {
        d.get(path)
            .unwrap()
            .iter()
            .map(|l| format!("{}{}", l.kind.marker(), l.content))
            .collect()
    };
    assert_eq!(marked("one.rs"), vec![" keep", "-old", "+new", " more"]);
    assert_eq!(marked("two.rs"), vec!["+x"]);
    assert!(!d.contains_key("not a file line"));
}

#[test]
fn hunk_lines_are_numbered_from_the_header() {
    let raw = "+++ b/f.rs\n@@ -10,4 +20,4 @@\n a\n-b\n\\ No newline at end of file\n+c\n d\n@@ -40 +50 @@\n+e\n";
    let d = parse_unified_diff(raw);
    let ls = d.get("f.rs").unwrap();
    let nums: Vec<(Option<usize>, Option<usize>)> = ls.iter().map(|l| (l.old_line, l.new_line)).collect();
    assert_eq!(
        nums,
        vec![
            (Some(10), Some(20)),
            (Some(11), None),
            (None, Some(21)),
            (Some(12), Some(22)),
            (None, Some(50)),
        ]
    );
}

#[test]
fn wider_context_nests_the_narrower() {
    let raw = "+++ b/f\n@@ -0,0 +1,6 @@\n+1\n+2\n+3\n+4\n+5\n+6\n";
    let parsed = parse_unified_diff(raw);
    let nums = |c: usize, t: usize| -> Vec<Option<usize>> {
        extract_context(&parsed, "f", t, c).iter().map(|l| l.new_line).collect()
    };
    assert_eq!(nums(1, 2), vec![Some(1), Some(2), Some(3)]);
    assert_eq!(nums(2, 2), vec![Some(1), Some(2), Some(3), Some(4)]);
    assert_eq!(nums(1, 5), vec![Some(4), Some(5), Some(6)]);
    assert_eq!(nums(2, 5), vec![Some(3), Some(4), Some(5), Some(6)]);
    assert!(nums(1, 9).is_empty() && nums(2, 9).is_empty());
}
