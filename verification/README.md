# mimimi

A terminal UI for reviewing GitLab merge request comments and forwarding them
to OpenCode. This crate holds its logic as a library verified with Verus, and
the terminal program around it.

- `src/text.rs`: lines, white-space tokens, trimming, decimal numbers — each
  stated as the `str` operation it stands for.
- `src/diff.rs`: the unified diff parser, hunk headers and the code window
  around a line, with the laws of the parse (which lines a file gets, how a
  hunk's lines are numbered).
- `src/gitlab.rs`: remote URL parsing, project path encoding, connecting
  (the remote first, then the token sources in turn), the REST requests,
  merging a merge request with its threads, and the diff text rebuilt from
  its changed files.
- `src/review.rs`: the review session — threads, selection, navigation, key
  handling, and the prompt sent to OpenCode for the selected threads.
- `src/screen.rs`: the text of the status bar and of a thread, and how long
  the status indicators stay.
- `src/highlight.rs`: syntax-highlighted diff lines: the file extension that
  picks the syntax, and the spans of each line from `syntect`'s pieces.
- `src/opencode.rs`: reading ports and process ids from `pgrep`, `lsof`,
  `tasklist` and `netstat` output; choosing the instance by its working
  directory; the JSON bodies and URLs of OpenCode.
- `src/types.rs`: GitLab API objects.
- `app/`: `main`, the terminal loop, drawing, HTTP, git, keyring and process
  calls.
- `tests/`: tests of the library.
