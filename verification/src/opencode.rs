//! OpenCode integration: reading the port of a running instance from the
//! output of the process tools, the JSON bodies and the URLs of its HTTP API.

use vstd::prelude::*;
use vstd::string::StringExecFns;
use vstd::utf8::{decode_utf8, valid_utf8};

use crate::text::{
    after_last, after_last_start, before_char, before_char_end, chars_of, contains_at,
    contains_text, decimal, eq_ignore_ascii_case, eq_ignore_ascii_case_at, equals_at, find_char,
    find_char_at, line_ranges, lossy_utf8, parse_bounded, parse_bounded_at, piece, pieces,
    push_decimal, spec_lines, token_ranges, trim, trim_char, trim_char_range, trim_range,
    utf8_lossy, utf8_strict, ws_tokens,
};

verus! {

// ---------------------------------------------------------------------------
// Process ids from `pgrep`
// ---------------------------------------------------------------------------

/// The non-empty lines, in order.
pub open spec fn non_empty_lines(ls: Seq<Seq<char>>) -> Seq<Seq<char>>
    decreases ls.len(),
{
    if ls.len() == 0 {
        Seq::<Seq<char>>::empty()
    } else if ls.last().len() == 0 {
        non_empty_lines(ls.drop_last())
    } else {
        non_empty_lines(ls.drop_last()).push(ls.last())
    }
}

/// The pieces joined with `","` between them.
pub open spec fn join_commas(ls: Seq<Seq<char>>) -> Seq<char>
    decreases ls.len(),
{
    if ls.len() == 0 {
        Seq::<char>::empty()
    } else if ls.len() == 1 {
        ls[0]
    } else {
        join_commas(ls.drop_last()) + seq![','] + ls.last()
    }
}

/// The comma-separated process ids that `pgrep` printed, one per non-empty
/// line; `None` if it failed, printed invalid UTF-8, or printed no id.
pub open spec fn spec_pid_list(success: bool, stdout: Seq<u8>) -> Option<Seq<char>> {
    if !success || !valid_utf8(stdout) {
        None
    } else {
        let ids = non_empty_lines(spec_lines(decode_utf8(stdout)));
        if ids.len() == 0 {
            None
        } else {
            Some(join_commas(ids))
        }
    }
}

/// The process ids that `pgrep -f` printed, joined by commas for `lsof -p`.
pub fn pid_list_from_pgrep(success: bool, stdout: &[u8]) -> (r: Option<String>)
    ensures
        match spec_pid_list(success, stdout@) {
            Some(l) => r matches Some(t) && t@ == l,
            None => r is None,
        },
{
    if !success {
        return None;
    }
    let text = match utf8_strict(stdout) {
        Some(t) => t,
        None => return None,
    };
    let s = chars_of(text.as_str());
    let lines = line_ranges(&s);
    let ghost ls = spec_lines(s@);
    let mut out = String::new();
    let mut any = false;
    let mut k: usize = 0;
    proof {
        assert(ls.take(0) =~= Seq::<Seq<char>>::empty());
    }
    while k < lines.len()
        invariant
            ls == spec_lines(s@),
            pieces(s@, lines@) == ls,
            forall|j: int| 0 <= j < lines@.len() ==> 0 <= #[trigger] lines@[j].0 <= lines@[j].1 <= s@.len(),
            k <= lines@.len(),
            any == (non_empty_lines(ls.take(k as int)).len() > 0),
            out@ == join_commas(non_empty_lines(ls.take(k as int))),
        decreases lines@.len() - k,
    {
        let (a, b) = lines[k];
        proof {
            assert(ls[k as int] == s@.subrange(a as int, b as int));
            assert(ls.take(k + 1).drop_last() =~= ls.take(k as int));
            assert(ls.take(k + 1).last() == ls[k as int]);
        }
        if a < b {
            if any {
                out.push(',');
            }
            let mut i = a;
            let ghost before = out@;
            while i < b
                invariant
                    a <= i <= b <= s@.len(),
                    out@ == before + s@.subrange(a as int, i as int),
                decreases b - i,
            {
                out.push(s[i]);
                assert(out@ =~= before + s@.subrange(a as int, i + 1));
                i = i + 1;
            }
            proof {
                let prev = non_empty_lines(ls.take(k as int));
                let next = non_empty_lines(ls.take(k + 1));
                assert(next == prev.push(ls[k as int]));
                if !any {
                    assert(prev.len() == 0);
                    assert(next.len() == 1);
                    assert(before =~= Seq::<char>::empty());
                    assert(out@ =~= join_commas(next));
                } else {
                    assert(next.drop_last() =~= prev);
                    assert(out@ =~= join_commas(next));
                }
            }
            any = true;
        }
        k = k + 1;
    }
    proof {
        assert(ls.take(lines@.len() as int) =~= ls);
    }
    if !any {
        None
    } else {
        Some(out)
    }
}

// ---------------------------------------------------------------------------
// Ports from `lsof`
// ---------------------------------------------------------------------------

/// The port of an `lsof` line: the ninth white-space separated field (the
/// address, as in `127.0.0.1:3456`), after its last `':'`.
pub open spec fn lsof_port(line: Seq<char>) -> Option<nat> {
    let t = ws_tokens(line);
    if t.len() > 8 {
        parse_bounded(after_last(t[8], ':'), u16::MAX as nat)
    } else {
        None
    }
}

/// The ports of the lines, in order, for lines that have one.
pub open spec fn lsof_ports(ls: Seq<Seq<char>>) -> Seq<u16>
    decreases ls.len(),
{
    if ls.len() == 0 {
        Seq::<u16>::empty()
    } else {
        match lsof_port(ls.last()) {
            Some(p) => lsof_ports(ls.drop_last()).push(p as u16),
            None => lsof_ports(ls.drop_last()),
        }
    }
}

fn lsof_line_port(s: &Vec<char>, a: usize, b: usize) -> (r: Option<u16>)
    requires
        a <= b <= s@.len(),
    ensures
        match lsof_port(s@.subrange(a as int, b as int)) {
            Some(p) => r == Some(p as u16),
            None => r is None,
        },
{
    let toks = token_ranges(s, a, b);
    proof {
        let ts = ws_tokens(s@.subrange(a as int, b as int));
        assert(ts.len() == toks@.len());
        if toks@.len() > 8 {
            assert(ts[8] == piece(s@, toks@[8]));
        }
    }
    if toks.len() <= 8 {
        return None;
    }
    let (ta, tb) = toks[8];
    let st = after_last_start(s, ta, tb, ':');
    match parse_bounded_at(s, st, tb, 65535) {
        Some(v) => Some(v as u16),
        None => None,
    }
}

/// The listening ports in the output of `lsof -iTCP -sTCP:LISTEN -P -n`;
/// `None` if it failed or printed invalid UTF-8.
pub fn ports_from_lsof(success: bool, stdout: &[u8]) -> (r: Option<Vec<u16>>)
    ensures
        !success || !valid_utf8(stdout@) ==> r is None,
        success && valid_utf8(stdout@) ==> (r matches Some(v) && v@ == lsof_ports(
            spec_lines(decode_utf8(stdout@)),
        )),
{
    if !success {
        return None;
    }
    let text = match utf8_strict(stdout) {
        Some(t) => t,
        None => return None,
    };
    let s = chars_of(text.as_str());
    let lines = line_ranges(&s);
    let ghost ls = spec_lines(s@);
    let mut ports: Vec<u16> = Vec::new();
    let mut k: usize = 0;
    proof {
        assert(ls.take(0) =~= Seq::<Seq<char>>::empty());
    }
    while k < lines.len()
        invariant
            ls == spec_lines(s@),
            pieces(s@, lines@) == ls,
            forall|j: int| 0 <= j < lines@.len() ==> 0 <= #[trigger] lines@[j].0 <= lines@[j].1 <= s@.len(),
            k <= lines@.len(),
            ports@ == lsof_ports(ls.take(k as int)),
        decreases lines@.len() - k,
    {
        let (a, b) = lines[k];
        proof {
            assert(ls[k as int] == s@.subrange(a as int, b as int));
            assert(ls.take(k + 1).drop_last() =~= ls.take(k as int));
            assert(ls.take(k + 1).last() == ls[k as int]);
        }
        match lsof_line_port(&s, a, b) {
            Some(p) => ports.push(p),
            None => {},
        }
        k = k + 1;
    }
    proof {
        assert(ls.take(lines@.len() as int) =~= ls);
    }
    Some(ports)
}

// ---------------------------------------------------------------------------
// Process ids from `tasklist`, ports from `netstat`
// ---------------------------------------------------------------------------

pub open spec fn opencode_exe() -> Seq<char> {
    seq!['o', 'p', 'e', 'n', 'c', 'o', 'd', 'e', '.', 'e', 'x', 'e']
}

/// The process id of a `tasklist /FO CSV` line that names `opencode.exe`:
/// its second comma-separated field without the surrounding quotes.
pub open spec fn tasklist_pid(line: Seq<char>) -> Option<nat> {
    if !contains_text(line, opencode_exe()) {
        None
    } else {
        match find_char(line, ',') {
            None => None,
            Some(i) => parse_bounded(
                trim_char(before_char(line.skip(i + 1), ','), '"'),
                u32::MAX as nat,
            ),
        }
    }
}

pub open spec fn tasklist_pids(ls: Seq<Seq<char>>) -> Seq<u32>
    decreases ls.len(),
{
    if ls.len() == 0 {
        Seq::<u32>::empty()
    } else {
        match tasklist_pid(ls.last()) {
            Some(p) => tasklist_pids(ls.drop_last()).push(p as u32),
            None => tasklist_pids(ls.drop_last()),
        }
    }
}

fn tasklist_line_pid(s: &Vec<char>, a: usize, b: usize) -> (r: Option<u32>)
    requires
        a <= b <= s@.len(),
    ensures
        match tasklist_pid(s@.subrange(a as int, b as int)) {
            Some(p) => r == Some(p as u32),
            None => r is None,
        },
{
    if !contains_at(s, a, b, &['o', 'p', 'e', 'n', 'c', 'o', 'd', 'e', '.', 'e', 'x', 'e']) {
        return None;
    }
    let c = match find_char_at(s, a, b, ',') {
        Some(c) => c,
        None => return None,
    };
    proof {
        let t = s@.subrange(a as int, b as int);
        assert(t.skip(c - a + 1) =~= s@.subrange(c + 1, b as int));
    }
    let e = before_char_end(s, c + 1, b, ',');
    let (qa, qb) = trim_char_range(s, c + 1, e, '"');
    match parse_bounded_at(s, qa, qb, 0xffff_ffff) {
        Some(v) => Some(v as u32),
        None => None,
    }
}

/// The process ids of `opencode.exe` in the output of
/// `tasklist /FI "IMAGENAME eq opencode.exe" /FO CSV /NH`, read as lossy
/// UTF-8; `None` if it failed or names no such process.
pub fn pids_from_tasklist(success: bool, stdout: &[u8]) -> (r: Option<Vec<u32>>)
    ensures
        !success ==> r is None,
        success ==> match r {
            Some(v) => v@ == tasklist_pids(spec_lines(lossy_utf8(stdout@))) && v@.len() > 0,
            None => tasklist_pids(spec_lines(lossy_utf8(stdout@))).len() == 0,
        },
{
    if !success {
        return None;
    }
    let text = utf8_lossy(stdout);
    let s = chars_of(text.as_str());
    let lines = line_ranges(&s);
    let ghost ls = spec_lines(s@);
    let mut pids: Vec<u32> = Vec::new();
    let mut k: usize = 0;
    proof {
        assert(ls.take(0) =~= Seq::<Seq<char>>::empty());
    }
    while k < lines.len()
        invariant
            ls == spec_lines(s@),
            pieces(s@, lines@) == ls,
            forall|j: int| 0 <= j < lines@.len() ==> 0 <= #[trigger] lines@[j].0 <= lines@[j].1 <= s@.len(),
            k <= lines@.len(),
            pids@ == tasklist_pids(ls.take(k as int)),
        decreases lines@.len() - k,
    {
        let (a, b) = lines[k];
        proof {
            assert(ls[k as int] == s@.subrange(a as int, b as int));
            assert(ls.take(k + 1).drop_last() =~= ls.take(k as int));
            assert(ls.take(k + 1).last() == ls[k as int]);
        }
        match tasklist_line_pid(&s, a, b) {
            Some(p) => pids.push(p),
            None => {},
        }
        k = k + 1;
    }
    proof {
        assert(ls.take(lines@.len() as int) =~= ls);
    }
    if pids.len() == 0 {
        None
    } else {
        Some(pids)
    }
}

/// The listening port of a `netstat -ano` line of one of the processes
/// `pids`: a TCP line of at least five fields whose last field is such a
/// process id and whose foreign address is `0.0.0.0:0` or `[::]:0`; the port
/// follows the last `':'` of the local address.
pub open spec fn netstat_port(line: Seq<char>, pids: Seq<u32>) -> Option<nat> {
    let t = ws_tokens(line);
    if t.len() < 5 {
        None
    } else if !eq_ignore_ascii_case(t[0], seq!['T', 'C', 'P']) {
        None
    } else {
        match parse_bounded(t.last(), u32::MAX as nat) {
            None => None,
            Some(pid) => if !pids.contains(pid as u32) {
                None
            } else if t[2] != seq!['0', '.', '0', '.', '0', '.', '0', ':', '0'] && t[2] != seq![
                '[',
                ':',
                ':',
                ']',
                ':',
                '0',
            ] {
                None
            } else {
                parse_bounded(after_last(t[1], ':'), u16::MAX as nat)
            },
        }
    }
}

pub open spec fn netstat_ports(ls: Seq<Seq<char>>, pids: Seq<u32>) -> Seq<u16>
    decreases ls.len(),
{
    if ls.len() == 0 {
        Seq::<u16>::empty()
    } else {
        match netstat_port(ls.last(), pids) {
            Some(p) => netstat_ports(ls.drop_last(), pids).push(p as u16),
            None => netstat_ports(ls.drop_last(), pids),
        }
    }
}

fn contains_pid(pids: &Vec<u32>, pid: u32) -> (r: bool)
    ensures
        r == pids@.contains(pid),
{
    let mut i: usize = 0;
    while i < pids.len()
        invariant
            i <= pids@.len(),
            forall|k: int| 0 <= k < i ==> pids@[k] != pid,
        decreases pids@.len() - i,
    {
        if pids[i] == pid {
            assert(pids@[i as int] == pid);
            return true;
        }
        i = i + 1;
    }
    false
}

fn netstat_line_port(s: &Vec<char>, a: usize, b: usize, pids: &Vec<u32>) -> (r: Option<u16>)
    requires
        a <= b <= s@.len(),
    ensures
        match netstat_port(s@.subrange(a as int, b as int), pids@) {
            Some(p) => r == Some(p as u16),
            None => r is None,
        },
{
    let toks = token_ranges(s, a, b);
    let ghost ts = ws_tokens(s@.subrange(a as int, b as int));
    proof {
        assert(ts.len() == toks@.len());
        if toks@.len() >= 5 {
            assert(ts[0] == piece(s@, toks@[0]));
            assert(ts[1] == piece(s@, toks@[1]));
            assert(ts[2] == piece(s@, toks@[2]));
            assert(ts.last() == piece(s@, toks@[toks@.len() - 1]));
        }
    }
    if toks.len() < 5 {
        return None;
    }
    if !eq_ignore_ascii_case_at(s, toks[0].0, toks[0].1, &['T', 'C', 'P']) {
        return None;
    }
    let last = toks[toks.len() - 1];
    let pid = match parse_bounded_at(s, last.0, last.1, 0xffff_ffff) {
        Some(v) => v as u32,
        None => return None,
    };
    if !contains_pid(pids, pid) {
        return None;
    }
    let foreign = toks[2];
    if !equals_at(s, foreign.0, foreign.1, &['0', '.', '0', '.', '0', '.', '0', ':', '0'])
        && !equals_at(s, foreign.0, foreign.1, &['[', ':', ':', ']', ':', '0']) {
        return None;
    }
    let local = toks[1];
    let st = after_last_start(s, local.0, local.1, ':');
    match parse_bounded_at(s, st, local.1, 65535) {
        Some(v) => Some(v as u16),
        None => None,
    }
}

/// The listening ports of the processes `pids` in the output of
/// `netstat -ano`, read as lossy UTF-8; `None` if it failed.
pub fn ports_from_netstat(success: bool, stdout: &[u8], pids: &Vec<u32>) -> (r: Option<Vec<u16>>)
    ensures
        !success ==> r is None,
        success ==> (r matches Some(v) && v@ == netstat_ports(
            spec_lines(lossy_utf8(stdout@)),
            pids@,
        )),
{
    if !success {
        return None;
    }
    let text = utf8_lossy(stdout);
    let s = chars_of(text.as_str());
    let lines = line_ranges(&s);
    let ghost ls = spec_lines(s@);
    let mut ports: Vec<u16> = Vec::new();
    let mut k: usize = 0;
    proof {
        assert(ls.take(0) =~= Seq::<Seq<char>>::empty());
    }
    while k < lines.len()
        invariant
            ls == spec_lines(s@),
            pieces(s@, lines@) == ls,
            forall|j: int| 0 <= j < lines@.len() ==> 0 <= #[trigger] lines@[j].0 <= lines@[j].1 <= s@.len(),
            k <= lines@.len(),
            ports@ == netstat_ports(ls.take(k as int), pids@),
        decreases lines@.len() - k,
    {
        let (a, b) = lines[k];
        proof {
            assert(ls[k as int] == s@.subrange(a as int, b as int));
            assert(ls.take(k + 1).drop_last() =~= ls.take(k as int));
            assert(ls.take(k + 1).last() == ls[k as int]);
        }
        match netstat_line_port(&s, a, b, pids) {
            Some(p) => ports.push(p),
            None => {},
        }
        k = k + 1;
    }
    proof {
        assert(ls.take(lines@.len() as int) =~= ls);
    }
    Some(ports)
}


// ---------------------------------------------------------------------------
// Choosing among running instances
// ---------------------------------------------------------------------------

/// The port of the instance to use: none without ports, the only one, or,
/// among several, the one at `matched` (the first whose working directory is
/// the current one) and otherwise the first.
pub fn discover_opencode_port(ports: &Vec<u16>, matched: Option<usize>) -> (r: Option<u16>)
    ensures
        ports@.len() == 0 ==> r is None,
        ports@.len() == 1 ==> r == Some(ports@[0]),
        ports@.len() > 1 ==> r == Some(
            match matched {
                Some(i) => if i < ports@.len() {
                    ports@[i as int]
                } else {
                    ports@[0]
                },
                None => ports@[0],
            },
        ),
{
    if ports.len() == 0 {
        return None;
    }
    if ports.len() == 1 {
        return Some(ports[0]);
    }
    match matched {
        Some(i) => if i < ports.len() {
            Some(ports[i])
        } else {
            Some(ports[0])
        },
        None => Some(ports[0]),
    }
}

// ---------------------------------------------------------------------------
// The HTTP API of an instance
// ---------------------------------------------------------------------------

/// `http://127.0.0.1:{port}{path}`.
pub fn opencode_url(port: u16, path: &str) -> (r: String)
    ensures
        r@ == "http://127.0.0.1:"@ + decimal(port as nat) + path@,
{
    let mut r = "http://127.0.0.1:".to_owned();
    push_decimal(&mut r, port as u64);
    r.append(path);
    r
}

/// A digit of a number in lower-case hexadecimal.
pub open spec fn hex_digit(n: nat) -> char {
    if n < 10 {
        (('0' as nat) + n) as char
    } else {
        (('a' as nat) + n - 10) as char
    }
}

/// How `serde_json` writes character `c` inside a string literal: `"` and
/// `\` behind a backslash, the five control characters that have a short
/// escape by it, the other characters below U+0020 as `\u00xx` in lower-case
/// hexadecimal, and every other character as it is.
pub open spec fn json_escape_char(c: char) -> Seq<char> {
    if c == '"' {
        seq!['\\', '"']
    } else if c == '\\' {
        seq!['\\', '\\']
    } else if c == '\u{8}' {
        seq!['\\', 'b']
    } else if c == '\t' {
        seq!['\\', 't']
    } else if c == '\n' {
        seq!['\\', 'n']
    } else if c == '\u{c}' {
        seq!['\\', 'f']
    } else if c == '\r' {
        seq!['\\', 'r']
    } else if (c as nat) < 0x20 {
        seq!['\\', 'u', '0', '0', hex_digit((c as nat) / 16), hex_digit((c as nat) % 16)]
    } else {
        seq![c]
    }
}

/// The characters of `s`, each escaped as `serde_json` does.
pub open spec fn json_escaped(s: Seq<char>) -> Seq<char>
    decreases s.len(),
{
    if s.len() == 0 {
        Seq::empty()
    } else {
        json_escaped(s.drop_last()) + json_escape_char(s.last())
    }
}

/// The JSON string literal that `serde_json` writes for `s`.
pub open spec fn json_string_literal(s: Seq<char>) -> Seq<char> {
    seq!['"'] + json_escaped(s) + seq!['"']
}

/// `serde_json::to_string` on a `serde_json::Value` object with the one
/// member `key: value`, both strings.  Its compact formatter writes `{`, the
/// key's literal, `:`, the value's literal and `}`; serializing a map with a
/// string key into memory does not fail, so the result is always there.
#[verifier::external_body]
fn json_object_string(key: &str, value: &str) -> (r: Option<String>)
    ensures
        r is Some,
        r matches Some(t) ==> t@ == "{"@ + json_string_literal(key@) + ":"@
            + json_string_literal(value@) + "}"@,
{
    let mut m = serde_json::Map::new();
    m.insert(key.to_owned(), serde_json::Value::String(value.to_owned()));
    serde_json::to_string(&serde_json::Value::Object(m)).ok()
}

/// The body of `POST /tui/append-prompt`: the JSON object `{"text": prompt}`,
/// written compactly as `serde_json` writes it.
pub fn append_prompt_body(prompt: &str) -> (r: String)
    ensures
        r@ == "{\"text\":"@ + json_string_literal(prompt@) + "}"@,
{
    let key = "text";
    let r = match json_object_string(key, prompt) {
        Some(t) => t,
        None => String::new(),
    };
    proof {
        reveal_strlit("text");
        reveal_strlit("{\"text\":");
        reveal_strlit("}");
        reveal_strlit("{");
        reveal_strlit(":");
        let k = "text"@;
        assert(k.drop_last().drop_last().drop_last().drop_last() =~= Seq::<char>::empty());
        assert(json_escaped(k) =~= k) by {
            reveal_with_fuel(json_escaped, 5);
            assert(k.drop_last().drop_last().drop_last() =~= seq!['t']);
            assert(k.drop_last().drop_last() =~= seq!['t', 'e']);
            assert(k.drop_last() =~= seq!['t', 'e', 'x']);
        }
        assert(r@ =~= "{\"text\":"@ + json_string_literal(prompt@) + "}"@);
    }
    r
}

/// The string member `key` of the JSON object that `body` holds, as
/// `serde_json` reads it: `None` when `body` is not JSON, not an object, or
/// has no such member, or the member is not a string.
pub uninterp spec fn json_string_member(body: Seq<char>, key: Seq<char>) -> Option<Seq<char>>;

/// `serde_json::from_str::<Value>`, then `Value::get(key)` and
/// `Value::as_str`: the string member `key` of the JSON object in `body`, if
/// `body` is JSON and has one.  The result is named, not spelled out.
#[verifier::external_body]
fn json_member(body: &str, key: &str) -> (r: Option<String>)
    ensures
        match r {
            Some(d) => json_string_member(body@, key@) == Some(d@),
            None => json_string_member(body@, key@) is None,
        },
{
    match serde_json::from_str::<serde_json::Value>(body) {
        Ok(v) => match v.get(key) {
            Some(d) => match d.as_str() {
                Some(t) => Some(t.to_owned()),
                None => None,
            },
            None => None,
        },
        Err(_) => None,
    }
}

/// The working directory that `GET /path` reports: the JSON member
/// `"directory"` of the body as it is, or else the trimmed body.
pub fn working_directory_from_body(body: &str) -> (r: String)
    ensures
        r@ == match json_string_member(body@, "directory"@) {
            Some(d) => d,
            None => trim(body@),
        },
{
    match json_member(body, "directory") {
        Some(d) => d,
        None => {
            let s = chars_of(body);
            let (a, b) = trim_range(&s, 0, s.len());
            proof {
                assert(s@.subrange(0, s@.len() as int) =~= s@);
            }
            crate::text::string_of(&s, a, b)
        },
    }
}

/// `std::path::Path::new(a) == std::path::Path::new(b)`: whether the two
/// strings name the same path, component by component.  How a string splits
/// into components depends on the platform's separators, so only what holds
/// everywhere is stated: a string names the same path as itself.
#[verifier::external_body]
fn same_path(a: &str, b: &str) -> (r: bool)
    ensures
        a@ == b@ ==> r,
{
    std::path::Path::new(a) == std::path::Path::new(b)
}

/// The first instance whose flag says that its working directory is the
/// current one: `same[i]` is the outcome of comparing instance `i`'s report
/// with the current directory.
pub fn first_matching_instance(same: &Vec<bool>) -> (r: Option<usize>)
    ensures
        r matches Some(i) ==> i < same@.len() && same@[i as int] && forall|k: int|
            0 <= k < i ==> !same@[k],
        r is None ==> forall|k: int| 0 <= k < same@.len() ==> !same@[k],
{
    let mut i: usize = 0;
    while i < same.len()
        invariant
            i <= same@.len(),
            forall|k: int| 0 <= k < i ==> !same@[k],
        decreases same@.len() - i,
    {
        if same[i] {
            return Some(i);
        }
        i = i + 1;
    }
    None
}

/// For each instance, whether its reported working directory, trimmed, is
/// the path `cwd`; an instance that reported nothing does not match.
fn directory_flags(reported: &Vec<Option<String>>, cwd: &str) -> (r: Vec<bool>)
    ensures
        r@.len() == reported@.len(),
        forall|k: int| 0 <= k < reported@.len() && reported@[k] is None ==> !#[trigger] r@[k],
        forall|k: int|
            0 <= k < reported@.len() && (#[trigger] reported@[k] matches Some(d) && trim(d@) == cwd@)
                ==> r@[k],
{
    let mut flags: Vec<bool> = Vec::new();
    let mut i: usize = 0;
    while i < reported.len()
        invariant
            i <= reported@.len(),
            flags@.len() == i,
            forall|k: int| 0 <= k < i && reported@[k] is None ==> !#[trigger] flags@[k],
            forall|k: int|
                0 <= k < i && (#[trigger] reported@[k] matches Some(d) && trim(d@) == cwd@) ==> flags@[k],
        decreases reported@.len() - i,
    {
        let same = match &reported[i] {
            Some(d) => {
                let s = chars_of(d.as_str());
                let (a, b) = trim_range(&s, 0, s.len());
                proof {
                    assert(s@.subrange(0, s@.len() as int) =~= s@);
                }
                let t = crate::text::string_of(&s, a, b);
                same_path(t.as_str(), cwd)
            },
            None => false,
        };
        flags.push(same);
        i = i + 1;
    }
    flags
}

/// Among several running instances, the first whose reported working
/// directory, trimmed, is the path `cwd` (as paths compare on this
/// platform): each report is compared, then [`first_matching_instance`]
/// picks.  `reported[i]` is what instance `i` reported, `None` where asking
/// it failed.  An instance whose trimmed report is `cwd` letter for letter
/// is found, or one before it.
pub fn matching_instance(reported: &Vec<Option<String>>, cwd: &str) -> (r: Option<usize>)
    ensures
        r matches Some(i) ==> i < reported@.len() && reported@[i as int] is Some,
        forall|k: int|
            0 <= k < reported@.len() && (#[trigger] reported@[k] matches Some(d) && trim(d@) == cwd@)
                ==> (r matches Some(i) && i <= k),
{
    let flags = directory_flags(reported, cwd);
    let r = first_matching_instance(&flags);
    proof {
        assert forall|k: int|
            0 <= k < reported@.len() && (#[trigger] reported@[k] matches Some(d) && trim(d@) == cwd@)
                implies (r matches Some(i) && i <= k) by {
            assert(flags@[k]);
        }
    }
    r
}

/// The decimal digits of a number hold no `':'`.
proof fn lemma_decimal_has_no_colon(n: nat)
    ensures
        forall|k: int| 0 <= k < decimal(n).len() ==> decimal(n)[k] != ':',
{
    crate::text::lemma_decimal_parses(n);
    assert forall|k: int| 0 <= k < decimal(n).len() implies decimal(n)[k] != ':' by {
        assert(crate::text::is_digit(decimal(n)[k]));
    }
}

/// Every port, 0 through 65535, is read back from an `lsof` line whose
/// ninth field is an address, `':'` and the port in decimal.
pub proof fn lemma_lsof_port_reads_every_port(line: Seq<char>, addr: Seq<char>, port: u16)
    requires
        ws_tokens(line).len() > 8,
        ws_tokens(line)[8] == addr + seq![':'] + decimal(port as nat),
    ensures
        lsof_port(line) == Some(port as nat),
{
    lemma_decimal_has_no_colon(port as nat);
    crate::text::lemma_after_last_joined(addr, ':', decimal(port as nat));
    crate::text::lemma_decimal_parses(port as nat);
}

/// The port of an `lsof` line is the number after the last `':'` of its
/// ninth field, whenever that number fits in a `u16` (0 through 65535), and
/// nothing otherwise.
pub proof fn lemma_lsof_port_takes_every_u16(line: Seq<char>)
    ensures
        lsof_port(line) == if ws_tokens(line).len() > 8 {
            match crate::text::parse_unsigned(after_last(ws_tokens(line)[8], ':')) {
                Some(v) => if v <= 65535 {
                    Some(v)
                } else {
                    None
                },
                None => None,
            }
        } else {
            None
        },
{
}

/// Every port, 0 through 65535, is read back from a listening `netstat`
/// line of an instance, whose local address is an address, `':'` and the
/// port in decimal.
pub proof fn lemma_netstat_port_reads_every_port(
    line: Seq<char>,
    pids: Seq<u32>,
    addr: Seq<char>,
    port: u16,
    pid: u32,
)
    requires
        ws_tokens(line).len() >= 5,
        eq_ignore_ascii_case(ws_tokens(line)[0], seq!['T', 'C', 'P']),
        ws_tokens(line)[1] == addr + seq![':'] + decimal(port as nat),
        ws_tokens(line)[2] == seq!['0', '.', '0', '.', '0', '.', '0', ':', '0'],
        ws_tokens(line).last() == decimal(pid as nat),
        pids.contains(pid),
    ensures
        netstat_port(line, pids) == Some(port as nat),
{
    lemma_decimal_has_no_colon(port as nat);
    crate::text::lemma_after_last_joined(addr, ':', decimal(port as nat));
    crate::text::lemma_decimal_parses(port as nat);
    crate::text::lemma_decimal_parses(pid as nat);
}

/// Every process id a `u32` holds is read back from a `tasklist` CSV line
/// whose first field names `opencode.exe` and whose second field is the id
/// in quotes.
pub proof fn lemma_tasklist_pid_reads_every_pid(first: Seq<char>, pid: u32, rest: Seq<char>)
    requires
        forall|k: int| 0 <= k < first.len() ==> first[k] != ',',
        contains_text(first, opencode_exe()),
        rest.len() == 0 || rest[0] == ',',
    ensures
        tasklist_pid(first + seq![','] + seq!['"'] + decimal(pid as nat) + seq!['"'] + rest) == Some(
            pid as nat,
        ),
{
    let d = decimal(pid as nat);
    crate::text::lemma_decimal_parses(pid as nat);
    let q = seq!['"'] + d + seq!['"'];
    let line = first + seq![','] + seq!['"'] + d + seq!['"'] + rest;
    assert(line =~= first + seq![','] + (q + rest));
    // The line names opencode.exe where its first field does.
    let w = choose|w: int|
        0 <= w && w + opencode_exe().len() <= first.len() && #[trigger] first.subrange(w, w + opencode_exe().len())
            == opencode_exe();
    assert(line.subrange(w, w + opencode_exe().len()) =~= first.subrange(w, w + opencode_exe().len()));
    assert(contains_text(line, opencode_exe()));
    // Its first comma ends the first field.
    crate::text::lemma_find_char(line, ',');
    assert(line[first.len() as int] == ',');
    match find_char(line, ',') {
        Some(i) => {
            assert(i == first.len());
        },
        None => {},
    }
    assert(line.skip(first.len() + 1 as int) =~= q + rest);
    assert forall|k: int| 0 <= k < q.len() implies q[k] != ',' by {
        if 0 < k < q.len() - 1 {
            assert(q[k] == d[k - 1]);
            assert(crate::text::is_digit(d[k - 1]));
        }
    }
    crate::text::lemma_before_char_joined(q, rest, ',');
    // The quotes go.
    assert(crate::text::is_digit(d[0]) && crate::text::is_digit(d.last()));
    assert(q.skip(1) =~= d + seq!['"']);
    assert(crate::text::trim_start_char(d + seq!['"'], '"') == d + seq!['"']) by {
        assert((d + seq!['"'])[0] == d[0]);
    }
    assert((d + seq!['"']).drop_last() =~= d);
    assert(crate::text::trim_end_char(d, '"') == d);
    assert(trim_char(q, '"') == d);
}

} // verus!
