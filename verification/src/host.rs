//! The decisions of the corebrain host around its kvspace and runtime
//! calls: the talk queue, the vthread drive loop, rwir dispatch, tool
//! output, terminal input and the LLM settings.
use vstd::prelude::*;

use crate::text::{
    all_ws, chars_of, decimal, decimal_chars, has_prefix, is_blank, is_ws, lead_ws, lines,
    parse_bounded, parse_decimal, push_str, signed_decimal, signed_decimal_chars, starts_with_lit,
    string_from, string_of, strings_are, trail_ws, trim, trim_bounds, eq_lit, lines_of,
    split_names,
};
use crate::tlv::{utf8_lossy, utf8_text};

verus! {

// ── the talk queue ─────────────────────────────────────────────────

/// Where the talk queue keeps its length.
pub open spec fn talk_count_key_spec() -> Seq<char> {
    "/byteseek/session/talk/count"@
}

/// The index that a stored count text gives the next entry: the count,
/// parsed after trimming, or 0 when it is no `u32`.
pub open spec fn talk_index(count_text: Seq<char>) -> nat {
    match parse_bounded(trim(count_text), u32::MAX as nat) {
        Some(n) => n,
        None => 0,
    }
}

/// The key of field `field` of talk entry `n`.
pub open spec fn talk_key(n: nat, field: Seq<char>) -> Seq<char> {
    "/byteseek/session/talk/"@ + decimal(n) + seq!['/'] + field
}

/// The writes of one `talk_push`.
pub struct TalkEntry {
    pub index: u32,
    pub role_key: String,
    pub content_key: String,
    pub count_key: String,
    pub next_count: String,
}

/// The keys and the new count of the talk entry to append, given the text
/// stored at the count key; `None` when the index is `u32::MAX`, whose
/// successor no `u32` holds.
pub fn talk_entry(count_text: &str) -> (r: Option<TalkEntry>)
    ensures
        r is None <==> talk_index(count_text@) == u32::MAX,
        r matches Some(e) ==> {
            &&& e.index == talk_index(count_text@)
            &&& e.role_key@ == talk_key(e.index as nat, "role"@)
            &&& e.content_key@ == talk_key(e.index as nat, "content"@)
            &&& e.count_key@ == talk_count_key_spec()
            &&& e.next_count@ == decimal(e.index as nat + 1)
        },
{
    let t = chars_of(count_text);
    let (lo, hi) = trim_bounds(&t);
    let n: u32 = match parse_decimal(&t, lo, hi, u32::MAX as u64) {
        Some(n) => n as u32,
        None => 0,
    };
    if n == u32::MAX {
        return None;
    }
    let nd = decimal_chars(n as u64);
    let mut role: Vec<char> = chars_of("/byteseek/session/talk/");
    let mut d1 = nd.clone();
    role.append(&mut d1);
    role.push('/');
    let mut content = role.clone();
    push_str(&mut role, "role");
    push_str(&mut content, "content");
    proof {
        assert(role@ =~= talk_key(n as nat, "role"@));
        assert(content@ =~= talk_key(n as nat, "content"@));
    }
    Some(
        TalkEntry {
            index: n,
            role_key: string_of(&role),
            content_key: string_of(&content),
            count_key: string_of(&chars_of("/byteseek/session/talk/count")),
            next_count: string_of(&decimal_chars(n as u64 + 1)),
        },
    )
}

/// The count that one `talk_push` stores is the index that the next one
/// reads: the queue grows by one entry at a time.
pub proof fn lemma_talk_count_advances(n: nat)
    requires
        n < u32::MAX,
    ensures
        talk_index(decimal(n + 1)) == n + 1,
{
    let d = decimal(n + 1);
    crate::text::lemma_decimal(n + 1);
    assert(!is_ws(d[0]));
    assert(!is_ws(d.last()));
    assert(lead_ws(d) == 0);
    assert(trail_ws(d) == 0);
    assert(trim(d) =~= d);
    crate::text::lemma_parse_decimal(n + 1, u32::MAX as nat);
}

// ── the vthread drive loop ───────────────────────────────────────────

/// What the drive loop does after one execute step.
pub enum VthreadStep {
    /// The vthread ran to its end.
    Done,
    /// The vthread stopped at an rwir to dispatch.
    Dispatch,
    /// The vthread failed; its status and error are to be reported.
    Fail,
}

/// The step that an execute return code calls for: 0 done, 1 dispatch,
/// anything else a failure.
pub fn step_of(rc: i32) -> (s: VthreadStep)
    ensures
        rc == 0 ==> s is Done,
        rc == 1 ==> s is Dispatch,
        rc != 0 && rc != 1 ==> s is Fail,
{
    if rc == 0 {
        VthreadStep::Done
    } else if rc == 1 {
        VthreadStep::Dispatch
    } else {
        VthreadStep::Fail
    }
}

/// The key of field `field` of vthread `vid` (`/vthread/{vid}/‥{field}`).
pub open spec fn vthread_key(vid: Seq<char>, field: Seq<char>) -> Seq<char> {
    "/vthread/"@ + vid + seq!['/', '\u{2025}'] + field
}

/// The program-counter, status and error-message keys of vthread `vid`.
pub fn vthread_keys(vid: &str) -> (k: (String, String, String))
    ensures
        k.0@ == vthread_key(vid@, "pc"@),
        k.1@ == vthread_key(vid@, "status"@),
        k.2@ == vthread_key(vid@, "error/msg"@),
{
    let mut base = chars_of("/vthread/");
    push_str(&mut base, vid);
    base.push('/');
    base.push('\u{2025}');
    let mut pc = base.clone();
    let mut st = base.clone();
    let mut er = base.clone();
    push_str(&mut pc, "pc");
    push_str(&mut st, "status");
    push_str(&mut er, "error/msg");
    proof {
        assert(pc@ =~= vthread_key(vid@, "pc"@));
        assert(st@ =~= vthread_key(vid@, "status"@));
        assert(er@ =~= vthread_key(vid@, "error/msg"@));
    }
    (string_of(&pc), string_of(&st), string_of(&er))
}

/// The opcode of a dispatch: the first line of the rwir parameters.
pub fn dispatch_op(params: &str) -> (op: String)
    ensures
        op@ == crate::text::first_line_of(params@),
{
    crate::text::first_line(params)
}

// ── rwir dispatch ──────────────────────────────────────────────────

/// How the host handles an rwir opcode.
pub enum RwirOp {
    /// `byteseek·run`: run a generated program to its end.
    RunEntry,
    /// `shell·run`: run bash code and store its output.
    Shell,
    /// `python·run`: run python code and store its output.
    Python,
    /// `input`: read a line, then record it in the talk queue.
    Input,
    /// Anything else goes to the standard rwir set.
    Standard,
}

pub open spec fn op_spec(op: Seq<char>) -> RwirOp {
    if op == "byteseek\u{b7}run"@ {
        RwirOp::RunEntry
    } else if op == "shell\u{b7}run"@ {
        RwirOp::Shell
    } else if op == "python\u{b7}run"@ {
        RwirOp::Python
    } else if op == "input"@ {
        RwirOp::Input
    } else {
        RwirOp::Standard
    }
}

/// How the host handles opcode `op`.
pub fn classify_op(op: &str) -> (r: RwirOp)
    ensures
        r == op_spec(op@),
{
    let o = chars_of(op);
    if eq_lit(&o, "byteseek\u{b7}run") {
        RwirOp::RunEntry
    } else if eq_lit(&o, "shell\u{b7}run") {
        RwirOp::Shell
    } else if eq_lit(&o, "python\u{b7}run") {
        RwirOp::Python
    } else if eq_lit(&o, "input") {
        RwirOp::Input
    } else {
        RwirOp::Standard
    }
}

/// A generated entry is run unless it is empty or reports a failed
/// generation (it starts with `error`).
pub fn should_run(entry: &str) -> (b: bool)
    ensures
        b == (entry@.len() > 0 && !has_prefix(entry@, "error"@)),
{
    let e = chars_of(entry);
    e.len() > 0 && !starts_with_lit(&e, "error")
}

// ── tool output ────────────────────────────────────────────────────

/// Tool output is cut to this many bytes.
pub const TOOL_CAP: usize = 4000;

/// The UTF-8 width of a character.
pub open spec fn char_width(c: char) -> nat {
    if (c as u32) < 0x80 {
        1
    } else if (c as u32) < 0x800 {
        2
    } else if (c as u32) < 0x10000 {
        3
    } else {
        4
    }
}

/// The UTF-8 byte length of `s`.
pub open spec fn utf8_len(s: Seq<char>) -> nat
    decreases s.len(),
{
    if s.len() == 0 {
        0
    } else {
        char_width(s[0]) + utf8_len(s.drop_first())
    }
}

/// The longest prefix of `s` whose UTF-8 length is at most `n`.
pub open spec fn byte_prefix(s: Seq<char>, n: nat) -> Seq<char>
    decreases s.len(),
{
    if s.len() == 0 || char_width(s[0]) > n {
        Seq::empty()
    } else {
        seq![s[0]] + byte_prefix(s.drop_first(), (n - char_width(s[0])) as nat)
    }
}

/// The text that a finished tool run gives: its stdout, then its stderr
/// after a marker when the stderr holds more than whitespace; a note with
/// the exit code when all of that is blank.
pub open spec fn tool_text(stdout: Seq<char>, stderr: Seq<char>, code: int) -> Seq<char> {
    let s = if all_ws(stderr) {
        stdout
    } else {
        stdout + "\n[stderr]\n"@ + stderr
    };
    if all_ws(s) {
        "(\u{65e0}\u{8f93}\u{51fa}, exit="@ + signed_decimal(code) + ")"@
    } else {
        s
    }
}

/// The text of a finished tool run, given its captured stdout and stderr
/// bytes (decoded as lossy UTF-8, see `tool_text`); `exit_code` is the
/// process's exit code, -1 when it has none.
pub fn tool_output(stdout: &[u8], stderr: &[u8], exit_code: i32) -> (s: String)
    ensures
        s@ == tool_text(utf8_text(stdout@), utf8_text(stderr@), exit_code as int),
{
    let so = utf8_lossy(stdout);
    let se = utf8_lossy(stderr);
    let mut out = chars_of(so.as_str());
    let err = chars_of(se.as_str());
    if !is_blank(&err) {
        push_str(&mut out, "\n[stderr]\n");
        push_str(&mut out, se.as_str());
    }
    if is_blank(&out) {
        let mut note = chars_of("(\u{65e0}\u{8f93}\u{51fa}, exit=");
        let mut d = signed_decimal_chars(exit_code as i64);
        note.append(&mut d);
        push_str(&mut note, ")");
        string_of(&note)
    } else {
        string_of(&out)
    }
}

/// The text of a tool run that could not start.
pub fn tool_failure(err: &str) -> (s: String)
    ensures
        s@ == "\u{6267}\u{884c}\u{5931}\u{8d25}: "@ + err@,
{
    let mut v = chars_of("\u{6267}\u{884c}\u{5931}\u{8d25}: ");
    push_str(&mut v, err);
    string_of(&v)
}

fn char_width_exec(c: char) -> (w: usize)
    ensures
        w == char_width(c),
{
    let u = c as u32;
    if u < 0x80 {
        1
    } else if u < 0x800 {
        2
    } else if u < 0x10000 {
        3
    } else {
        4
    }
}

/// Tool output as the model sees it: cut to `TOOL_CAP` bytes with a note
/// when longer.
pub open spec fn capped(s: Seq<char>) -> Seq<char> {
    if utf8_len(s) > TOOL_CAP {
        byte_prefix(s, TOOL_CAP as nat) + "\n\u{2026}(\u{5df2}\u{622a}\u{65ad})"@
    } else {
        s
    }
}

/// Cuts tool output to at most `TOOL_CAP` bytes, between two characters,
/// with a note when it was longer (see `capped`).
pub fn cap_tool_output(s: &str) -> (r: String)
    ensures
        r@ == capped(s@),
{
    let c = chars_of(s);
    let mut used: usize = 0;
    let mut i: usize = 0;
    let mut stop = false;
    proof {
        assert(c@.subrange(0, 0) =~= Seq::<char>::empty());
        assert(c@.subrange(0, c@.len() as int) =~= c@);
    }
    while !stop && i < c.len()
        invariant
            0 <= i <= c@.len(),
            c@ == s@,
            used == utf8_len(c@.subrange(0, i as int)),
            used <= TOOL_CAP,
            byte_prefix(s@, TOOL_CAP as nat) == c@.subrange(0, i as int) + byte_prefix(
                c@.subrange(i as int, c@.len() as int),
                (TOOL_CAP - used) as nat,
            ),
            utf8_len(s@) == used + utf8_len(c@.subrange(i as int, c@.len() as int)),
            stop ==> i < c@.len() && char_width(c@[i as int]) > TOOL_CAP - used,
        decreases c@.len() - i + (if stop {
            0int
        } else {
            1int
        }),
    {
        let ghost rest = c@.subrange(i as int, c@.len() as int);
        proof {
            assert(rest.drop_first() =~= c@.subrange(i + 1, c@.len() as int));
            assert(rest[0] == c@[i as int]);
        }
        let w = char_width_exec(c[i]);
        if w > TOOL_CAP - used {
            stop = true;
        } else {
            proof {
                lemma_utf8_len_prefix_push(c@, i as int);
                assert(c@.subrange(0, i as int) + byte_prefix(rest, (TOOL_CAP - used) as nat)
                    =~= c@.subrange(0, i + 1) + byte_prefix(
                    c@.subrange(i + 1, c@.len() as int),
                    (TOOL_CAP - used - w) as nat,
                ));
            }
            used = used + w;
            i = i + 1;
        }
    }
    if stop {
        proof {
            let rest = c@.subrange(i as int, c@.len() as int);
            assert(rest[0] == c@[i as int]);
            assert(byte_prefix(rest, (TOOL_CAP - used) as nat) =~= Seq::<char>::empty());
            assert(c@.subrange(0, i as int) + Seq::<char>::empty() =~= c@.subrange(0, i as int));
            lemma_utf8_len_ge_first(rest);
        }
        let mut v = c.clone();
        v.truncate(i);
        push_str(&mut v, "\n\u{2026}(\u{5df2}\u{622a}\u{65ad})");
        proof {
            assert(v@ =~= c@.subrange(0, i as int) + "\n\u{2026}(\u{5df2}\u{622a}\u{65ad})"@);
        }
        string_of(&v)
    } else {
        proof {
            let e = c@.subrange(c@.len() as int, c@.len() as int);
            assert(e.len() == 0);
            assert(utf8_len(e) == 0);
        }
        string_of(&c)
    }
}

proof fn lemma_utf8_len_ge_first(s: Seq<char>)
    requires
        s.len() > 0,
    ensures
        utf8_len(s) >= char_width(s[0]),
{
}

proof fn lemma_utf8_len_prefix_push(s: Seq<char>, i: int)
    requires
        0 <= i < s.len(),
    ensures
        utf8_len(s.subrange(0, i + 1)) == utf8_len(s.subrange(0, i)) + char_width(s[i]),
    decreases i,
{
    if i > 0 {
        lemma_utf8_len_prefix_push(s.drop_first(), i - 1);
        assert(s.subrange(0, i + 1).drop_first() =~= s.drop_first().subrange(0, i));
        assert(s.subrange(0, i).drop_first() =~= s.drop_first().subrange(0, i - 1));
        assert(s.subrange(0, i + 1)[0] == s[0]);
        assert(s.subrange(0, i)[0] == s[0]);
        assert(s.drop_first()[i - 1] == s[i]);
    } else {
        assert(s.subrange(0, 1).drop_first() =~= Seq::<char>::empty());
        assert(s.subrange(0, 1)[0] == s[0]);
        assert(utf8_len(Seq::<char>::empty()) == 0);
        assert(s.subrange(0, 0).len() == 0);
    }
}

} // verus!

verus! {

// ── terminal input and output ──────────────────────────────────────

/// `s` without its trailing line feeds and carriage returns.
pub open spec fn trim_newlines(s: Seq<char>) -> Seq<char>
    decreases s.len(),
{
    if s.len() > 0 && (s.last() == '\n' || s.last() == '\r') {
        trim_newlines(s.drop_last())
    } else {
        s
    }
}

/// The line that `input` hands on: `exit` at end of input (nothing read),
/// else the line read without its line ending.
pub fn input_line(bytes_read: usize, line: &str) -> (r: String)
    ensures
        bytes_read == 0 ==> r@ == "exit"@,
        bytes_read != 0 ==> r@ == trim_newlines(line@),
{
    if bytes_read == 0 {
        return string_of(&chars_of("exit"));
    }
    let c = chars_of(line);
    let mut hi = c.len();
    proof {
        assert(c@.subrange(0, c@.len() as int) =~= c@);
    }
    while hi > 0 && (c[hi - 1] == '\n' || c[hi - 1] == '\r')
        invariant
            0 <= hi <= c@.len(),
            trim_newlines(c@) == trim_newlines(c@.subrange(0, hi as int)),
        decreases hi,
    {
        proof {
            assert(c@.subrange(0, hi as int).drop_last() =~= c@.subrange(0, hi - 1));
        }
        hi = hi - 1;
    }
    string_from(&c, 0, hi)
}

/// Where a printed line goes and what is printed.
pub struct PrintPlan {
    pub text: String,
    pub to_stderr: bool,
}

/// `print_line`: the line, followed by a line feed unless the runtime
/// asked for none (`rawnl` set); to stderr when `cerr` is set.
pub fn print_plan(line: &str, rawnl: i32, cerr: i32) -> (p: PrintPlan)
    ensures
        rawnl == 0 ==> p.text@ == line@ + seq!['\n'],
        rawnl != 0 ==> p.text@ == line@,
        p.to_stderr == (cerr != 0),
{
    let mut v = chars_of(line);
    if rawnl == 0 {
        v.push('\n');
    }
    PrintPlan { text: string_of(&v), to_stderr: cerr != 0 }
}

// ── LLM settings ───────────────────────────────────────────────────

/// The LLM endpoint used when none is configured.
pub open spec fn default_llm_url() -> Seq<char> {
    "https://api.deepseek.com/chat/completions"@
}

/// The keys and values that seed the LLM settings, given the environment's
/// `DEEPSEEK_API_URL`, `DEEPSEEK_API_KEY` and `BYTESEEK_LLM_PRINT` (`None`
/// where unset): the endpoint defaults to `default_llm_url`, the key to
/// nothing, printing to `1`.
pub fn seed_settings(api: Option<&str>, key: Option<&str>, print: Option<&str>) -> (s: Vec<
    (String, String),
>)
    ensures
        s@.len() == 3,
        s@[0].0@ == "/byteseek/llm.api"@,
        s@[0].1@ == (match api {
            Some(a) => a@,
            None => default_llm_url(),
        }),
        s@[1].0@ == "/byteseek/llm.key"@,
        s@[1].1@ == (match key {
            Some(k) => k@,
            None => Seq::<char>::empty(),
        }),
        s@[2].0@ == "/byteseek/llm.print"@,
        s@[2].1@ == (match print {
            Some(p) => p@,
            None => "1"@,
        }),
{
    let a = match api {
        Some(a) => chars_of(a),
        None => chars_of("https://api.deepseek.com/chat/completions"),
    };
    let k = match key {
        Some(k) => chars_of(k),
        None => Vec::new(),
    };
    let p = match print {
        Some(p) => chars_of(p),
        None => chars_of("1"),
    };
    let mut s: Vec<(String, String)> = Vec::new();
    s.push((string_of(&chars_of("/byteseek/llm.api")), string_of(&a)));
    s.push((string_of(&chars_of("/byteseek/llm.key")), string_of(&k)));
    s.push((string_of(&chars_of("/byteseek/llm.print")), string_of(&p)));
    s
}

// ── sub-agents ─────────────────────────────────────────────────────

/// The keys and names of one sub-agent spawn.
pub struct SpawnPlan {
    /// The number of this sub-agent (one more than those before).
    pub number: u64,
    /// Where the parent session keeps the subtask.
    pub subtask_key: String,
    /// The sub-agent's session name, `sub{number}`.
    pub sub: String,
    /// The sub-agent's session directory.
    pub session_path: String,
    /// Where the sub-agent leaves its final answer.
    pub final_key: String,
}

pub open spec fn sub_name(k: nat) -> Seq<char> {
    "sub"@ + decimal(k)
}

/// What spawning the next sub-agent of session `sid` uses, after `spawned`
/// earlier ones.
pub fn spawn_plan(sid: &str, spawned: u64) -> (p: SpawnPlan)
    requires
        spawned < u64::MAX,
    ensures
        p.number == spawned + 1,
        p.subtask_key@ == "/session/"@ + sid@ + "/action/arg"@,
        p.sub@ == sub_name(p.number as nat),
        p.session_path@ == "/session/"@ + sub_name(p.number as nat),
        p.final_key@ == "/session/"@ + sub_name(p.number as nat) + "/final"@,
{
    let k = spawned + 1;
    let mut task = chars_of("/session/");
    push_str(&mut task, sid);
    push_str(&mut task, "/action/arg");
    let mut sub = chars_of("sub");
    let mut d = decimal_chars(k);
    sub.append(&mut d);
    let mut path = chars_of("/session/");
    let mut sub2 = sub.clone();
    path.append(&mut sub2);
    let mut fin = path.clone();
    push_str(&mut fin, "/final");
    proof {
        assert(task@ =~= "/session/"@ + sid@ + "/action/arg"@);
        assert(path@ =~= "/session/"@ + sub_name(k as nat));
        assert(fin@ =~= "/session/"@ + sub_name(k as nat) + "/final"@);
    }
    SpawnPlan {
        number: k,
        subtask_key: string_of(&task),
        sub: string_of(&sub),
        session_path: string_of(&path),
        final_key: string_of(&fin),
    }
}

/// The summary a sub-agent returns: its final answer, or a note that it
/// gave none.
pub open spec fn summary_text(final_text: Seq<char>) -> Seq<char> {
    if final_text.len() == 0 {
        "(\u{5b50} agent \u{65e0}\u{6700}\u{7ec8}\u{7b54}\u{6848})"@
    } else {
        final_text
    }
}

/// The summary of a sub-agent and the message that reports it to the
/// parent session.
pub fn spawn_report(subtask: &str, final_text: &str) -> (r: (String, String))
    ensures
        r.0@ == summary_text(final_text@),
        r.1@ == "\u{5b50} agent("@ + subtask@ + ") \u{8fd4}\u{56de}:\n"@ + summary_text(
            final_text@,
        ),
{
    let f = chars_of(final_text);
    let summary = if f.len() == 0 {
        chars_of("(\u{5b50} agent \u{65e0}\u{6700}\u{7ec8}\u{7b54}\u{6848})")
    } else {
        f
    };
    let mut msg = chars_of("\u{5b50} agent(");
    push_str(&mut msg, subtask);
    push_str(&mut msg, ") \u{8fd4}\u{56de}:\n");
    let mut s2 = summary.clone();
    msg.append(&mut s2);
    proof {
        assert(msg@ =~= "\u{5b50} agent("@ + subtask@ + ") \u{8fd4}\u{56de}:\n"@ + summary_text(
            final_text@,
        ));
    }
    (string_of(&summary), string_of(&msg))
}

// ── rwir parameters and listings ────────────────────────────────────

/// The root that parameter line `i` names, when it is an absolute path
/// (starts with `/`); `None` means the rwir's slot gives it.
pub fn param_root(params: &str, i: usize) -> (r: Option<String>)
    requires
        i < lines(params@).len(),
    ensures
        has_prefix(lines(params@)[i as int], "/"@) ==> (r matches Some(p) && p@ == lines(
            params@,
        )[i as int]),
        !has_prefix(lines(params@)[i as int], "/"@) ==> r is None,
{
    let names = lines_of(params);
    let n = chars_of(names[i].as_str());
    if starts_with_lit(&n, "/") {
        Some(names[i].clone())
    } else {
        None
    }
}

/// The child names of a kvspace listing (the listing's bytes, decoded as
/// lossy UTF-8, split at line feeds, empty names dropped).
pub fn list_names(raw: &[u8]) -> (v: Vec<String>)
    ensures
        strings_are(v@, crate::text::names(utf8_text(raw@))),
{
    let s = utf8_lossy(raw);
    split_names(s.as_str())
}

} // verus!

verus! {

// ── laws of tool output ──────────────────────────────────────────────

/// The width that tool output is measured in is its UTF-8 byte length: the
/// width counted for text is the length of its UTF-8 encoding.
pub proof fn lemma_utf8_len_is_encoding(s: Seq<char>)
    ensures
        utf8_len(s) == vstd::utf8::encode_utf8(s).len(),
    decreases s.len(),
{
    if s.len() > 0 {
        lemma_utf8_len_is_encoding(s.drop_first());
        vstd::utf8::char_is_scalar(s[0]);
    }
}

/// The prefix `byte_prefix(s, n)` is the first `k` characters of `s` for
/// some `k`: at most `n` bytes, and one more character would exceed `n`.
proof fn lemma_byte_prefix_shape(s: Seq<char>, n: nat) -> (k: int)
    ensures
        0 <= k <= s.len(),
        byte_prefix(s, n) == s.subrange(0, k),
        utf8_len(s.subrange(0, k)) <= n,
        k < s.len() ==> utf8_len(s.subrange(0, k + 1)) > n,
    decreases s.len(),
{
    if s.len() == 0 || char_width(s[0]) > n {
        assert(s.subrange(0, 0) =~= Seq::<char>::empty());
        if s.len() > 0 {
            lemma_utf8_len_prefix_push(s, 0);
        }
        0
    } else {
        let w = char_width(s[0]);
        let rest = s.drop_first();
        let k2 = lemma_byte_prefix_shape(rest, (n - w) as nat);
        let k = k2 + 1;
        assert(s.subrange(0, k) =~= seq![s[0]] + rest.subrange(0, k2));
        assert(s.subrange(0, k).drop_first() =~= rest.subrange(0, k2));
        if k < s.len() {
            assert(s.subrange(0, k + 1).drop_first() =~= rest.subrange(0, k2 + 1));
        }
        k
    }
}

/// Tool output of at most `TOOL_CAP` UTF-8 bytes is kept whole; longer
/// output is cut to its longest prefix of at most `TOOL_CAP` bytes that
/// ends between characters, followed by the truncation note.
pub proof fn lemma_capped_output(s: Seq<char>)
    ensures
        vstd::utf8::encode_utf8(s).len() <= TOOL_CAP ==> capped(s) == s,
        vstd::utf8::encode_utf8(s).len() > TOOL_CAP ==> exists|k: int|
            0 <= k < s.len() && capped(s) == s.subrange(0, k)
                + "\n\u{2026}(\u{5df2}\u{622a}\u{65ad})"@ && vstd::utf8::encode_utf8(
                s.subrange(0, k),
            ).len() <= TOOL_CAP && vstd::utf8::encode_utf8(#[trigger] s.subrange(0, k + 1)).len()
                > TOOL_CAP,
{
    lemma_utf8_len_is_encoding(s);
    if utf8_len(s) > TOOL_CAP {
        let k = lemma_byte_prefix_shape(s, TOOL_CAP as nat);
        lemma_utf8_len_is_encoding(s.subrange(0, k));
        if k == s.len() {
            assert(s.subrange(0, k) =~= s);
        }
        lemma_utf8_len_is_encoding(s.subrange(0, k + 1));
    }
}

/// Stderr that holds more than whitespace is always reported after the
/// `[stderr]` marker, behind stdout; with blank stderr the text is stdout,
/// and only when both are blank is it the note with the exit code.
pub proof fn lemma_tool_text(stdout: Seq<char>, stderr: Seq<char>, code: int)
    ensures
        !all_ws(stderr) ==> tool_text(stdout, stderr, code) == stdout + "\n[stderr]\n"@ + stderr,
        all_ws(stderr) && !all_ws(stdout) ==> tool_text(stdout, stderr, code) == stdout,
        all_ws(stderr) && all_ws(stdout) ==> tool_text(stdout, stderr, code)
            == "(\u{65e0}\u{8f93}\u{51fa}, exit="@ + signed_decimal(code) + ")"@,
{
    if !all_ws(stderr) {
        let t = stdout + "\n[stderr]\n"@ + stderr;
        let j = choose|j: int| 0 <= j < stderr.len() && !is_ws(#[trigger] stderr[j]);
        let off = stdout.len() + "\n[stderr]\n"@.len();
        assert(t[off + j] == stderr[j]);
        assert(!all_ws(t));
    }
}

} // verus!
