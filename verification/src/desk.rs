//! The human's desk: what the app composes for the human side — the nudge
//! typed into an agent's pane, and where an evidence pointer opens.

use vstd::prelude::*;
use vstd::string::*;

use crate::seqs::first_where;
use crate::text::{
    same, chars_of, collapse_whitespace, collapse_ws, decimal, digits_value, is_digit, is_ws, join, owned,
    parse_u64, push_char, push_decimal, words,
};
use crate::types::{opt_text, Goal, GoalV, Pointer, PointerV};

verus! {

pub open spec fn note_head(contract_version: u64) -> Seq<char> {
    "[witnos] The verification contract moved to v"@ + decimal(contract_version as nat) + "."@
}

pub open spec fn note_tail(goal_id: Seq<char>, contract_version: u64, synced: u64) -> Seq<char> {
    " Run `witnos contract show --goal "@ + goal_id + " --since "@ + decimal(synced as nat)
        + "` to see what changed, address it, then `witnos reconcile --goal "@ + goal_id
        + " --to "@ + decimal(contract_version as nat) + "`."@
}

/// The nudge typed into an agent's pane: the move, the human's words on one
/// line (when there are any), then the commands to run.
pub open spec fn agent_note_text(
    goal_id: Seq<char>,
    contract_version: u64,
    synced: u64,
    note: Seq<char>,
) -> Seq<char> {
    note_head(contract_version) + (if collapse_ws(note).len() > 0 {
        " From the user: "@ + collapse_ws(note)
    } else {
        Seq::empty()
    }) + note_tail(goal_id, contract_version, synced)
}

/// The nudge for a goal at `contract_version` whose agent is synced to
/// `synced_version`, carrying the human's `note`. One line: it is typed into
/// a shell, where a newline would submit.
pub fn agent_note(goal_id: &str, contract_version: u64, synced_version: u64, note: &str) -> (r:
    String)
    ensures
        r@ == agent_note_text(goal_id@, contract_version, synced_version, note@),
{
    let mut text = owned("[witnos] The verification contract moved to v");
    push_decimal(&mut text, contract_version);
    text.append(".");
    let collapsed = collapse_whitespace(note);
    if !collapsed.as_str().is_empty() {
        text.append(" From the user: ");
        text.append(collapsed.as_str());
    }
    text.append(" Run `witnos contract show --goal ");
    text.append(goal_id);
    text.append(" --since ");
    push_decimal(&mut text, synced_version);
    text.append("` to see what changed, address it, then `witnos reconcile --goal ");
    text.append(goal_id);
    text.append(" --to ");
    push_decimal(&mut text, contract_version);
    text.append("`.");
    proof {
        lemma_collapse_len(note@, collapsed@);
    }
    assert(text@ =~= agent_note_text(goal_id@, contract_version, synced_version, note@));
    text
}

proof fn lemma_collapse_len(s: Seq<char>, c: Seq<char>)
    requires
        c == collapse_ws(s),
    ensures
        (c.len() > 0) == (collapse_ws(s).len() > 0),
{
}

pub open spec fn no_line_break(s: Seq<char>) -> bool {
    forall|i: int| 0 <= i < s.len() ==> s[i] != '\n' && s[i] != '\r'
}

proof fn lemma_words_nonempty(s: Seq<char>)
    requires
        s.len() > 0,
        !is_ws(s.last()),
    ensures
        words(s).len() > 0,
    decreases s.len(),
{
    let init = s.drop_last();
    if init.len() > 0 && !is_ws(init.last()) {
        lemma_words_nonempty(init);
    }
}

proof fn lemma_words_have_no_ws(s: Seq<char>)
    ensures
        forall|k: int, j: int|
            0 <= k < words(s).len() && 0 <= j < words(s)[k].len() ==> !is_ws(
                #[trigger] words(s)[k][j],
            ),
    decreases s.len(),
{
    if s.len() > 0 {
        lemma_words_have_no_ws(s.drop_last());
        let w = words(s.drop_last());
        let c = s.last();
        if !is_ws(c) {
            if s.drop_last().len() == 0 || is_ws(s.drop_last().last()) {
                assert forall|k: int, j: int|
                    0 <= k < words(s).len() && 0 <= j < words(s)[k].len() implies !is_ws(
                    #[trigger] words(s)[k][j],
                ) by {
                    if k < w.len() {
                        assert(words(s)[k] == w[k]);
                    }
                }
            } else {
                lemma_words_nonempty(s.drop_last());
                assert forall|k: int, j: int|
                    0 <= k < words(s).len() && 0 <= j < words(s)[k].len() implies !is_ws(
                    #[trigger] words(s)[k][j],
                ) by {
                    if k < w.len() - 1 {
                        assert(words(s)[k] == w[k]);
                    } else {
                        assert(words(s)[k] == w.last().push(c));
                        if j < w.last().len() {
                            assert(words(s)[k][j] == w[w.len() - 1][j]);
                        }
                    }
                }
            }
        }
    }
}

proof fn lemma_join_no_break(ws: Seq<Seq<char>>)
    requires
        forall|k: int, j: int|
            0 <= k < ws.len() && 0 <= j < ws[k].len() ==> !is_ws(#[trigger] ws[k][j]),
    ensures
        no_line_break(join(ws, ' ')),
    decreases ws.len(),
{
    if ws.len() == 1 {
        assert forall|i: int| 0 <= i < join(ws, ' ').len() implies join(ws, ' ')[i] != '\n'
            && join(ws, ' ')[i] != '\r' by {
            assert(!is_ws(ws[0][i]));
        }
    } else if ws.len() > 1 {
        let init = ws.drop_last();
        assert forall|k: int, j: int|
            0 <= k < init.len() && 0 <= j < init[k].len() implies !is_ws(#[trigger] init[k][j]) by {
            assert(init[k] == ws[k]);
        }
        lemma_join_no_break(init);
        let a = join(init, ' ').push(' ');
        let j = join(ws, ' ');
        assert(j == a + ws.last());
        assert forall|i: int| 0 <= i < j.len() implies j[i] != '\n' && j[i] != '\r' by {
            if i < a.len() {
                if i < join(init, ' ').len() {
                    assert(j[i] == join(init, ' ')[i]);
                }
            } else {
                assert(j[i] == ws[ws.len() - 1][i - a.len()]);
                assert(!is_ws(ws[ws.len() - 1][i - a.len()]));
            }
        }
    }
}

proof fn lemma_decimal_no_break(n: nat)
    ensures
        no_line_break(decimal(n)),
    decreases n,
{
    if n >= 10 {
        lemma_decimal_no_break(n / 10);
        assert(decimal(n) == decimal(n / 10).push(crate::text::digit_char(n % 10)));
    }
}

proof fn lemma_cat_no_break(a: Seq<char>, b: Seq<char>)
    requires
        no_line_break(a),
        no_line_break(b),
    ensures
        no_line_break(a + b),
{
    assert forall|i: int| 0 <= i < (a + b).len() implies (a + b)[i] != '\n' && (a + b)[i]
        != '\r' by {
        if i >= a.len() {
            assert((a + b)[i] == b[i - a.len()]);
        }
    }
}

/// The nudge is one line whatever the human typed: a multi-line note is
/// folded onto it, and nothing else in it breaks a line unless the goal id
/// does.
pub proof fn the_agent_note_is_one_line(
    goal_id: Seq<char>,
    contract_version: u64,
    synced: u64,
    note: Seq<char>,
)
    requires
        no_line_break(goal_id),
    ensures
        no_line_break(agent_note_text(goal_id, contract_version, synced, note)),
{
    reveal_strlit("[witnos] The verification contract moved to v");
    reveal_strlit(".");
    reveal_strlit(" From the user: ");
    reveal_strlit(" Run `witnos contract show --goal ");
    reveal_strlit(" --since ");
    reveal_strlit("` to see what changed, address it, then `witnos reconcile --goal ");
    reveal_strlit(" --to ");
    reveal_strlit("`.");
    lemma_decimal_no_break(contract_version as nat);
    lemma_decimal_no_break(synced as nat);
    lemma_words_have_no_ws(note);
    lemma_join_no_break(words(note));
    let head = note_head(contract_version);
    lemma_cat_no_break("[witnos] The verification contract moved to v"@, decimal(contract_version as nat));
    lemma_cat_no_break("[witnos] The verification contract moved to v"@ + decimal(contract_version as nat), "."@);
    let mid = if collapse_ws(note).len() > 0 {
        " From the user: "@ + collapse_ws(note)
    } else {
        Seq::empty()
    };
    lemma_cat_no_break(" From the user: "@, collapse_ws(note));
    let t1 = " Run `witnos contract show --goal "@ + goal_id;
    lemma_cat_no_break(" Run `witnos contract show --goal "@, goal_id);
    lemma_cat_no_break(t1, " --since "@);
    lemma_cat_no_break(t1 + " --since "@, decimal(synced as nat));
    let t2 = t1 + " --since "@ + decimal(synced as nat);
    lemma_cat_no_break(t2, "` to see what changed, address it, then `witnos reconcile --goal "@);
    let t3 = t2 + "` to see what changed, address it, then `witnos reconcile --goal "@;
    lemma_cat_no_break(t3, goal_id);
    lemma_cat_no_break(t3 + goal_id, " --to "@);
    lemma_cat_no_break(t3 + goal_id + " --to "@, decimal(contract_version as nat));
    lemma_cat_no_break(t3 + goal_id + " --to "@ + decimal(contract_version as nat), "`."@);
    lemma_cat_no_break(head, mid);
    lemma_cat_no_break(head + mid, note_tail(goal_id, contract_version, synced));
}

pub open spec fn has_quote(s: Seq<char>) -> bool {
    exists|i: int| 0 <= i < s.len() && s[i] == '"'
}

/// The `cmd` command line that opens `target` through `start`, quoted so
/// that `&` or `|` in it cannot split the line; a target holding a double
/// quote of its own could break out of the quoting, so it gets none.
pub fn windows_open_cmdline(target: &str) -> (r: Option<String>)
    ensures
        has_quote(target@) ==> r is None,
        !has_quote(target@) ==> (r matches Some(line) && line@ == "/C start \"\" \""@ + target@
            + "\""@),
{
    for c in it: target.chars()
        invariant
            it.seq() == target@,
            forall|i: int| 0 <= i < it.index() ==> target@[i] != '"',
    {
        if c == '"' {
            assert(target@[it.index() as int] == '"');
            return None;
        }
    }
    let mut line = owned("/C start \"\" \"");
    line.append(target);
    line.append("\"");
    Some(line)
}

/// The run of digits at the front of `s`.
pub open spec fn digit_run(s: Seq<char>) -> Seq<char>
    decreases s.len(),
{
    if s.len() > 0 && is_digit(s[0]) {
        seq![s[0]] + digit_run(s.drop_first())
    } else {
        Seq::empty()
    }
}

/// The first run of digits in `s`, read as a `u32`.
pub open spec fn first_number_of(s: Seq<char>) -> Option<u32> {
    match first_where(s, digit_pred()) {
        None => None,
        Some(i) => if digits_value(digit_run(s.skip(i))) <= u32::MAX {
            Some(digits_value(digit_run(s.skip(i))) as u32)
        } else {
            None
        },
    }
}

proof fn lemma_digit_run_digits(s: Seq<char>)
    ensures
        crate::text::all_digits(digit_run(s)),
        digit_run(s).len() <= s.len(),
        forall|i: int| 0 <= i < digit_run(s).len() ==> digit_run(s)[i] == s[i],
        digit_run(s).len() < s.len() ==> !is_digit(s[digit_run(s).len() as int]),
    decreases s.len(),
{
    if s.len() > 0 && is_digit(s[0]) {
        lemma_digit_run_digits(s.drop_first());
        let r = digit_run(s);
        assert forall|i: int| 0 <= i < r.len() implies #[trigger] is_digit(r[i]) by {
            if i > 0 {
                assert(r[i] == digit_run(s.drop_first())[i - 1]);
            }
        }
        assert forall|i: int| 0 <= i < r.len() implies r[i] == s[i] by {
            if i > 0 {
                assert(r[i] == digit_run(s.drop_first())[i - 1]);
                assert(digit_run(s.drop_first())[i - 1] == s.drop_first()[i - 1]);
            }
        }
        if r.len() < s.len() {
            assert(s[r.len() as int] == s.drop_first()[digit_run(s.drop_first()).len() as int]);
        }
    }
}

pub open spec fn digit_pred() -> spec_fn(char) -> bool {
    |c: char| is_digit(c)
}

/// The first number in an evidence `lines` field ("120", "120-140", "L12").
pub fn first_number(s: &str) -> (r: Option<u32>)
    ensures
        r == first_number_of(s@),
{
    let cs = chars_of(s);
    let mut i: usize = 0;
    while i < cs.len() && !('0' <= cs[i] && cs[i] <= '9')
        invariant
            i <= cs@.len(),
            cs@ == s@,
            forall|j: int| 0 <= j < i ==> !(#[trigger] digit_pred()(s@[j])),
        decreases cs@.len() - i,
    {
        i = i + 1;
    }
    if i == cs.len() {
        proof {
            crate::seqs::lemma_first_where_none(s@, digit_pred());
        }
        return None;
    }
    proof {
        crate::seqs::lemma_first_where_found(s@, digit_pred(), i as int);
    }
    let mut run = String::new();
    let mut j: usize = i;
    while j < cs.len() && '0' <= cs[j] && cs[j] <= '9'
        invariant
            i <= j <= cs@.len(),
            cs@ == s@,
            run@ == s@.subrange(i as int, j as int),
            forall|x: int| i <= x < j ==> is_digit(#[trigger] s@[x]),
        decreases cs@.len() - j,
    {
        push_char(&mut run, cs[j]);
        assert(run@ =~= s@.subrange(i as int, j + 1));
        j = j + 1;
    }
    proof {
        let t = s@.skip(i as int);
        lemma_digit_run_digits(t);
        let r = digit_run(t);
        if r.len() < j - i {
            assert(t[r.len() as int] == s@[i + r.len()]);
            assert(is_digit(s@[i + r.len()]));
            assert(!is_digit(t[r.len() as int]));
        }
        if r.len() > j - i {
            assert(r[j - i] == t[j - i]);
            assert(t[j - i] == s@[j as int]);
            assert(is_digit(r[j - i]));
            assert(j < cs@.len());
            assert(!is_digit(cs@[j as int]));
        }
        assert(r.len() == j - i);
        assert(r =~= run@) by {
            assert forall|x: int| 0 <= x < r.len() implies r[x] == run@[x] by {
                assert(r[x] == t[x]);
                assert(t[x] == s@[i + x]);
            }
        }
        assert(crate::text::all_digits(run@));
        assert(run@.len() > 0);
        assert(run@[0] != '+');
        assert(crate::text::parsed_u64(run@) == (if digits_value(run@) <= u64::MAX {
            Some(digits_value(run@) as u64)
        } else {
            None::<u64>
        }));
    }
    match parse_u64(run.as_str()) {
        Some(v) => {
            if v <= 0xffff_ffff {
                Some(v as u32)
            } else {
                None
            }
        },
        None => None,
    }
}

// ---------- opening what a pointer points at ----------

/// A byte that stays as it is in a `scheme://file/...` URL.
pub open spec fn unreserved(b: u8) -> bool {
    ||| 65 <= b <= 90
    ||| 97 <= b <= 122
    ||| 48 <= b <= 57
    ||| b == 45
    ||| b == 46
    ||| b == 95
    ||| b == 126
    ||| b == 47
}

/// An upper-case hexadecimal digit.
pub open spec fn hex_digit(n: u8) -> char {
    if n < 10 {
        ((48 + n) as u8) as char
    } else {
        ((55 + n) as u8) as char
    }
}

pub open spec fn encoded_byte(b: u8) -> Seq<char> {
    if unreserved(b) {
        seq![b as char]
    } else {
        seq!['%', hex_digit(b / 16), hex_digit(b % 16)]
    }
}

/// Every byte either kept or written `%XX`.
pub open spec fn percent_encoded(bytes: Seq<u8>) -> Seq<char>
    decreases bytes.len(),
{
    if bytes.len() == 0 {
        Seq::empty()
    } else {
        percent_encoded(bytes.drop_last()) + encoded_byte(bytes.last())
    }
}

fn hex(n: u8) -> (c: char)
    requires
        n < 16,
    ensures
        c == hex_digit(n),
{
    if n < 10 {
        (48 + n) as char
    } else {
        (55 + n) as char
    }
}

/// Percent-encode a path's UTF-8 bytes for a `scheme://file/...` URL,
/// keeping `/` so the path stays readable.
pub fn percent_encode(path: &str) -> (r: String)
    ensures
        r@ == percent_encoded(path.spec_bytes()),
{
    let bytes = path.as_bytes();
    let mut out = String::new();
    let mut k: usize = 0;
    while k < bytes.len()
        invariant
            k <= bytes@.len(),
            bytes@ == path.spec_bytes(),
            out@ == percent_encoded(bytes@.take(k as int)),
        decreases bytes@.len() - k,
    {
        let b = bytes[k];
        proof {
            assert(bytes@.take(k + 1).drop_last() =~= bytes@.take(k as int));
        }
        if (65 <= b && b <= 90) || (97 <= b && b <= 122) || (48 <= b && b <= 57) || b == 45 || b
            == 46 || b == 95 || b == 126 || b == 47 {
            push_char(&mut out, b as char);
        } else {
            push_char(&mut out, '%');
            push_char(&mut out, hex(b / 16));
            push_char(&mut out, hex(b % 16));
        }
        assert(out@ =~= percent_encoded(bytes@.take(k + 1)));
        k = k + 1;
    }
    assert(bytes@.take(k as int) =~= bytes@);
    out
}

/// Where a pointer lands on this machine.
#[derive(Debug)]
pub enum Target {
    File { path: String, line: Option<u32> },
    Url(String),
}

/// `Path::is_relative`. What counts as relative is the platform's rule, so
/// nothing is stated of the answer.
#[verifier::external_body]
fn path_is_relative(p: &str) -> (r: bool) {
    std::path::Path::new(p).is_relative()
}

/// `Path::join`: `p` resolved against `dir`, read back lossily. The joining
/// rules are the platform's, so nothing is stated of the result.
#[verifier::external_body]
fn join_path(dir: &str, p: &str) -> (r: String) {
    std::path::Path::new(dir).join(p).to_string_lossy().into_owned()
}

pub open spec fn msg_unanchored(path: Seq<char>) -> Seq<char> {
    "cannot open "@ + path
        + ": relative path, and this goal has no project directory to resolve it against"@
}

pub open spec fn line_of(lines: Option<Seq<char>>) -> Option<u32> {
    match lines {
        Some(l) => first_number_of(l),
        None => None,
    }
}

/// A file pointer resolved on the platform's answers: `relative` is whether
/// the platform counts `path` as relative, `joined` is `path` resolved
/// against the goal's project directory. An absolute path is kept; a
/// relative one is joined to the project directory, or refused rather than
/// guessed at when the goal has none. The line is the first number of the
/// line range, if any.
pub open spec fn file_resolved(
    g: GoalV,
    path: Seq<char>,
    lines: Option<Seq<char>>,
    relative: bool,
    joined: Option<Seq<char>>,
    r: Result<Option<Target>, String>,
) -> bool {
    if !relative {
        r matches Ok(Some(Target::File { path: p, line })) && p@ == path && line == line_of(lines)
    } else if g.project_dir is None {
        r matches Err(m) && m@ == msg_unanchored(path)
    } else {
        r matches Ok(Some(Target::File { path: p, line })) && joined matches Some(j) && p@ == j
            && line == line_of(lines)
    }
}

/// Resolve a pointer against the goal's workspace; `Ok(None)` means there
/// is nothing to open. A file pointer lands where `file_resolved` says for
/// what the platform answered about its path.
pub open spec fn target_resolved(g: GoalV, pointer: PointerV, r: Result<Option<Target>, String>) -> bool {
    match pointer {
        PointerV::Url { url } => r matches Ok(Some(Target::Url(u))) && u@ == url,
        PointerV::Command { .. } => r matches Ok(None),
        PointerV::File { path, lines } => exists|relative: bool, joined: Option<Seq<char>>|
            #[trigger] file_resolved(g, path, lines, relative, joined, r),
    }
}

/// Resolve a file pointer given the platform's answers about its path (see
/// `file_resolved`). `joined` is needed only for a relative path when the
/// goal has a project directory.
pub fn resolve_file(goal: &Goal, path: &str, lines: &Option<String>, relative: bool, joined: Option<String>) -> (r: Result<Option<Target>, String>)
    requires
        relative && goal@.project_dir is Some ==> joined is Some,
    ensures
        file_resolved(goal@, path@, opt_text(*lines), relative, opt_text(joined), r),
{
    let line = match lines {
        Some(l) => first_number(l.as_str()),
        None => None,
    };
    if !relative {
        return Ok(Some(Target::File { path: owned(path), line }));
    }
    match (&goal.project_dir, joined) {
        (Some(_), Some(full)) => Ok(Some(Target::File { path: full, line })),
        _ => {
            let mut m = owned("cannot open ");
            m.append(path);
            m.append(
                ": relative path, and this goal has no project directory to resolve it against",
            );
            Err(m)
        },
    }
}

/// Resolve a pointer: a file's path is asked of the platform (is it
/// relative; joined to the project directory when it is and there is one),
/// and the answers decide as `resolve_file` says.
pub fn resolve_target(goal: &Goal, pointer: &Pointer) -> (r: Result<Option<Target>, String>)
    ensures
        target_resolved(goal@, pointer@, r),
{
    match pointer {
        Pointer::File { path, lines } => {
            let relative = path_is_relative(path.as_str());
            let joined = if relative {
                match &goal.project_dir {
                    Some(dir) => Some(join_path(dir.as_str(), path.as_str())),
                    None => None,
                }
            } else {
                None
            };
            let ghost jv = opt_text(joined);
            let r = resolve_file(goal, path.as_str(), lines, relative, joined);
            assert(target_resolved(goal@, pointer@, r)) by {
                assert(file_resolved(goal@, pointer@->path, pointer@->lines, relative, jv, r));
            }
            r
        },
        Pointer::Url { url } => Ok(Some(Target::Url(url.clone()))),
        Pointer::Command { .. } => Ok(None),
    }
}

/// How a resolved target is opened.
#[derive(Debug)]
pub enum OpenPlan {
    /// Hand it to the OS opener.
    System(String),
    /// An editor's `<scheme>://file/<path>[:line]` URL; when the scheme is not
    /// registered, the OS opener takes `fallback`.
    EditorUrl { url: String, fallback: String },
    /// `xed [--line n] path`; when it fails, the OS opener takes the path.
    Xcode { line: Option<u32>, path: String },
}

/// The editors that register a file-open URL scheme.
pub open spec fn url_editor(e: Seq<char>) -> bool {
    e == "vscode"@ || e == "cursor"@ || e == "windsurf"@ || e == "zed"@
}

pub open spec fn editor_url(scheme: Seq<char>, path: Seq<char>, line: Option<u32>) -> Seq<char> {
    scheme + "://file"@ + (if path.len() > 0 && path[0] == '/' {
        Seq::empty()
    } else {
        "/"@
    }) + percent_encoded(vstd::utf8::encode_utf8(path)) + match line {
        Some(n) => ":"@ + decimal(n as nat),
        None => Seq::empty(),
    }
}

/// Open a URL with its scheme's owner; a file with the chosen editor
/// (`editor`: an editor id from the settings, or "system"/absent for the
/// OS default).
pub fn open_plan(target: &Target, editor: Option<&str>) -> (r: OpenPlan)
    ensures
        match target {
            Target::Url(u) => r matches OpenPlan::System(x) && x@ == u@,
            Target::File { path, line } => match editor {
                Some(e) => if url_editor(e@) {
                    r matches OpenPlan::EditorUrl { url, fallback } && url@ == editor_url(
                        e@,
                        path@,
                        *line,
                    ) && fallback@ == path@
                } else if e@ == "xcode"@ {
                    r matches OpenPlan::Xcode { line: l, path: p } && l == *line && p@ == path@
                } else {
                    r matches OpenPlan::System(x) && x@ == path@
                },
                None => r matches OpenPlan::System(x) && x@ == path@,
            },
        },
{
    proof {
        reveal_strlit("vscode");
        reveal_strlit("cursor");
        reveal_strlit("windsurf");
        reveal_strlit("zed");
        reveal_strlit("xcode");
        reveal_strlit("/");
        reveal_strlit(":");
        reveal_strlit("://file");
    }
    match target {
        Target::Url(u) => OpenPlan::System(u.clone()),
        Target::File { path, line } => {
            let e = match editor {
                Some(e) => e,
                None => {
                    return OpenPlan::System(path.clone());
                },
            };
            if same(e, "vscode") || same(e, "cursor") || same(e, "windsurf") || same(e, "zed") {
                let cs = chars_of(path.as_str());
                let mut url = owned(e);
                url.append("://file");
                if cs.len() > 0 && cs[0] == '/' {
                } else {
                    url.append("/");
                }
                let enc = percent_encode(path.as_str());
                url.append(enc.as_str());
                match line {
                    Some(n) => {
                        url.append(":");
                        push_decimal(&mut url, *n as u64);
                    },
                    None => {},
                }
                OpenPlan::EditorUrl { url, fallback: path.clone() }
            } else if same(e, "xcode") {
                OpenPlan::Xcode { line: *line, path: path.clone() }
            } else {
                OpenPlan::System(path.clone())
            }
        },
    }
}

} // verus!
