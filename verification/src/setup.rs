//! Installing the hooks into a project's agent settings: which of the four
//! hooks exist, and whether an existing entry of ours is current, moved, or
//! missing. The settings file itself is read and written by the caller,
//! which keeps every foreign entry as it was.

use vstd::prelude::*;
use vstd::string::*;

use crate::text::{chars_of, is_ws, owned, same};

verus! {

/// One hook the CLI installs: the settings event, its tool matcher (if
/// any), and the CLI's subcommand for it.
pub struct HookSpec {
    pub event: &'static str,
    pub matcher: Option<&'static str>,
    pub sub: &'static str,
}

/// The four hooks, in the order they are installed.
pub fn hooks() -> (r: Vec<HookSpec>)
    ensures
        r@.len() == 4,
        r@[0].event@ == "Stop"@ && r@[0].matcher is None && r@[0].sub@ == "stop"@,
        r@[1].event@ == "PostToolUse"@ && (r@[1].matcher matches Some(m) && m@ == "*"@)
            && r@[1].sub@ == "post-tool-use"@,
        r@[2].event@ == "UserPromptSubmit"@ && r@[2].matcher is None && r@[2].sub@
            == "user-prompt-submit"@,
        r@[3].event@ == "SessionEnd"@ && r@[3].matcher is None && r@[3].sub@ == "session-end"@,
{
    let mut v: Vec<HookSpec> = Vec::new();
    v.push(HookSpec { event: "Stop", matcher: None, sub: "stop" });
    v.push(HookSpec { event: "PostToolUse", matcher: Some("*"), sub: "post-tool-use" });
    v.push(HookSpec { event: "UserPromptSubmit", matcher: None, sub: "user-prompt-submit" });
    v.push(HookSpec { event: "SessionEnd", matcher: None, sub: "session-end" });
    v
}

/// The command a hook runs: the CLI's path, quoted, then `hook <sub>`.
pub fn hook_command(exe: &str, sub: &str) -> (r: String)
    ensures
        r@ == "\""@ + exe@ + "\" hook "@ + sub@,
{
    let mut s = owned("\"");
    s.append(exe);
    s.append("\" hook ");
    s.append(sub);
    s
}

pub open spec fn contains_text(s: Seq<char>, t: Seq<char>) -> bool {
    exists|i: int| 0 <= i <= s.len() - t.len() && #[trigger] s.subrange(i, i + t.len()) == t
}

/// `s` without whitespace at its end.
pub open spec fn trimmed_end(s: Seq<char>) -> Seq<char>
    decreases s.len(),
{
    if s.len() > 0 && is_ws(s.last()) {
        trimmed_end(s.drop_last())
    } else {
        s
    }
}

pub open spec fn ends_with(s: Seq<char>, t: Seq<char>) -> bool {
    t.len() <= s.len() && s.subrange(s.len() - t.len(), s.len() as int) == t
}

/// A command of ours for `sub`, wherever the CLI was installed from.
pub open spec fn ours_for(c: Seq<char>, sub: Seq<char>) -> bool {
    contains_text(c, "witnos"@) && ends_with(trimmed_end(c), "hook "@ + sub)
}

fn matches_at(s: &Vec<char>, t: &Vec<char>, i: usize) -> (r: bool)
    requires
        i + t@.len() <= s@.len(),
    ensures
        r == (s@.subrange(i as int, i + t@.len()) == t@),
{
    let n = s.len();
    let m = t.len();
    let mut k: usize = 0;
    while k < m
        invariant
            k <= m,
            m == t@.len(),
            n == s@.len(),
            i + m <= n,
            forall|j: int| 0 <= j < k ==> s@[i + j] == t@[j],
        decreases m - k,
    {
        if s[i + k] != t[k] {
            assert(s@.subrange(i as int, i + t@.len())[k as int] != t@[k as int]);
            return false;
        }
        k = k + 1;
    }
    assert(s@.subrange(i as int, i + t@.len()) =~= t@);
    true
}

fn contains_exec(s: &Vec<char>, t: &Vec<char>) -> (r: bool)
    ensures
        r == contains_text(s@, t@),
{
    let n = s.len();
    let m = t.len();
    if m > n {
        return false;
    }
    let last = n - m;
    let mut i: usize = 0;
    loop
        invariant
            m == t@.len(),
            n == s@.len(),
            m <= n,
            last == n - m,
            i <= last,
            forall|j: int| 0 <= j < i ==> #[trigger] s@.subrange(j, j + t@.len()) != t@,
        decreases last - i,
    {
        if matches_at(s, t, i) {
            return true;
        }
        if i == last {
            return false;
        }
        i = i + 1;
    }
}

/// Is `c` one of our commands for `sub`?
pub fn is_ours(c: &str, sub: &str) -> (r: bool)
    ensures
        r == ours_for(c@, sub@),
{
    let cs = chars_of(c);
    let w = chars_of("witnos");
    if !contains_exec(&cs, &w) {
        return false;
    }
    let mut end: usize = cs.len();
    assert(cs@.subrange(0, end as int) =~= cs@);
    while end > 0 && crate::text::is_whitespace(cs[end - 1])
        invariant
            end <= cs@.len(),
            trimmed_end(cs@) == trimmed_end(cs@.subrange(0, end as int)),
        decreases end,
    {
        assert(cs@.subrange(0, end as int).drop_last() =~= cs@.subrange(0, end - 1));
        end = end - 1;
    }
    let ghost te = cs@.subrange(0, end as int);
    assert(trimmed_end(te) == te);
    let mut suffix = owned("hook ");
    suffix.append(sub);
    let tail = chars_of(suffix.as_str());
    if tail.len() > end {
        return false;
    }
    let start = end - tail.len();
    let r = matches_at(&cs, &tail, start);
    assert(te.subrange(te.len() - tail@.len(), te.len() as int) =~= cs@.subrange(
        start as int,
        start + tail@.len(),
    ));
    r
}

/// What installing one hook does to the settings.
pub enum HookAction {
    /// Our entry is there with this very command.
    Unchanged,
    /// Our entry is there under an older path: rewrite hook `.1` of group
    /// `.0` to the command.
    Update(usize, usize),
    /// None of ours: append a group with the command.
    Append,
}

pub open spec fn found_ours(groups: Seq<Seq<Option<Seq<char>>>>, sub: Seq<char>, g: int, h: int) -> bool {
    0 <= g < groups.len() && 0 <= h < groups[g].len() && (groups[g][h] matches Some(c) && ours_for(
        c,
        sub,
    ))
}

/// The first of ours in reading order comes before (g, h).
pub open spec fn none_before(groups: Seq<Seq<Option<Seq<char>>>>, sub: Seq<char>, g: int, h: int) -> bool {
    forall|a: int, b: int| #![trigger found_ours(groups, sub, a, b)]
        found_ours(groups, sub, a, b) ==> (a > g || (a == g && b >= h))
}

pub open spec fn opt_texts(v: Seq<Option<String>>) -> Seq<Option<Seq<char>>> {
    v.map_values(|o: Option<String>| crate::types::opt_text(o))
}

/// Install one hook, given every group's hook commands (`None` where a
/// hook carries no command text): the first entry of ours is kept when
/// current and rewritten when the CLI moved; without one, a group is added.
/// `a` is the right action for hook commands `gs`: keep the first entry of
/// ours when it is current, rewrite it when the CLI moved, append when
/// there is none.
pub open spec fn action_fits(
    gs: Seq<Seq<Option<Seq<char>>>>,
    sub: Seq<char>,
    cmd: Seq<char>,
    a: HookAction,
) -> bool {
    match a {
        HookAction::Unchanged => exists|g: int, h: int|
            #[trigger] found_ours(gs, sub, g, h) && none_before(gs, sub, g, h) && gs[g][h] == Some(
                cmd,
            ),
        HookAction::Update(g, h) => found_ours(gs, sub, g as int, h as int) && none_before(
            gs,
            sub,
            g as int,
            h as int,
        ) && gs[g as int][h as int] != Some(cmd),
        HookAction::Append => forall|g: int, h: int| !#[trigger] found_ours(gs, sub, g, h),
    }
}

/// The hook commands after the action: the entry rewritten, or a group of
/// one hook appended.
pub open spec fn applied(
    gs: Seq<Seq<Option<Seq<char>>>>,
    a: HookAction,
    cmd: Seq<char>,
) -> Seq<Seq<Option<Seq<char>>>> {
    match a {
        HookAction::Unchanged => gs,
        HookAction::Update(g, h) => gs.update(g as int, gs[g as int].update(h as int, Some(cmd))),
        HookAction::Append => gs.push(seq![Some(cmd)]),
    }
}

pub fn hook_action(groups: &Vec<Vec<Option<String>>>, sub: &str, cmd: &str) -> (r: HookAction)
    ensures
        action_fits(groups@.map_values(|g: Vec<Option<String>>| opt_texts(g@)), sub@, cmd@, r),
{
    let ghost gs = groups@.map_values(|g: Vec<Option<String>>| opt_texts(g@));
    let mut g: usize = 0;
    while g < groups.len()
        invariant
            g <= groups@.len(),
            gs == groups@.map_values(|g: Vec<Option<String>>| opt_texts(g@)),
            forall|a: int, b: int| 0 <= a < g ==> !#[trigger] found_ours(gs, sub@, a, b),
        decreases groups@.len() - g,
    {
        let row = &groups[g];
        assert(gs[g as int] == opt_texts(row@));
        let mut h: usize = 0;
        while h < row.len()
            invariant
                h <= row@.len(),
                g < groups@.len(),
                row@ == groups@[g as int]@,
                gs == groups@.map_values(|g: Vec<Option<String>>| opt_texts(g@)),
                gs[g as int] == opt_texts(row@),
                forall|a: int, b: int| 0 <= a < g ==> !#[trigger] found_ours(gs, sub@, a, b),
                forall|b: int| 0 <= b < h ==> !#[trigger] found_ours(gs, sub@, g as int, b),
            decreases row@.len() - h,
        {
            assert(gs[g as int][h as int] == crate::types::opt_text(row@[h as int]));
            match &row[h] {
                Some(c) => {
                    if is_ours(c.as_str(), sub) {
                        assert(found_ours(gs, sub@, g as int, h as int));
                        assert(none_before(gs, sub@, g as int, h as int)) by {
                            assert forall|a: int, b: int| #![trigger found_ours(gs, sub@, a, b)]
                                found_ours(gs, sub@, a, b) implies (a > g || (a == g && b >= h)) by {
                                if a < g {
                                } else if a == g && b < h {
                                }
                            }
                        }
                        if same(c.as_str(), cmd) {
                            return HookAction::Unchanged;
                        }
                        return HookAction::Update(g, h);
                    }
                },
                None => {},
            }
            h = h + 1;
        }
        proof {
            assert forall|b: int| !#[trigger] found_ours(gs, sub@, g as int, b) by {
                if 0 <= b < h {
                }
            }
        }
        g = g + 1;
    }
    HookAction::Append
}


/// Installing twice changes nothing the second time: once the action is
/// applied with a command of ours, the only fitting action is to keep it.
/// Every hook entry that is not ours stays where it was, as it was.
pub proof fn installing_twice_changes_nothing(
    gs: Seq<Seq<Option<Seq<char>>>>,
    sub: Seq<char>,
    cmd: Seq<char>,
    a: HookAction,
)
    requires
        action_fits(gs, sub, cmd, a),
        ours_for(cmd, sub),
    ensures
        action_fits(applied(gs, a, cmd), sub, cmd, HookAction::Unchanged),
        forall|b: HookAction| #[trigger] action_fits(applied(gs, a, cmd), sub, cmd, b) ==> b is Unchanged,
        applied(gs, a, cmd).len() >= gs.len(),
        forall|g: int| 0 <= g < gs.len() ==> (#[trigger] applied(gs, a, cmd)[g]).len() == gs[g].len(),
        forall|g: int, h: int|
            0 <= g < gs.len() && 0 <= h < gs[g].len() && !found_ours(gs, sub, g, h) ==> #[trigger] applied(
                gs,
                a,
                cmd,
            )[g][h] == gs[g][h],
{
    let ap = applied(gs, a, cmd);
    // The first entry of ours in `ap`, which carries `cmd`.
    let (pg, ph): (int, int) = match a {
        HookAction::Unchanged => choose|g: int, h: int|
            #[trigger] found_ours(gs, sub, g, h) && none_before(gs, sub, g, h) && gs[g][h] == Some(cmd),
        HookAction::Update(g, h) => (g as int, h as int),
        HookAction::Append => (gs.len() as int, 0),
    };
    assert(found_ours(ap, sub, pg, ph));
    assert(ap[pg][ph] == Some(cmd));
    assert forall|x: int, y: int| #![trigger found_ours(ap, sub, x, y)]
        found_ours(ap, sub, x, y) implies (x > pg || (x == pg && y >= ph)) by {
        if x == pg && y == ph {
        } else if a is Append {
            assert(x < gs.len());
            assert(ap[x][y] == gs[x][y]);
            assert(found_ours(gs, sub, x, y));
        } else {
            assert(ap[x][y] == gs[x][y]);
            assert(found_ours(gs, sub, x, y));
        }
    }
    assert(none_before(ap, sub, pg, ph));
    assert(action_fits(ap, sub, cmd, HookAction::Unchanged));
    assert forall|b: HookAction| #[trigger] action_fits(ap, sub, cmd, b) implies b is Unchanged by {
        match b {
            HookAction::Update(g, h) => {
                assert(none_before(ap, sub, g as int, h as int));
                assert(g as int == pg && h as int == ph);
            },
            HookAction::Append => {
                assert(found_ours(ap, sub, pg, ph));
            },
            HookAction::Unchanged => {},
        }
    }
}

} // verus!
