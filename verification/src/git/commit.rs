//! Commit identities: the `git var` identity line parsed into the name,
//! email, timestamp and UTC offset that a commit records.

use crate::git::error::GitError;
use crate::model::path::{join, spec_join};
use crate::text::{
    all_digits, chars_of, digits_value, find_char, first_index, last_index, parse_i64,
    parse_i64_chars, rfind_char, slice_vec, string_of, trim_chars, trimmed,
};
use vstd::prelude::*;

verus! {

broadcast use vstd::string::group_string_axioms;

/// A commit identity as `git var GIT_AUTHOR_IDENT` reports it.
#[derive(Clone, Debug, PartialEq, Eq)]
pub struct Ident {
    /// Everything before the last `<` (git2 trims it when signing).
    pub name: String,
    /// Everything between the last `<` and the last `>` after it.
    pub email: String,
    /// Seconds since the Unix epoch.
    pub time: i64,
    /// The UTC offset in minutes (`-0400` is `-240`).
    pub offset_minutes: i32,
}

/// The message of the "unparseable identity line" error.
pub open spec fn unparseable_msg(ident: Seq<char>, line: Seq<char>) -> Seq<char> {
    "`git var "@ + ident + "` output: "@ + line
}

/// The minutes of a `±hhmm` offset whose sign and four digits are valid.
pub open spec fn offset_minutes_of(off: Seq<char>) -> int {
    let mag = (digits_value(off.subrange(1, 3)) * 60 + digits_value(off.subrange(3, 5))) as int;
    if off[0] == '-' {
        -mag
    } else {
        mag
    }
}

/// Whether `off` is a sign followed by exactly four ASCII digits.
pub open spec fn valid_offset(off: Seq<char>) -> bool {
    &&& off.len() == 5
    &&& (off[0] == '+' || off[0] == '-')
    &&& all_digits(off.drop_first())
}

/// The parse of a `git var` identity output `Name <email> <unix-ts> ±hhmm`
/// (surrounding whitespace ignored): `(name, email, time, offset minutes)`,
/// or the message of the error.
pub open spec fn spec_parse_ident(stdout: Seq<char>, ident: Seq<char>) -> Result<
    (Seq<char>, Seq<char>, i64, int),
    Seq<char>,
> {
    let line = trimmed(stdout);
    let u = unparseable_msg(ident, line);
    match last_index(line, '<') {
        None => Err(u),
        Some(lt) => {
            let name = line.take(lt);
            let rest = line.skip(lt + 1);
            match last_index(rest, '>') {
                None => Err(u),
                Some(gt) => {
                    let email = rest.take(gt);
                    let t = trimmed(rest.skip(gt + 1));
                    match first_index(t, ' ') {
                        None => Err(u),
                        Some(sp) => {
                            let off = t.skip(sp + 1);
                            match parse_i64(t.take(sp)) {
                                None => Err(line),
                                Some(time) => if valid_offset(off) {
                                    Ok((name, email, time, offset_minutes_of(off)))
                                } else {
                                    Err(u)
                                },
                            }
                        },
                    }
                },
            }
        },
    }
}

proof fn lemma_last_index_bound(s: Seq<char>, c: char)
    ensures
        match last_index(s, c) {
            Some(i) => 0 <= i < s.len() && s[i] == c,
            None => true,
        },
    decreases s.len(),
{
    if s.len() > 0 && s.last() != c {
        lemma_last_index_bound(s.drop_last(), c);
    }
}

/// The value of two ASCII digits.
fn two_digits(a: char, b: char) -> (v: i32)
    requires
        '0' <= a <= '9',
        '0' <= b <= '9',
    ensures
        v == digits_value(seq![a, b]),
        0 <= v <= 99,
{
    let x = (a as u32 - 48) as i32;
    let y = (b as u32 - 48) as i32;
    proof {
        let s = seq![a, b];
        assert(s.drop_last() =~= seq![a]);
        assert(seq![a].drop_last() =~= Seq::<char>::empty());
        assert(digits_value(Seq::<char>::empty()) == 0);
        assert(digits_value(seq![a]) == (a as u32 - 48) as nat);
        assert(s.last() == b);
        assert(digits_value(s) == digits_value(seq![a]) * 10 + (b as u32 - 48) as nat);
    }
    x * 10 + y
}

/// Whether every char of `cs` is an ASCII digit.
fn all_digit_chars(cs: &[char]) -> (b: bool)
    ensures
        b == all_digits(cs@),
{
    let mut k: usize = 0;
    while k < cs.len()
        invariant
            k <= cs@.len(),
            forall|q: int| 0 <= q < k ==> crate::text::is_digit(#[trigger] cs@[q]),
        decreases cs@.len() - k,
    {
        if !('0' <= cs[k] && cs[k] <= '9') {
            assert(!crate::text::is_digit(cs@[k as int]));
            return false;
        }
        k = k + 1;
    }
    true
}

/// The "unparseable identity line" error.
fn unparseable(ident: &str, line: &[char]) -> (e: GitError)
    ensures
        e == GitError::IdentityUnparseable(e->IdentityUnparseable_0),
        e->IdentityUnparseable_0@ == unparseable_msg(ident@, line@),
{
    let mut m = String::from_str("`git var ");
    m.append(ident);
    m.append("` output: ");
    let l = string_of(line);
    m.append(l.as_str());
    GitError::IdentityUnparseable(m)
}

/// Parse the output of `git var <ident>` into the identity a commit
/// records. Every malformed line is an `IdentityUnparseable` error: the
/// timestamp failing to parse names the trimmed line, any other defect
/// names the variable and the line.
pub fn parse_ident(stdout: &str, ident: &str) -> (r: Result<Ident, GitError>)
    ensures
        match r {
            Ok(id) => spec_parse_ident(stdout@, ident@) == Ok::<
                (Seq<char>, Seq<char>, i64, int),
                Seq<char>,
            >((id.name@, id.email@, id.time, id.offset_minutes as int)),
            Err(e) => e is IdentityUnparseable && spec_parse_ident(stdout@, ident@) == Err::<
                (Seq<char>, Seq<char>, i64, int),
                Seq<char>,
            >(e->IdentityUnparseable_0@),
        },
{
    let all = chars_of(stdout);
    let line = trim_chars(all.as_slice());
    let ghost l = line@;
    assert(l == trimmed(stdout@));
    let ll = line.len();
    let lt = match rfind_char(line.as_slice(), '<') {
        None => {
            return Err(unparseable(ident, line.as_slice()));
        },
        Some(i) => i,
    };
    proof {
        lemma_last_index_bound(l, '<');
    }
    let name = slice_vec(line.as_slice(), 0, lt);
    let rest = slice_vec(line.as_slice(), lt + 1, ll);
    assert(name@ =~= l.take(lt as int));
    assert(rest@ =~= l.skip(lt + 1));
    let rl = rest.len();
    let gt = match rfind_char(rest.as_slice(), '>') {
        None => {
            return Err(unparseable(ident, line.as_slice()));
        },
        Some(i) => i,
    };
    let email = slice_vec(rest.as_slice(), 0, gt);
    let tail = slice_vec(rest.as_slice(), gt + 1, rl);
    assert(email@ =~= rest@.take(gt as int));
    assert(tail@ =~= rest@.skip(gt + 1));
    let t = trim_chars(tail.as_slice());
    let tl = t.len();
    let sp = match find_char(t.as_slice(), ' ') {
        None => {
            return Err(unparseable(ident, line.as_slice()));
        },
        Some(i) => i,
    };
    let ts = slice_vec(t.as_slice(), 0, sp);
    let off = slice_vec(t.as_slice(), sp + 1, tl);
    assert(ts@ =~= t@.take(sp as int));
    assert(off@ =~= t@.skip(sp + 1));
    let time = match parse_i64_chars(ts.as_slice()) {
        None => {
            return Err(GitError::IdentityUnparseable(string_of(line.as_slice())));
        },
        Some(v) => v,
    };
    if off.len() != 5 || !(off[0] == '+' || off[0] == '-') {
        return Err(unparseable(ident, line.as_slice()));
    }
    let digits = slice_vec(off.as_slice(), 1, 5);
    assert(digits@ =~= off@.drop_first());
    if !all_digit_chars(digits.as_slice()) {
        return Err(unparseable(ident, line.as_slice()));
    }
    assert(crate::text::is_digit(off@.drop_first()[0]));
    assert(crate::text::is_digit(off@.drop_first()[1]));
    assert(crate::text::is_digit(off@.drop_first()[2]));
    assert(crate::text::is_digit(off@.drop_first()[3]));
    let hh = two_digits(off[1], off[2]);
    let mm = two_digits(off[3], off[4]);
    assert(off@.subrange(1, 3) =~= seq![off@[1], off@[2]]);
    assert(off@.subrange(3, 5) =~= seq![off@[3], off@[4]]);
    let mag = hh * 60 + mm;
    let minutes = if off[0] == '-' {
        -mag
    } else {
        mag
    };
    Ok(
        Ident {
            name: string_of(name.as_slice()),
            email: string_of(email.as_slice()),
            time,
            offset_minutes: minutes,
        },
    )
}

/// The config files git consults, in precedence order: the repo-local
/// file; then `GIT_CONFIG_GLOBAL` when set, else the XDG file
/// (`$XDG_CONFIG_HOME/git/config`, or `$HOME/.config/git/config`) and
/// `$HOME/.gitconfig`; then, unless `GIT_CONFIG_NOSYSTEM` is set to a true
/// value, `GIT_CONFIG_SYSTEM` or `/etc/gitconfig`.
pub open spec fn spec_config_files(
    local: Seq<char>,
    global: Option<Seq<char>>,
    xdg_config_home: Option<Seq<char>>,
    home: Option<Seq<char>>,
    nosystem: Option<Seq<char>>,
    system: Option<Seq<char>>,
) -> Seq<Seq<char>> {
    let head: Seq<Seq<char>> = match global {
        Some(g) => seq![local, g],
        None => {
            let xdg: Option<Seq<char>> = match xdg_config_home {
                Some(x) => Some(x),
                None => match home {
                    Some(h) => Some(spec_join(h, ".config"@)),
                    None => None,
                },
            };
            let with_xdg: Seq<Seq<char>> = match xdg {
                Some(x) => seq![local, spec_join(spec_join(x, "git"@), "config"@)],
                None => seq![local],
            };
            match home {
                Some(h) => with_xdg.push(spec_join(h, ".gitconfig"@)),
                None => with_xdg,
            }
        },
    };
    let no_system = match nosystem {
        Some(v) => v.len() > 0 && v != "false"@ && v != "0"@,
        None => false,
    };
    if no_system {
        head
    } else {
        match system {
            Some(p) => head.push(p),
            None => head.push("/etc/gitconfig"@),
        }
    }
}

/// The views of a list of strings.
pub open spec fn string_views(v: Seq<String>) -> Seq<Seq<char>> {
    v.map_values(|s: String| s@)
}

/// The view of an optional string.
pub open spec fn opt_view(o: Option<String>) -> Option<Seq<char>> {
    match o {
        Some(s) => Some(s@),
        None => None,
    }
}

/// The config files git consults in an environment with the given
/// variables (see [`spec_config_files`]).
pub fn config_files_consulted(
    local_config: String,
    global: Option<String>,
    xdg_config_home: Option<String>,
    home: Option<String>,
    nosystem: Option<String>,
    system: Option<String>,
) -> (r: Vec<String>)
    ensures
        string_views(r@) == spec_config_files(
            local_config@,
            opt_view(global),
            opt_view(xdg_config_home),
            opt_view(home),
            opt_view(nosystem),
            opt_view(system),
        ),
{
    let ghost lv = local_config@;
    let mut files: Vec<String> = Vec::new();
    files.push(local_config);
    match &global {
        Some(g) => {
            files.push(g.clone());
        },
        None => {
            let xdg: Option<String> = match &xdg_config_home {
                Some(x) => Some(x.clone()),
                None => match &home {
                    Some(h) => Some(join(h.as_str(), ".config")),
                    None => None,
                },
            };
            match &xdg {
                Some(x) => {
                    let gdir = join(x.as_str(), "git");
                    files.push(join(gdir.as_str(), "config"));
                },
                None => {},
            }
            match &home {
                Some(h) => {
                    files.push(join(h.as_str(), ".gitconfig"));
                },
                None => {},
            }
        },
    }
    let no_system = match &nosystem {
        Some(v) => v.as_str().unicode_len() > 0 && !crate::text::str_eq(v.as_str(), "false")
            && !crate::text::str_eq(v.as_str(), "0"),
        None => false,
    };
    if !no_system {
        match &system {
            Some(p) => {
                files.push(p.clone());
            },
            None => {
                files.push(String::from_str("/etc/gitconfig"));
            },
        }
    }
    proof {
        assert(string_views(files@) =~= spec_config_files(
            lv,
            opt_view(global),
            opt_view(xdg_config_home),
            opt_view(home),
            opt_view(nosystem),
            opt_view(system),
        ));
    }
    files
}

/// The identity-relevant environment variables, in reporting order.
pub fn identity_vars() -> (v: Vec<&'static str>)
    ensures
        v@.map_values(|s: &'static str| s@) == seq![
            "GIT_AUTHOR_NAME"@,
            "GIT_AUTHOR_EMAIL"@,
            "GIT_COMMITTER_NAME"@,
            "GIT_COMMITTER_EMAIL"@,
            "EMAIL"@,
        ],
{
    let v = vec!["GIT_AUTHOR_NAME", "GIT_AUTHOR_EMAIL", "GIT_COMMITTER_NAME", "GIT_COMMITTER_EMAIL", "EMAIL"];
    assert(v@.map_values(|s: &'static str| s@) =~= seq![
        "GIT_AUTHOR_NAME"@,
        "GIT_AUTHOR_EMAIL"@,
        "GIT_COMMITTER_NAME"@,
        "GIT_COMMITTER_EMAIL"@,
        "EMAIL"@,
    ]);
    v
}

/// `parts` joined with `sep`.
pub open spec fn joined(parts: Seq<Seq<char>>, sep: Seq<char>) -> Seq<char>
    decreases parts.len(),
{
    if parts.len() == 0 {
        seq![]
    } else if parts.len() == 1 {
        parts[0]
    } else {
        joined(parts.drop_last(), sep) + sep + parts.last()
    }
}

/// `parts` joined with `sep`.
pub fn join_strings(parts: &[String], sep: &str) -> (r: String)
    ensures
        r@ == joined(string_views(parts@), sep@),
{
    let ghost pv = string_views(parts@);
    let mut r = String::new();
    let mut i: usize = 0;
    while i < parts.len()
        invariant
            i <= parts@.len(),
            pv == string_views(parts@),
            r@ == joined(pv.take(i as int), sep@),
        decreases parts@.len() - i,
    {
        if i > 0 {
            r.append(sep);
        }
        r.append(parts[i].as_str());
        proof {
            assert(pv.take(i + 1).drop_last() =~= pv.take(i as int));
            if i == 0 {
                assert(r@ =~= joined(pv.take(1), sep@));
            }
        }
        i = i + 1;
    }
    assert(pv.take(parts@.len() as int) =~= pv);
    r
}

/// The report of which identity variables are set (names only).
pub open spec fn spec_env_state(set: Seq<Seq<char>>) -> Seq<char> {
    if set.len() == 0 {
        "None of GIT_AUTHOR_NAME, GIT_AUTHOR_EMAIL, GIT_COMMITTER_NAME, GIT_COMMITTER_EMAIL, EMAIL is set in this process's environment."@
    } else {
        "Set identity env vars: "@ + joined(set, ", "@) + "."@
    }
}

/// The report naming the identity variables that are set (`set` lists
/// their names in reporting order).
pub fn identity_env_state(set: &[String]) -> (r: String)
    ensures
        r@ == spec_env_state(string_views(set@)),
{
    if set.len() == 0 {
        return String::from_str(
            "None of GIT_AUTHOR_NAME, GIT_AUTHOR_EMAIL, GIT_COMMITTER_NAME, GIT_COMMITTER_EMAIL, EMAIL is set in this process's environment.",
        );
    }
    let mut r = String::from_str("Set identity env vars: ");
    let j = join_strings(set, ", ");
    r.append(j.as_str());
    r.append(".");
    r
}

/// The index of the first `\n` in `s`, or its length.
pub open spec fn line_end(s: Seq<char>) -> int {
    match first_index(s, '\n') {
        Some(i) => i,
        None => s.len() as int,
    }
}

/// Whether `s` starts with `p`.
pub open spec fn starts_with(s: Seq<char>, p: Seq<char>) -> bool {
    p.len() <= s.len() && s.take(p.len() as int) == p
}

/// The first line of `s` that starts with `fatal:`.
pub open spec fn first_fatal(s: Seq<char>) -> Option<Seq<char>>
    decreases s.len(),
{
    let e = line_end(s);
    if starts_with(s.take(e), "fatal:"@) {
        Some(s.take(e))
    } else if e >= s.len() || e < 0 {
        None
    } else {
        first_fatal(s.skip(e + 1))
    }
}

proof fn lemma_first_index_bound(s: Seq<char>, c: char)
    ensures
        first_index(s, c) matches Some(i) ==> 0 <= i < s.len(),
    decreases s.len(),
{
    if s.len() > 0 && s[0] != c {
        lemma_first_index_bound(s.drop_first(), c);
    }
}

/// Whether `s` starts with `p`.
fn has_prefix_chars(s: &[char], p: &[char]) -> (b: bool)
    ensures
        b == starts_with(s@, p@),
{
    if p.len() > s.len() {
        return false;
    }
    let mut i: usize = 0;
    while i < p.len()
        invariant
            p@.len() <= s@.len(),
            i <= p@.len(),
            forall|j: int| 0 <= j < i ==> s@[j] == p@[j],
        decreases p@.len() - i,
    {
        if s[i] != p[i] {
            assert(s@.take(p@.len() as int)[i as int] != p@[i as int]);
            return false;
        }
        i = i + 1;
    }
    assert(s@.take(p@.len() as int) =~= p@);
    true
}

/// git's own error line: the first `fatal:` line of its stderr, trimmed,
/// or `git var failed` when there is none.
pub open spec fn spec_git_message(stderr: Seq<char>) -> Seq<char> {
    match first_fatal(stderr) {
        Some(l) => trimmed(l),
        None => "git var failed"@,
    }
}

/// git's own error line from its (decoded) stderr.
pub fn git_message(stderr: &str) -> (r: String)
    ensures
        r@ == spec_git_message(stderr@),
{
    let fatal = chars_of("fatal:");
    let mut rest = chars_of(stderr);
    loop
        invariant
            first_fatal(stderr@) == first_fatal(rest@),
            fatal@ == "fatal:"@,
        decreases rest@.len(),
    {
        let e = match find_char(rest.as_slice(), '\n') {
            Some(i) => i,
            None => rest.len(),
        };
        proof {
            lemma_first_index_bound(rest@, '\n');
        }
        let line = slice_vec(rest.as_slice(), 0, e);
        assert(line@ =~= rest@.take(e as int));
        if has_prefix_chars(line.as_slice(), fatal.as_slice()) {
            let t = trim_chars(line.as_slice());
            return string_of(t.as_slice());
        }
        if e >= rest.len() {
            return String::from_str("git var failed");
        }
        let next = slice_vec(rest.as_slice(), e + 1, rest.len());
        assert(next@ =~= rest@.skip(e + 1));
        rest = next;
    }
}

/// The diagnosis of an unresolvable commit identity: the
/// `user.useConfigOnly` refusal, or the plain miss naming the role, git's
/// message, the config files consulted and the identity variables set.
pub open spec fn spec_no_author_detail(
    role: Seq<char>,
    git_msg: Seq<char>,
    use_config_only: bool,
    files: Seq<char>,
    env_state: Seq<char>,
) -> Seq<char> {
    if use_config_only {
        "user.useConfigOnly is set, so git refuses to fall back to an invented identity. Set user.name and user.email in one of: "@
            + files + " (or unset user.useConfigOnly). git said: "@ + git_msg
    } else {
        "git could not resolve the "@ + role
            + " identity in this environment: no user.name/user.email in the config chain and no usable fallback. git said: "@
            + git_msg + ". Config files consulted (local \u{2192} global \u{2192} system): "@ + files + ". "@
            + env_state
    }
}

/// The self-diagnosing text of a [`GitError::NoAuthor`]: `stderr` is
/// git's decoded error output, `files` the config files consulted,
/// `env_state` the report of the identity variables set.
pub fn no_author_detail(
    role: &str,
    stderr: &str,
    use_config_only: bool,
    files: &[String],
    env_state: &str,
) -> (r: String)
    ensures
        r@ == spec_no_author_detail(
            role@,
            spec_git_message(stderr@),
            use_config_only,
            joined(string_views(files@), ", "@),
            env_state@,
        ),
{
    let git_msg = git_message(stderr);
    let list = join_strings(files, ", ");
    if use_config_only {
        let mut m = String::from_str(
            "user.useConfigOnly is set, so git refuses to fall back to an invented identity. Set user.name and user.email in one of: ",
        );
        m.append(list.as_str());
        m.append(" (or unset user.useConfigOnly). git said: ");
        m.append(git_msg.as_str());
        m
    } else {
        let mut m = String::from_str("git could not resolve the ");
        m.append(role);
        m.append(
            " identity in this environment: no user.name/user.email in the config chain and no usable fallback. git said: ",
        );
        m.append(git_msg.as_str());
        m.append(". Config files consulted (local \u{2192} global \u{2192} system): ");
        m.append(list.as_str());
        m.append(". ");
        m.append(env_state);
        m
    }
}

} // verus!
