//! Command-line arguments: `--notes=plain`, the headless index profiler
//! (`--index-profile[=PATH]`) and its options. Unknown arguments are an
//! error.

use crate::text::{all_digits, chars_of, digits_value, string_of};
use vstd::prelude::*;

verus! {

broadcast use vstd::string::group_string_axioms;

/// The parsed command line.
#[derive(Clone, Debug, PartialEq, Eq)]
pub struct CliArgs {
    /// `--notes=plain`: the quit-dump prints in the grep/pipe shape.
    pub notes_plain: bool,
    /// `--index-profile[=PATH]`: run the headless index profiler on PATH
    /// (`.` when no path is given); `None` = the normal TUI.
    pub index_profile: Option<String>,
    /// `--profile-top=N`: top-N rows in the report.
    pub profile_top: usize,
    /// `--profile-out=FILE`: write the per-file CSV.
    pub profile_out: Option<String>,
    /// `--profile-repeat=N`: repeat the run.
    pub profile_repeat: usize,
    /// `--profile-real-paths`: print real paths (default: anonymized).
    pub profile_real_paths: bool,
}

/// The command line as plain values.
pub struct CliView {
    pub notes_plain: bool,
    pub index_profile: Option<Seq<char>>,
    pub profile_top: usize,
    pub profile_out: Option<Seq<char>>,
    pub profile_repeat: usize,
    pub profile_real_paths: bool,
}

/// The optional string's view.
pub open spec fn opt_view(o: Option<String>) -> Option<Seq<char>> {
    match o {
        Some(s) => Some(s@),
        None => None,
    }
}

impl View for CliArgs {
    type V = CliView;

    open spec fn view(&self) -> CliView {
        CliView {
            notes_plain: self.notes_plain,
            index_profile: opt_view(self.index_profile),
            profile_top: self.profile_top,
            profile_out: opt_view(self.profile_out),
            profile_repeat: self.profile_repeat,
            profile_real_paths: self.profile_real_paths,
        }
    }
}

impl CliArgs {
    /// The default number of report rows.
    pub const DEFAULT_TOP: usize = 25;
}

/// The command line with no arguments: the TUI.
pub open spec fn default_cli() -> CliView {
    CliView {
        notes_plain: false,
        index_profile: None,
        profile_top: 25,
        profile_out: None,
        profile_repeat: 1,
        profile_real_paths: false,
    }
}

/// What `usize::from_str` yields: an optional `+`, then one or more ASCII
/// digits whose value fits `usize`.
pub open spec fn parse_usize(s: Seq<char>) -> Option<usize> {
    let ds = if s.len() > 0 && s[0] == '+' {
        s.drop_first()
    } else {
        s
    };
    if ds.len() == 0 || !all_digits(ds) || digits_value(ds) > usize::MAX {
        None
    } else {
        Some(digits_value(ds) as usize)
    }
}

/// The value of a positive-integer option, or the error naming the flag
/// and the rejected text.
pub open spec fn positive(rest: Seq<char>, flag: Seq<char>) -> Result<usize, Seq<char>> {
    match parse_usize(rest) {
        Some(v) => if v > 0 {
            Ok(v)
        } else {
            Err(positive_error(rest, flag))
        },
        None => Err(positive_error(rest, flag)),
    }
}

/// The message of a rejected positive-integer option.
pub open spec fn positive_error(rest: Seq<char>, flag: Seq<char>) -> Seq<char> {
    flag + " expects a positive integer, got `"@ + rest + "`"@
}

/// Whether `s` starts with `p`.
pub open spec fn has_prefix(s: Seq<char>, p: Seq<char>) -> bool {
    p.len() <= s.len() && s.take(p.len() as int) == p
}

/// The command line after reading one more argument.
pub open spec fn parse_step(c: CliView, arg: Seq<char>) -> Result<CliView, Seq<char>> {
    if arg == "--notes=plain"@ {
        Ok(CliView { notes_plain: true, ..c })
    } else if arg == "--index-profile"@ {
        Ok(CliView { index_profile: Some("."@), ..c })
    } else if has_prefix(arg, "--index-profile="@) {
        let path = arg.skip("--index-profile="@.len() as int);
        if path.len() == 0 {
            Err("--index-profile= requires a path"@)
        } else {
            Ok(CliView { index_profile: Some(path), ..c })
        }
    } else if has_prefix(arg, "--profile-top="@) {
        match positive(arg.skip("--profile-top="@.len() as int), "--profile-top"@) {
            Ok(v) => Ok(CliView { profile_top: v, ..c }),
            Err(e) => Err(e),
        }
    } else if has_prefix(arg, "--profile-out="@) {
        let path = arg.skip("--profile-out="@.len() as int);
        if path.len() == 0 {
            Err("--profile-out= requires a path"@)
        } else {
            Ok(CliView { profile_out: Some(path), ..c })
        }
    } else if has_prefix(arg, "--profile-repeat="@) {
        match positive(arg.skip("--profile-repeat="@.len() as int), "--profile-repeat"@) {
            Ok(v) => Ok(CliView { profile_repeat: v, ..c }),
            Err(e) => Err(e),
        }
    } else if arg == "--profile-real-paths"@ {
        Ok(CliView { profile_real_paths: true, ..c })
    } else {
        Err("unknown argument: "@ + arg)
    }
}

/// The command line after reading the first `k` arguments: the first
/// rejected argument's error, or the accumulated options.
pub open spec fn parse_prefix(args: Seq<Seq<char>>, k: int) -> Result<CliView, Seq<char>>
    decreases k,
{
    if k <= 0 {
        Ok(default_cli())
    } else {
        match parse_prefix(args, k - 1) {
            Err(e) => Err(e),
            Ok(c) => parse_step(c, args[k - 1]),
        }
    }
}

proof fn lemma_error_sticks(args: Seq<Seq<char>>, k: int, m: int)
    requires
        0 <= k <= m,
        parse_prefix(args, k) is Err,
    ensures
        parse_prefix(args, m) == parse_prefix(args, k),
    decreases m - k,
{
    if k < m {
        lemma_error_sticks(args, k, m - 1);
    }
}

/// The string views of a list of strings.
pub open spec fn arg_views(v: Seq<String>) -> Seq<Seq<char>> {
    v.map_values(|s: String| s@)
}

/// Whether `s` starts with `p`, and the rest after it.
fn strip_prefix_chars(s: &[char], p: &[char]) -> (r: Option<Vec<char>>)
    ensures
        match r {
            Some(rest) => has_prefix(s@, p@) && rest@ == s@.skip(p@.len() as int),
            None => !has_prefix(s@, p@),
        },
{
    if p.len() > s.len() {
        return None;
    }
    let mut i: usize = 0;
    while i < p.len()
        invariant
            p@.len() <= s@.len(),
            i <= p@.len(),
            forall|j: int| 0 <= j < i ==> s@[j] == p@[j],
        decreases p@.len() - i,
    {
        if s[i] != p[i] {
            assert(s@.take(p@.len() as int)[i as int] != p@[i as int]);
            return None;
        }
        i = i + 1;
    }
    assert(s@.take(p@.len() as int) =~= p@);
    let rest = crate::text::slice_vec(s, p.len(), s.len());
    assert(rest@ =~= s@.skip(p@.len() as int));
    Some(rest)
}

proof fn lemma_digits_value_mono(ds: Seq<char>, i: int)
    requires
        0 <= i <= ds.len(),
    ensures
        digits_value(ds.take(i)) <= digits_value(ds),
    decreases ds.len() - i,
{
    if i < ds.len() {
        lemma_digits_value_mono(ds, i + 1);
        assert(ds.take(i + 1).drop_last() =~= ds.take(i));
    } else {
        assert(ds.take(i) =~= ds);
    }
}

/// Parse `cs` as `usize::from_str` does.
fn parse_usize_chars(cs: &[char]) -> (r: Option<usize>)
    ensures
        r == parse_usize(cs@),
{
    let n = cs.len();
    let start: usize = if n > 0 && cs[0] == '+' {
        1
    } else {
        0
    };
    let ghost ds = if cs@.len() > 0 && cs@[0] == '+' {
        cs@.drop_first()
    } else {
        cs@
    };
    assert(ds =~= cs@.skip(start as int));
    if start == n {
        assert(ds.len() == 0);
        return None;
    }
    let mut acc: usize = 0;
    let mut i: usize = start;
    while i < n
        invariant
            start <= i <= n,
            n == cs@.len(),
            ds == cs@.skip(start as int),
            ds == (if cs@.len() > 0 && cs@[0] == '+' {
                cs@.drop_first()
            } else {
                cs@
            }),
            forall|k: int| 0 <= k < i - start ==> crate::text::is_digit(ds[k]),
            acc == digits_value(ds.take(i - start)),
        decreases n - i,
    {
        let c = cs[i];
        assert(ds[i - start] == cs@[i as int]);
        if !('0' <= c && c <= '9') {
            assert(!crate::text::is_digit(ds[i - start]));
            assert(!all_digits(ds));
            return None;
        }
        let d = (c as u32 - 48) as usize;
        proof {
            assert(ds.take(i + 1 - start).drop_last() =~= ds.take(i - start));
            assert(ds.take(i + 1 - start).last() == c);
        }
        if acc > (usize::MAX - d) / 10 {
            proof {
                assert(acc * 10 + d > usize::MAX) by (nonlinear_arith)
                    requires
                        acc > (usize::MAX - d) / 10,
                        d <= 9,
                ;
                lemma_digits_value_mono(ds, i + 1 - start);
            }
            return None;
        }
        proof {
            assert(acc * 10 + d <= usize::MAX) by (nonlinear_arith)
                requires
                    acc <= (usize::MAX - d) / 10,
                    d <= 9,
            ;
        }
        acc = acc * 10 + d;
        i = i + 1;
    }
    assert(ds.take(n - start) =~= ds);
    Some(acc)
}

/// The value of a positive-integer option `rest` of `flag`, or the error.
fn positive_value(rest: &[char], flag: &str) -> (r: Result<usize, String>)
    ensures
        match r {
            Ok(v) => positive(rest@, flag@) == Ok::<usize, Seq<char>>(v),
            Err(e) => positive(rest@, flag@) == Err::<usize, Seq<char>>(e@),
        },
{
    match parse_usize_chars(rest) {
        Some(v) => {
            if v > 0 {
                return Ok(v);
            }
        },
        None => {},
    }
    let mut m = flag.to_owned();
    m.append(" expects a positive integer, got `");
    m.append(string_of(rest).as_str());
    m.append("`");
    Err(m)
}

/// Whether two char slices hold the same chars.
fn same(a: &[char], b: &[char]) -> (r: bool)
    ensures
        r == (a@ == b@),
{
    if a.len() != b.len() {
        return false;
    }
    let mut i: usize = 0;
    while i < a.len()
        invariant
            a@.len() == b@.len(),
            i <= a@.len(),
            forall|j: int| 0 <= j < i ==> a@[j] == b@[j],
        decreases a@.len() - i,
    {
        if a[i] != b[i] {
            return false;
        }
        i = i + 1;
    }
    assert(a@ =~= b@);
    true
}

/// Read one argument into `cli`.
fn parse_one(cli: &mut CliArgs, arg: &str) -> (r: Result<(), String>)
    ensures
        match parse_step(old(cli)@, arg@) {
            Ok(c) => r is Ok && final(cli)@ == c,
            Err(e) => r matches Err(m) && m@ == e,
        },
{
    let a = chars_of(arg);
    if same(a.as_slice(), chars_of("--notes=plain").as_slice()) {
        cli.notes_plain = true;
        return Ok(());
    }
    if same(a.as_slice(), chars_of("--index-profile").as_slice()) {
        cli.index_profile = Some(String::from_str("."));
        return Ok(());
    }
    if let Some(path) = strip_prefix_chars(a.as_slice(), chars_of("--index-profile=").as_slice()) {
        if path.len() == 0 {
            return Err(String::from_str("--index-profile= requires a path"));
        }
        cli.index_profile = Some(string_of(path.as_slice()));
        return Ok(());
    }
    if let Some(n) = strip_prefix_chars(a.as_slice(), chars_of("--profile-top=").as_slice()) {
        match positive_value(n.as_slice(), "--profile-top") {
            Ok(v) => {
                cli.profile_top = v;
                return Ok(());
            },
            Err(e) => {
                return Err(e);
            },
        }
    }
    if let Some(path) = strip_prefix_chars(a.as_slice(), chars_of("--profile-out=").as_slice()) {
        if path.len() == 0 {
            return Err(String::from_str("--profile-out= requires a path"));
        }
        cli.profile_out = Some(string_of(path.as_slice()));
        return Ok(());
    }
    if let Some(n) = strip_prefix_chars(a.as_slice(), chars_of("--profile-repeat=").as_slice()) {
        match positive_value(n.as_slice(), "--profile-repeat") {
            Ok(v) => {
                cli.profile_repeat = v;
                return Ok(());
            },
            Err(e) => {
                return Err(e);
            },
        }
    }
    if same(a.as_slice(), chars_of("--profile-real-paths").as_slice()) {
        cli.profile_real_paths = true;
        return Ok(());
    }
    let mut m = String::from_str("unknown argument: ");
    m.append(arg);
    Err(m)
}

/// Parse the arguments (without the program name): the first rejected
/// argument gives the user-facing error.
pub fn parse_cli(args: Vec<String>) -> (r: Result<CliArgs, String>)
    ensures
        match parse_prefix(arg_views(args@), args@.len() as int) {
            Ok(c) => r matches Ok(cli) && cli@ == c,
            Err(e) => r matches Err(m) && m@ == e,
        },
{
    let mut cli = CliArgs {
        notes_plain: false,
        index_profile: None,
        profile_top: CliArgs::DEFAULT_TOP,
        profile_out: None,
        profile_repeat: 1,
        profile_real_paths: false,
    };
    let ghost av = arg_views(args@);
    let mut i: usize = 0;
    while i < args.len()
        invariant
            i <= args@.len(),
            av == arg_views(args@),
            parse_prefix(av, i as int) == Ok::<CliView, Seq<char>>(cli@),
        decreases args@.len() - i,
    {
        match parse_one(&mut cli, args[i].as_str()) {
            Ok(()) => {},
            Err(e) => {
                proof {
                    assert(av[i as int] == args@[i as int]@);
                    lemma_error_sticks(av, i + 1, args@.len() as int);
                }
                return Err(e);
            },
        }
        i = i + 1;
    }
    Ok(cli)
}

} // verus!
