//! Log and commit-diff data, and the relative-age rendering of commit
//! times.

use vstd::prelude::*;
use crate::git::diff::FileDiff;
use crate::text::{decimal, push_char, push_decimal};

verus! {

/// One line of a magit-style log: short hash, subject, author, and a
/// relative age. `time` is the committer unix time (seconds); `date` is a
/// human relative-age string measured from the current time at build.
#[derive(Clone, Debug, PartialEq, Eq)]
pub struct LogEntry {
    pub short_id: String,
    pub subject: String,
    pub author: String,
    pub time: i64,
    pub date: String,
}

/// The full tree diff of one commit, as plain per-file diffs + aggregate
/// stats.
#[derive(Clone, Debug, Default, PartialEq, Eq)]
pub struct CommitDiff {
    pub short_id: String,
    pub subject: String,
    pub insertions: u32,
    pub deletions: u32,
    pub files: Vec<FileDiff>,
}

/// `a - b`, saturated to the `i64` range.
pub open spec fn saturating_sub_i64(a: i64, b: i64) -> int {
    let d = a - b;
    if d > i64::MAX {
        i64::MAX as int
    } else if d < i64::MIN {
        i64::MIN as int
    } else {
        d
    }
}

/// The decimal rendering of a signed integer (`-` before a negative).
pub open spec fn signed_decimal(d: int) -> Seq<char> {
    if d < 0 {
        seq!['-'] + decimal((-d) as nat)
    } else {
        decimal(d as nat)
    }
}

/// The relative age of `time` seen from `now`: seconds under a minute,
/// minutes under an hour, hours under a day, days under thirty days, else
/// thirty-day months.
pub open spec fn spec_relative_time(time: i64, now: i64) -> Seq<char> {
    let d = saturating_sub_i64(now, time);
    if d < 60 {
        signed_decimal(d) + seq!['s']
    } else if d < 3600 {
        decimal((d / 60) as nat) + seq!['m']
    } else if d < 86_400 {
        decimal((d / 3600) as nat) + seq!['h']
    } else if d < 2_592_000int {
        decimal((d / 86_400) as nat) + seq!['d']
    } else {
        decimal((d / 2_592_000int) as nat) + seq!['m', 'o']
    }
}

/// The current unix time in seconds (0 when the clock is before the
/// epoch).
#[verifier::external_body]
fn unix_now() -> i64 {
    std::time::SystemTime::now().duration_since(std::time::UNIX_EPOCH).map(|d| d.as_secs() as i64).unwrap_or(0)
}

/// A human relative age for a unix time, measured from now.
pub fn relative_time(time: i64) -> (s: String)
    ensures
        exists|now: i64| s@ == spec_relative_time(time, now),
{
    let now = unix_now();
    relative_time_from(time, now)
}

/// A pure relative-age (no clock), for deterministic rendering/tests.
pub fn relative_time_from(time: i64, now: i64) -> (s: String)
    ensures
        s@ == spec_relative_time(time, now),
{
    let diff: i128 = now as i128 - time as i128;
    let d: i64 = if diff > i64::MAX as i128 {
        i64::MAX
    } else if diff < i64::MIN as i128 {
        i64::MIN
    } else {
        diff as i64
    };
    let mut s = String::new();
    if d < 60 {
        if d < 0 {
            push_char(&mut s, '-');
            let mag: u64 = (-(d as i128)) as u64;
            push_decimal(&mut s, mag);
        } else {
            push_decimal(&mut s, d as u64);
        }
        push_char(&mut s, 's');
    } else if d < 3600 {
        push_decimal(&mut s, (d / 60) as u64);
        push_char(&mut s, 'm');
    } else if d < 86_400 {
        push_decimal(&mut s, (d / 3600) as u64);
        push_char(&mut s, 'h');
    } else if d < 86_400 * 30 {
        push_decimal(&mut s, (d / 86_400) as u64);
        push_char(&mut s, 'd');
    } else {
        push_decimal(&mut s, (d / (86_400 * 30)) as u64);
        push_char(&mut s, 'm');
        push_char(&mut s, 'o');
    }
    assert(s@ =~= spec_relative_time(time, now));
    s
}

/// The short form of a commit id: its first seven characters.
pub open spec fn spec_short_id(h: Seq<char>) -> Seq<char> {
    if h.len() <= 7 {
        h
    } else {
        h.take(7)
    }
}

/// The first seven characters of a commit id.
pub fn short_id(hex: &str) -> (r: String)
    ensures
        r@ == spec_short_id(hex@),
{
    let cs = crate::text::chars_of(hex);
    let n: usize = if cs.len() <= 7 {
        cs.len()
    } else {
        7
    };
    let mut out: Vec<char> = Vec::new();
    let mut k: usize = 0;
    while k < n
        invariant
            n <= cs@.len(),
            k <= n,
            out@ == cs@.take(k as int),
        decreases n - k,
    {
        out.push(cs[k]);
        k = k + 1;
        assert(out@ =~= cs@.take(k as int));
    }
    proof {
        if cs@.len() <= 7 {
            assert(out@ =~= cs@);
        }
    }
    crate::text::string_of(out.as_slice())
}

/// A log line for a commit with id `id_hex`, summary, author name and
/// committer time: missing texts are empty, and the date is the age of
/// `time` at some instant (the clock is read here).
pub fn log_entry(id_hex: &str, summary: Option<String>, author: Option<String>, time: i64) -> (e: LogEntry)
    ensures
        e.short_id@ == spec_short_id(id_hex@),
        e.subject@ == (match summary {
            Some(s) => s@,
            None => Seq::empty(),
        }),
        e.author@ == (match author {
            Some(a) => a@,
            None => Seq::empty(),
        }),
        e.time == time,
        exists|now: i64| e.date@ == spec_relative_time(time, now),
{
    let subject = match summary {
        Some(s) => s,
        None => String::new(),
    };
    let author = match author {
        Some(a) => a,
        None => String::new(),
    };
    LogEntry { short_id: short_id(id_hex), subject, author, time, date: relative_time(time) }
}

/// What the log does with the commit at position `index` of the walk.
#[derive(Clone, Copy, Debug, PartialEq, Eq, Structural)]
pub enum PageStep {
    /// Before the page: pass over it.
    Skip,
    /// On the page: list it.
    Take,
    /// The page is full: stop walking.
    Stop,
}

/// The step for position `index` of the walk, `taken` commits listed so
/// far: positions before `offset` are passed over, then commits are listed
/// until `limit` are.
pub fn page_step(index: usize, offset: usize, limit: usize, taken: usize) -> (s: PageStep)
    ensures
        s == step_at(index as int, offset as int, limit as int, taken as int),
        index < offset ==> s == PageStep::Skip,
        index >= offset && taken >= limit ==> s == PageStep::Stop,
        index >= offset && taken < limit ==> s == PageStep::Take,
{
    if index < offset {
        PageStep::Skip
    } else if taken >= limit {
        PageStep::Stop
    } else {
        PageStep::Take
    }
}

/// The step [`page_step`] gives for position `index` with `taken`
/// commits listed.
pub open spec fn step_at(index: int, offset: int, limit: int, taken: int) -> PageStep {
    if index < offset {
        PageStep::Skip
    } else if taken >= limit {
        PageStep::Stop
    } else {
        PageStep::Take
    }
}

/// The positions listed by a walk of `t` positions driven by
/// [`page_step`]: each position whose step is `Take` is listed.
pub open spec fn walk_listed(t: int, offset: int, limit: int) -> Seq<int>
    decreases t,
{
    if t <= 0 {
        Seq::empty()
    } else {
        let prev = walk_listed(t - 1, offset, limit);
        if step_at(t - 1, offset, limit, prev.len() as int) == PageStep::Take {
            prev.push(t - 1)
        } else {
            prev
        }
    }
}

/// Stopping the walk at the first `Stop` lists the same page as walking
/// on: once a step stops, no later position is listed.
pub proof fn lemma_stop_ends_page(s: int, t: int, offset: int, limit: int)
    requires
        0 <= s <= t,
        step_at(s, offset, limit, walk_listed(s, offset, limit).len() as int) == PageStep::Stop,
    ensures
        walk_listed(t, offset, limit) == walk_listed(s, offset, limit),
    decreases t - s,
{
    if t > s {
        lemma_stop_ends_page(s, t - 1, offset, limit);
    }
}

/// The size of a page: `limit` commits, or what is left after `offset`.
pub open spec fn page_len(t: int, offset: int, limit: int) -> int {
    if t <= offset {
        0
    } else if t - offset < limit {
        t - offset
    } else {
        limit
    }
}

/// A log page over a walk of `t` commits holds `min(limit, t - offset)`
/// commits (none past the end), and they are the positions from `offset`
/// on, in walk order.
pub proof fn lemma_log_page(t: int, offset: int, limit: int)
    requires
        0 <= t,
        0 <= offset,
        0 <= limit,
    ensures
        walk_listed(t, offset, limit).len() == page_len(t, offset, limit),
        walk_listed(t, offset, limit) == Seq::new(page_len(t, offset, limit) as nat, |k: int| offset + k),
    decreases t,
{
    if t > 0 {
        lemma_log_page(t - 1, offset, limit);
        let prev = walk_listed(t - 1, offset, limit);
        if offset <= t - 1 && prev.len() < limit {
            assert(walk_listed(t, offset, limit) =~= Seq::new(page_len(t, offset, limit) as nat, |k: int| offset + k));
        } else {
            assert(walk_listed(t, offset, limit) =~= Seq::new(page_len(t, offset, limit) as nat, |k: int| offset + k));
        }
    } else {
        assert(walk_listed(t, offset, limit) =~= Seq::new(page_len(t, offset, limit) as nat, |k: int| offset + k));
    }
}

} // verus!
