//! Blame data: turning a file's workdir text and the per-line blame
//! records into blamed lines.

use vstd::prelude::*;
use crate::git::log::{short_id, spec_short_id};

verus! {

/// One blamed line: its (1-based) number, the commit that last touched it,
/// the author, the committer time, and the line text.
#[derive(Clone, Debug, PartialEq, Eq)]
pub struct BlameLine {
    pub line_no: usize,
    pub short_id: String,
    pub author: String,
    pub time: i64,
    pub text: String,
}

/// A blamed line as plain values.
pub struct BlameLineView {
    pub line_no: usize,
    pub short_id: Seq<char>,
    pub author: Seq<char>,
    pub time: i64,
    pub text: Seq<char>,
}

impl View for BlameLine {
    type V = BlameLineView;

    open spec fn view(&self) -> BlameLineView {
        BlameLineView {
            line_no: self.line_no,
            short_id: self.short_id@,
            author: self.author@,
            time: self.time,
            text: self.text@,
        }
    }
}

/// What the blame records for one line: the final commit's id (hex),
/// whether that is the zero id of an uncommitted line, and the final
/// signature's name and time when it has one.
#[derive(Clone, Debug)]
pub struct LineBlame {
    pub commit_id: String,
    pub uncommitted: bool,
    pub signature: Option<(String, i64)>,
}

/// The length of the first line of `s`, its `\n` included.
pub open spec fn first_line_chars(s: Seq<char>) -> nat
    decreases s.len(),
{
    if s.len() == 0 {
        0
    } else if s[0] == '\n' {
        1
    } else {
        1 + first_line_chars(s.drop_first())
    }
}

pub proof fn lemma_first_line_chars(s: Seq<char>)
    ensures
        s.len() > 0 ==> 0 < first_line_chars(s) <= s.len(),
    decreases s.len(),
{
    if s.len() > 0 {
        lemma_first_line_chars(s.drop_first());
        if s.drop_first().len() == 0 {
            assert(first_line_chars(s.drop_first()) == 0);
        }
    }
}

/// The lines of `s`, each keeping its trailing `\n` (`str::split_inclusive`).
pub open spec fn text_lines(s: Seq<char>) -> Seq<Seq<char>>
    decreases s.len(),
{
    if s.len() == 0 {
        Seq::empty()
    } else {
        let k = first_line_chars(s);
        proof {
            lemma_first_line_chars(s);
        }
        seq![s.take(k as int)] + text_lines(s.skip(k as int))
    }
}

/// A line without its trailing `\n`.
pub open spec fn without_newline(l: Seq<char>) -> Seq<char> {
    if l.len() > 0 && l.last() == '\n' {
        l.drop_last()
    } else {
        l
    }
}

/// The blamed line for line `no` (1-based) with text `line` and record
/// `b`: an uncommitted line is attributed to `0000000` / "Not Committed
/// Yet" at time 0; a committed one to the short id, and the signature's
/// name and time (empty and 0 without one).
pub open spec fn blamed(no: int, line: Seq<char>, b: LineBlame) -> BlameLineView {
    BlameLineView {
        line_no: no as usize,
        short_id: if b.uncommitted {
            "0000000"@
        } else {
            spec_short_id(b.commit_id@)
        },
        author: if b.uncommitted {
            "Not Committed Yet"@
        } else {
            match b.signature {
                Some(s) => s.0@,
                None => Seq::empty(),
            }
        },
        time: if b.uncommitted {
            0
        } else {
            match b.signature {
                Some(s) => s.1,
                None => 0,
            }
        },
        text: without_newline(line),
    }
}

/// The blamed lines among the first `lines`: each line with a record, in
/// order.
pub open spec fn spec_blame(lines: Seq<Seq<char>>, per_line: Seq<Option<LineBlame>>) -> Seq<BlameLineView>
    decreases lines.len(),
{
    if lines.len() == 0 {
        Seq::empty()
    } else {
        let i = lines.len() - 1;
        let prev = spec_blame(lines.drop_last(), per_line);
        if i < per_line.len() && per_line[i] is Some {
            prev.push(blamed(i + 1, lines[i], per_line[i]->0))
        } else {
            prev
        }
    }
}

/// The views of a list of blamed lines.
pub open spec fn blame_view(v: Seq<BlameLine>) -> Seq<BlameLineView> {
    v.map_values(|b: BlameLine| b@)
}

proof fn lemma_text_lines_step(s: Seq<char>, done: Seq<char>, line: Seq<char>)
    requires
        s == done + line + s.skip((done.len() + line.len()) as int),
        line.len() > 0,
        line.last() == '\n',
        forall|k: int| 0 <= k < line.len() - 1 ==> line[k] != '\n',
    ensures
        text_lines(s.skip(done.len() as int)) == seq![line] + text_lines(s.skip((done.len() + line.len()) as int)),
{
    let t = s.skip(done.len() as int);
    assert(t =~= line + s.skip((done.len() + line.len()) as int));
    assert(t.take(line.len() as int) =~= line);
    lemma_first_line_is(t, line);
    assert(t.skip(line.len() as int) =~= s.skip((done.len() + line.len()) as int));
}

proof fn lemma_first_line_is(t: Seq<char>, line: Seq<char>)
    requires
        line.len() > 0,
        line.len() <= t.len(),
        t.take(line.len() as int) == line,
        line.last() == '\n',
        forall|k: int| 0 <= k < line.len() - 1 ==> line[k] != '\n',
    ensures
        first_line_chars(t) == line.len(),
    decreases line.len(),
{
    if line.len() > 1 {
        assert(t[0] == line[0]);
        assert(t.drop_first().take(line.len() - 1) =~= line.drop_first());
        lemma_first_line_is(t.drop_first(), line.drop_first());
    } else {
        assert(t[0] == line[0]);
    }
}

proof fn lemma_last_line(t: Seq<char>)
    requires
        t.len() > 0,
        forall|k: int| 0 <= k < t.len() ==> t[k] != '\n',
    ensures
        text_lines(t) == seq![t],
    decreases t.len(),
{
    lemma_no_newline_len(t);
    assert(t.take(t.len() as int) =~= t);
    assert(t.skip(t.len() as int) =~= Seq::<char>::empty());
    assert(text_lines(t.skip(t.len() as int)).len() == 0);
    assert(text_lines(t) =~= seq![t]);
}

proof fn lemma_no_newline_len(t: Seq<char>)
    requires
        forall|k: int| 0 <= k < t.len() ==> t[k] != '\n',
    ensures
        first_line_chars(t) == t.len(),
    decreases t.len(),
{
    if t.len() > 0 {
        lemma_no_newline_len(t.drop_first());
    }
}

proof fn lemma_spec_blame_push(lines: Seq<Seq<char>>, line: Seq<char>, per_line: Seq<Option<LineBlame>>)
    ensures
        spec_blame(lines.push(line), per_line) == (if lines.len() < per_line.len() && per_line[lines.len() as int] is Some {
            spec_blame(lines, per_line).push(blamed(lines.len() + 1int, line, per_line[lines.len() as int]->0))
        } else {
            spec_blame(lines, per_line)
        }),
{
    assert(lines.push(line).drop_last() =~= lines);
}

/// The blamed lines of `content` (the workdir text): line `i` (from 1)
/// with the record `per_line[i - 1]`, skipping lines without one.
pub fn blame_lines(content: &str, per_line: &[Option<LineBlame>]) -> (r: Vec<BlameLine>)
    requires
        text_lines(content@).len() <= usize::MAX,
    ensures
        blame_view(r@) == spec_blame(text_lines(content@), per_line@),
{
    let cs = crate::text::chars_of(content);
    let ghost s = cs@;
    let mut out: Vec<BlameLine> = Vec::new();
    let mut cur: Vec<char> = Vec::new();
    let mut i: usize = 0;
    let mut n: usize = 0;
    let ghost mut done_lines: Seq<Seq<char>> = Seq::empty();
    let ghost mut done: Seq<char> = Seq::empty();
    proof {
        assert(s.skip(0) =~= s);
    }
    while i < cs.len()
        invariant
            s == cs@,
            s == content@,
            i <= s.len(),
            done + cur@ == s.take(i as int),
            forall|k: int| 0 <= k < cur@.len() ==> cur@[k] != '\n',
            done_lines + text_lines(s.skip(done.len() as int)) == text_lines(s),
            n == done_lines.len(),
            n <= text_lines(s).len(),
            text_lines(s).len() <= usize::MAX,
            blame_view(out@) == spec_blame(done_lines, per_line@),
        decreases s.len() - i,
    {
        let c = cs[i];
        cur.push(c);
        i = i + 1;
        proof {
            assert(s.take(i as int) =~= s.take(i - 1).push(c));
            assert(done + cur@ =~= s.take(i as int));
        }
        if c == '\n' {
            let ghost line = cur@;
            proof {
                assert(s.take(i as int) =~= done + line);
                assert(s =~= done + line + s.skip((done.len() + line.len()) as int));
                lemma_text_lines_step(s, done, line);
                assert(done_lines.push(line) + text_lines(s.skip((done.len() + line.len()) as int)) =~= done_lines + (seq![line]
                    + text_lines(s.skip((done.len() + line.len()) as int))));
                assert(text_lines(s).len() >= n + 1);
                lemma_spec_blame_push(done_lines, line, per_line@);
            }
            let ghost before = out@;
            if n < per_line.len() {
                match &per_line[n] {
                    Some(b) => {
                        let entry = blamed_line(n + 1, &cur, b);
                        out.push(entry);
                        proof {
                            assert(blame_view(out@) =~= blame_view(before).push(entry@));
                        }
                    },
                    None => {},
                }
            }
            proof {
                done = done + line;
                done_lines = done_lines.push(line);
            }
            n = n + 1;
            cur = Vec::new();
            proof {
                assert(done + cur@ =~= s.take(i as int));
            }
        }
    }
    if cur.len() > 0 {
        let ghost line = cur@;
        proof {
            assert(s.take(i as int) =~= s);
            assert(s.skip(done.len() as int) =~= line);
            lemma_last_line(line);
            assert(text_lines(s) =~= done_lines.push(line));
            lemma_spec_blame_push(done_lines, line, per_line@);
        }
        let ghost before = out@;
        if n < per_line.len() {
            match &per_line[n] {
                Some(b) => {
                    let entry = blamed_line(n + 1, &cur, b);
                    out.push(entry);
                    proof {
                        assert(blame_view(out@) =~= blame_view(before).push(entry@));
                    }
                },
                None => {},
            }
        }
    } else {
        proof {
            assert(done =~= s);
            assert(s.skip(done.len() as int) =~= Seq::<char>::empty());
            assert(done_lines =~= text_lines(s));
        }
    }
    out
}

/// The blamed line for line `no` with text `line` and record `b`.
fn blamed_line(no: usize, line: &Vec<char>, b: &LineBlame) -> (r: BlameLine)
    ensures
        r@ == blamed(no as int, line@, *b),
{
    let end: usize = if line.len() > 0 && line[line.len() - 1] == '\n' {
        line.len() - 1
    } else {
        line.len()
    };
    let mut text_chars: Vec<char> = Vec::new();
    let mut k: usize = 0;
    while k < end
        invariant
            end <= line@.len(),
            k <= end,
            text_chars@ == line@.take(k as int),
        decreases end - k,
    {
        text_chars.push(line[k]);
        k = k + 1;
        assert(text_chars@ =~= line@.take(k as int));
    }
    let text = crate::text::string_of(text_chars.as_slice());
    proof {
        if line@.len() > 0 && line@.last() == '\n' {
            assert(text_chars@ =~= line@.drop_last());
        } else {
            assert(text_chars@ =~= line@);
        }
    }
    if b.uncommitted {
        BlameLine {
            line_no: no,
            short_id: String::from_str("0000000"),
            author: String::from_str("Not Committed Yet"),
            time: 0,
            text,
        }
    } else {
        let (author, time) = match &b.signature {
            Some((name, t)) => (name.clone(), *t),
            None => (String::new(), 0),
        };
        BlameLine { line_no: no, short_id: short_id(b.commit_id.as_str()), author, time, text }
    }
}

} // verus!
