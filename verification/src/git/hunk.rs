//! Pure hunk byte math for the repository wrapper: splitting content into
//! lines, reverting one hunk's span, and reverse-applying a staged hunk by
//! matching its text.

use vstd::prelude::*;
use vstd::utf8::encode_utf8;
use crate::git::diff::{DiffHunk, DiffLine, DiffLineView, DiffOrigin, lines_view};
use crate::git::error::GitError;

verus! {

broadcast use vstd::string::group_string_axioms;

// ── specification ─────────────────────────────────────────────────────

/// The length of the first line of `b`, its `\n` included (all of `b`
/// when it holds no `\n`).
pub open spec fn first_line_len(b: Seq<u8>) -> nat
    decreases b.len(),
{
    if b.len() == 0 {
        0
    } else if b[0] == 10u8 {
        1
    } else {
        1 + first_line_len(b.drop_first())
    }
}

pub proof fn lemma_first_line_len_bounds(b: Seq<u8>)
    ensures
        b.len() > 0 ==> 1 <= first_line_len(b) <= b.len(),
        b.len() == 0 ==> first_line_len(b) == 0,
    decreases b.len(),
{
    if b.len() > 0 && b[0] != 10u8 {
        lemma_first_line_len_bounds(b.drop_first());
    }
}

/// `b` split into lines, each keeping its trailing `\n` (the final line
/// keeps its absence of one).
pub open spec fn split_lines(b: Seq<u8>) -> Seq<Seq<u8>>
    decreases b.len(),
{
    if b.len() == 0 {
        Seq::empty()
    } else {
        proof {
            lemma_first_line_len_bounds(b);
        }
        let k = first_line_len(b) as int;
        seq![b.take(k)] + split_lines(b.skip(k))
    }
}

/// The concatenation of `ls`.
pub open spec fn concat(ls: Seq<Seq<u8>>) -> Seq<u8>
    decreases ls.len(),
{
    if ls.len() == 0 {
        Seq::empty()
    } else {
        concat(ls.drop_last()) + ls.last()
    }
}

/// Concatenation distributes over appending line lists.
pub proof fn lemma_concat_append(a: Seq<Seq<u8>>, b: Seq<Seq<u8>>)
    ensures
        concat(a + b) == concat(a) + concat(b),
    decreases b.len(),
{
    if b.len() == 0 {
        assert(a + b =~= a);
        assert(concat(a) + concat(b) =~= concat(a));
    } else {
        lemma_concat_append(a, b.drop_last());
        assert((a + b).drop_last() =~= a + b.drop_last());
        assert(concat(a) + concat(b.drop_last()) + b.last() =~= concat(a) + (concat(b.drop_last())
            + b.last()));
    }
}

/// Splitting into lines is a byte-exact partition: concatenating the lines
/// reproduces the bytes.
pub proof fn lemma_split_lines_partition(b: Seq<u8>)
    ensures
        concat(split_lines(b)) == b,
    decreases b.len(),
{
    if b.len() > 0 {
        lemma_first_line_len_bounds(b);
        let k = first_line_len(b) as int;
        lemma_split_lines_partition(b.skip(k));
        lemma_concat_append(seq![b.take(k)], split_lines(b.skip(k)));
        assert(seq![b.take(k)].drop_last() =~= Seq::<Seq<u8>>::empty());
        assert(concat(Seq::<Seq<u8>>::empty()) == Seq::<u8>::empty());
        assert(concat(seq![b.take(k)]) =~= b.take(k));
        assert(b.take(k) + b.skip(k) =~= b);
    }
}

/// The contents of the lines of `ls` on one side: the old side keeps
/// context and deletions, the new side keeps context and additions.
pub open spec fn side_contents(ls: Seq<DiffLineView>, dropped: DiffOrigin) -> Seq<Seq<char>>
    decreases ls.len(),
{
    if ls.len() == 0 {
        Seq::empty()
    } else if ls.last().origin != dropped {
        side_contents(ls.drop_last(), dropped).push(ls.last().content)
    } else {
        side_contents(ls.drop_last(), dropped)
    }
}

/// Each line's UTF-8 bytes followed by `\n`.
pub open spec fn nl_joined(cs: Seq<Seq<char>>) -> Seq<u8>
    decreases cs.len(),
{
    if cs.len() == 0 {
        Seq::empty()
    } else {
        nl_joined(cs.drop_last()) + encode_utf8(cs.last()) + seq![10u8]
    }
}

proof fn lemma_nl_joined_len(cs: Seq<Seq<char>>)
    ensures
        nl_joined(cs).len() >= cs.len(),
    decreases cs.len(),
{
    if cs.len() > 0 {
        lemma_nl_joined_len(cs.drop_last());
    }
}

/// The side's bytes: every line `\n`-terminated, except the final line
/// when `ends_nl` is false.
pub open spec fn side_text(cs: Seq<Seq<char>>, ends_nl: bool) -> Seq<u8> {
    if cs.len() > 0 && !ends_nl {
        nl_joined(cs.drop_last()) + encode_utf8(cs.last())
    } else {
        nl_joined(cs)
    }
}

/// The 0-based first line of a hunk's new-side span.
pub open spec fn span_start(h: DiffHunk) -> int {
    if h.new_start == 0 {
        0
    } else {
        h.new_start - 1
    }
}

/// The 0-based exclusive end of a hunk's new-side span, clamped to the
/// line count `n`.
pub open spec fn span_end(h: DiffHunk, n: int) -> int {
    if span_start(h) + h.new_lines > n {
        n
    } else {
        span_start(h) + h.new_lines
    }
}

/// `content` with the hunk's new-side line span replaced by its old-side
/// lines.
pub open spec fn spec_revert(content: Seq<u8>, h: DiffHunk, old_ends_nl: bool) -> Seq<u8> {
    let ls = split_lines(content);
    concat(ls.take(span_start(h))) + side_text(
        side_contents(lines_view(h.lines@), DiffOrigin::Addition),
        old_ends_nl,
    ) + concat(ls.skip(span_end(h, ls.len() as int)))
}

/// `w` occurs in `c` at `p`.
pub open spec fn occurs_at(c: Seq<u8>, w: Seq<u8>, p: int) -> bool {
    0 <= p && p + w.len() <= c.len() && c.subrange(p, p + w.len()) == w
}

/// The first position at or after `p` where `w` occurs in `c`.
pub open spec fn find_from(c: Seq<u8>, w: Seq<u8>, p: int) -> Option<int>
    decreases c.len() - p,
{
    if p < 0 || p + w.len() > c.len() {
        None
    } else if occurs_at(c, w, p) {
        Some(p)
    } else if p >= c.len() {
        None
    } else {
        find_from(c, w, p + 1)
    }
}

/// The hunk's new-side text in full form (every line `\n`-terminated).
pub open spec fn new_full(h: DiffHunk) -> Seq<u8> {
    side_text(side_contents(lines_view(h.lines@), DiffOrigin::Deletion), true)
}

/// The hunk's new-side text in trimmed form (final line unterminated).
pub open spec fn new_trimmed(h: DiffHunk) -> Seq<u8> {
    side_text(side_contents(lines_view(h.lines@), DiffOrigin::Deletion), false)
}

/// The hunk's old-side text.
pub open spec fn old_text(h: DiffHunk, old_ends_nl: bool) -> Seq<u8> {
    side_text(side_contents(lines_view(h.lines@), DiffOrigin::Addition), old_ends_nl)
}

/// The new-side text a reverse-apply matches: the full form when it occurs
/// in `content`, else the trimmed form.
pub open spec fn matched_new_side(content: Seq<u8>, h: DiffHunk) -> Seq<u8> {
    if find_from(content, new_full(h), 0) is Some {
        new_full(h)
    } else {
        new_trimmed(h)
    }
}

/// The reverse-apply of a staged hunk to workdir `content`: the first
/// occurrence of the hunk's new-side text is replaced by its old-side text;
/// `None` when neither form occurs, or when the old side lacks a final
/// newline but content follows the match (splicing would merge lines).
pub open spec fn spec_reverse_apply(content: Seq<u8>, h: DiffHunk, old_ends_nl: bool) -> Option<
    Seq<u8>,
> {
    let ns = matched_new_side(content, h);
    match find_from(content, ns, 0) {
        None => None,
        Some(pos) => if ns.len() == 0 {
            Some(spec_revert(content, h, old_ends_nl))
        } else if !old_ends_nl && pos + ns.len() < content.len() {
            None
        } else {
            Some(content.take(pos) + old_text(h, old_ends_nl) + content.skip(pos + ns.len()))
        },
    }
}

// ── execution ─────────────────────────────────────────────────────────

/// Append all of `s` to `out`.
fn push_all(out: &mut Vec<u8>, s: &[u8])
    ensures
        final(out)@ == old(out)@ + s@,
{
    let mut i: usize = 0;
    while i < s.len()
        invariant
            i <= s@.len(),
            out@ == old(out)@ + s@.take(i as int),
        decreases s@.len() - i,
    {
        out.push(s[i]);
        i = i + 1;
        assert(out@ =~= old(out)@ + s@.take(i as int));
    }
    assert(s@.take(i as int) =~= s@);
}

proof fn lemma_first_line_len_found(b: Seq<u8>, j: int)
    requires
        0 <= j < b.len(),
        b[j] == 10u8,
        forall|k: int| 0 <= k < j ==> b[k] != 10u8,
    ensures
        first_line_len(b) == j + 1,
    decreases j,
{
    if j > 0 {
        lemma_first_line_len_found(b.drop_first(), j - 1);
    }
}

proof fn lemma_first_line_len_none(b: Seq<u8>)
    requires
        forall|k: int| 0 <= k < b.len() ==> b[k] != 10u8,
    ensures
        first_line_len(b) == b.len(),
    decreases b.len(),
{
    if b.len() > 0 {
        lemma_first_line_len_none(b.drop_first());
    }
}

/// The views of a list of byte slices.
pub open spec fn slices_view(v: Seq<&[u8]>) -> Seq<Seq<u8>> {
    v.map_values(|s: &[u8]| s@)
}

/// Split `bytes` into lines, each keeping its trailing `\n` (the final
/// line keeps its absence of one). A byte-exact partition: concatenating
/// the result reproduces `bytes`.
pub fn split_lines_inclusive(bytes: &[u8]) -> (out: Vec<&[u8]>)
    ensures
        slices_view(out@) == split_lines(bytes@),
        concat(slices_view(out@)) == bytes@,
{
    let mut out: Vec<&[u8]> = Vec::new();
    let n = bytes.len();
    let mut start: usize = 0;
    assert(bytes@.skip(0) =~= bytes@);
    assert(slices_view(out@) =~= Seq::empty());
    while start < n
        invariant
            n == bytes@.len(),
            start <= n,
            slices_view(out@) + split_lines(bytes@.skip(start as int)) == split_lines(bytes@),
        decreases n - start,
    {
        let mut j = start;
        while j < n && bytes[j] != 10u8
            invariant
                n == bytes@.len(),
                start <= j <= n,
                forall|k: int| start <= k < j ==> bytes@[k] != 10u8,
            decreases n - j,
        {
            j = j + 1;
        }
        let end = if j < n {
            j + 1
        } else {
            n
        };
        let ghost rest = bytes@.skip(start as int);
        proof {
            if j < n {
                lemma_first_line_len_found(rest, j - start);
            } else {
                lemma_first_line_len_none(rest);
            }
            assert(rest.take((end - start) as int) =~= bytes@.subrange(start as int, end as int));
            assert(rest.skip((end - start) as int) =~= bytes@.skip(end as int));
            assert(split_lines(rest) == seq![rest.take((end - start) as int)] + split_lines(
                rest.skip((end - start) as int),
            ));
        }
        let line = &bytes[start..end];
        let ghost old_view = slices_view(out@);
        out.push(line);
        proof {
            assert(slices_view(out@) =~= old_view.push(line@));
            assert(old_view.push(line@) + split_lines(bytes@.skip(end as int)) =~= old_view
                + split_lines(rest));
        }
        start = end;
    }
    proof {
        assert(bytes@.skip(start as int) =~= Seq::<u8>::empty());
        assert(slices_view(out@) + Seq::<Seq<u8>>::empty() =~= slices_view(out@));
        lemma_split_lines_partition(bytes@);
    }
    out
}

/// The contents of `h`'s lines on one side, in order.
fn side_lines<'a>(lines: &'a Vec<DiffLine>, dropped: DiffOrigin) -> (r: Vec<&'a DiffLine>)
    ensures
        r@.map_values(|l: &DiffLine| l.content@) == side_contents(lines_view(lines@), dropped),
{
    let mut r: Vec<&DiffLine> = Vec::new();
    let mut i: usize = 0;
    while i < lines.len()
        invariant
            i <= lines@.len(),
            r@.map_values(|l: &DiffLine| l.content@) == side_contents(
                lines_view(lines@.take(i as int)),
                dropped,
            ),
        decreases lines@.len() - i,
    {
        proof {
            assert(lines_view(lines@.take(i + 1)).drop_last() =~= lines_view(
                lines@.take(i as int),
            ));
        }
        let l = &lines[i];
        let ghost before = r@;
        if l.origin != dropped {
            r.push(l);
            assert(r@.map_values(|l: &DiffLine| l.content@) =~= before.map_values(
                |l: &DiffLine| l.content@,
            ).push(l.content@));
        }
        i = i + 1;
    }
    assert(lines@.take(i as int) =~= lines@);
    r
}

/// The bytes of a side's lines: every line `\n`-terminated, except the
/// final one when `ends_nl` is false.
fn build_side(ls: &Vec<&DiffLine>, ends_nl: bool) -> (v: Vec<u8>)
    ensures
        v@ == side_text(ls@.map_values(|l: &DiffLine| l.content@), ends_nl),
{
    let ghost cs = ls@.map_values(|l: &DiffLine| l.content@);
    let mut v: Vec<u8> = Vec::new();
    let mut i: usize = 0;
    assert(cs.take(0) =~= Seq::<Seq<char>>::empty());
    while i < ls.len()
        invariant
            i <= ls@.len(),
            cs == ls@.map_values(|l: &DiffLine| l.content@),
            i < ls@.len() || ends_nl || ls@.len() == 0 ==> v@ == nl_joined(cs.take(i as int)),
            i == ls@.len() && !ends_nl && ls@.len() > 0 ==> v@ == side_text(cs, ends_nl),
        decreases ls@.len() - i,
    {
        let ghost prev = v@;
        push_all(&mut v, ls[i].content.as_str().as_bytes());
        let is_final = !ends_nl && i + 1 == ls.len();
        if !is_final {
            v.push(10u8);
        }
        proof {
            assert(cs.take(i + 1).drop_last() =~= cs.take(i as int));
            if is_final {
                assert(cs.drop_last() =~= cs.take(i as int));
            }
        }
        i = i + 1;
    }
    proof {
        assert(cs.take(i as int) =~= cs);
    }
    v
}

/// Rebuild a file's content (bytes) with one hunk's new-side line span
/// replaced by the hunk's old-side lines (context + deletion, in order),
/// byte-exactly. Every old-side line is re-terminated with `\n` except the
/// old file's last line when it lacked a trailing newline (`old_ends_nl`
/// false).
pub fn revert_hunk_in_content(content: &[u8], hunk: &DiffHunk, old_ends_nl: bool) -> (out: Vec<
    u8,
>)
    requires
        span_start(*hunk) <= split_lines(content@).len(),
    ensures
        out@ == spec_revert(content@, *hunk, old_ends_nl),
{
    let lines = split_lines_inclusive(content);
    let ghost ls = slices_view(lines@);
    let start0: usize = if hunk.new_start == 0 {
        0
    } else {
        (hunk.new_start - 1) as usize
    };
    let end0: usize = if hunk.new_lines as usize > lines.len() - start0 {
        lines.len()
    } else {
        start0 + hunk.new_lines as usize
    };
    let old = side_lines(&hunk.lines, DiffOrigin::Addition);
    let mut out: Vec<u8> = Vec::new();
    let mut i: usize = 0;
    while i < start0
        invariant
            start0 <= lines@.len(),
            ls == slices_view(lines@),
            i <= start0,
            out@ == concat(ls.take(i as int)),
        decreases start0 - i,
    {
        assert(ls.take(i + 1).drop_last() =~= ls.take(i as int));
        push_all(&mut out, lines[i]);
        i = i + 1;
    }
    let old_bytes = build_side(&old, old_ends_nl);
    let ghost prefix = out@;
    push_all(&mut out, old_bytes.as_slice());
    let ghost mid = out@;
    let mut k: usize = end0;
    assert(ls.skip(end0 as int).take(0) =~= Seq::<Seq<u8>>::empty());
    while k < lines.len()
        invariant
            end0 <= k <= lines@.len(),
            ls == slices_view(lines@),
            out@ == mid + concat(ls.skip(end0 as int).take(k - end0)),
        decreases lines@.len() - k,
    {
        assert(ls.skip(end0 as int).take(k + 1 - end0).drop_last() =~= ls.skip(end0 as int).take(
            k - end0,
        ));
        push_all(&mut out, lines[k]);
        k = k + 1;
        assert(out@ =~= mid + concat(ls.skip(end0 as int).take(k - end0)));
    }
    assert(ls.skip(end0 as int).take(k - end0) =~= ls.skip(end0 as int));
    out
}

/// The first position where `w` occurs in `c`, if any.
fn find_window(c: &[u8], w: &[u8]) -> (r: Option<usize>)
    ensures
        r matches Some(p) ==> find_from(c@, w@, 0) == Some(p as int) && occurs_at(c@, w@, p as int),
        r is None ==> find_from(c@, w@, 0) is None,
{
    if w.len() > c.len() {
        return None;
    }
    let last = c.len() - w.len();
    let mut p: usize = 0;
    while p <= last
        invariant
            last == c@.len() - w@.len(),
            c@.len() <= usize::MAX,
            w@.len() <= c@.len(),
            p <= last + 1,
            find_from(c@, w@, 0) == find_from(c@, w@, p as int),
        decreases last + 1 - p,
    {
        let mut j: usize = 0;
        let mut mismatch = false;
        while j < w.len() && !mismatch
            invariant
                j <= w@.len(),
                p <= last,
                c@.len() <= usize::MAX,
                w@.len() <= c@.len(),
                last == c@.len() - w@.len(),
                forall|k: int| 0 <= k < j ==> c@[p + k] == w@[k],
                mismatch ==> j < w@.len() && c@[p + j] != w@[j as int],
            decreases w@.len() - j + (if mismatch { 0int } else { 1int }),
        {
            let at = p + j;
            if c[at] != w[j] {
                mismatch = true;
            } else {
                j = j + 1;
            }
        }
        if !mismatch {
            assert(c@.subrange(p as int, p + w@.len()) =~= w@);
            return Some(p);
        }
        assert(!occurs_at(c@, w@, p as int)) by {
            assert(c@.subrange(p as int, p + w@.len())[j as int] != w@[j as int]);
        }
        p = p + 1;
    }
    None
}

/// Reverse-apply a staged hunk to the workdir content by finding the
/// hunk's new-side (index) line block in `content` and replacing it with
/// the hunk's old-side (HEAD) line block. Returns `None` when the
/// new-side text is not found (the workdir has diverged from the index in
/// this hunk's region), or when the old side's final line lacks a newline
/// but content follows the match (splicing would merge two lines). The
/// full new-side form (every line terminated) is tried first, then the
/// trimmed form (final line unterminated). A hunk whose matched new side
/// is empty (a pure deletion) is spliced by line number instead, as
/// [`revert_hunk_in_content`] does.
pub fn reverse_apply_hunk_in_content(content: &[u8], hunk: &DiffHunk, old_ends_nl: bool) -> (r:
    Option<Vec<u8>>)
    requires
        matched_new_side(content@, *hunk).len() == 0 ==> span_start(*hunk) <= split_lines(content@).len(),
    ensures
        r matches Some(v) ==> spec_reverse_apply(content@, *hunk, old_ends_nl) == Some(v@),
        r is None ==> spec_reverse_apply(content@, *hunk, old_ends_nl) is None,
{
    let clen = content.len();
    let new_lines = side_lines(&hunk.lines, DiffOrigin::Deletion);
    let full = build_side(&new_lines, true);
    let (new_side, pos) = match find_window(content, full.as_slice()) {
        Some(p) => (full, p),
        None => {
            let trimmed = build_side(&new_lines, false);
            match find_window(content, trimmed.as_slice()) {
                Some(p) => (trimmed, p),
                None => {
                    return None;
                },
            }
        },
    };
    assert(new_side@ == matched_new_side(content@, *hunk));
    proof {
        lemma_nl_joined_len(side_contents(lines_view(hunk.lines@), DiffOrigin::Deletion));
    }
    assert(occurs_at(content@, new_side@, pos as int));
    if new_side.len() == 0 {
        return Some(revert_hunk_in_content(content, hunk, old_ends_nl));
    }
    let old_lines = side_lines(&hunk.lines, DiffOrigin::Addition);
    let old_side = build_side(&old_lines, old_ends_nl);
    if !old_ends_nl && pos + new_side.len() < clen {
        return None;
    }
    let mut out: Vec<u8> = Vec::new();
    push_all(&mut out, &content[0..pos]);
    push_all(&mut out, old_side.as_slice());
    push_all(&mut out, &content[pos + new_side.len()..content.len()]);
    assert(content@.subrange(0, pos as int) =~= content@.take(pos as int));
    assert(content@.subrange(pos + new_side@.len(), content@.len() as int) =~= content@.skip(
        pos + new_side@.len(),
    ));
    Some(out)
}

/// Whether a hunk's old side ends with a newline: its old file's content
/// (`None` when the old side does not exist) ends with `\n`.
pub fn old_side_ends_nl(old_content: Option<&[u8]>) -> (b: bool)
    ensures
        b == (match old_content {
            Some(c) => c@.len() > 0 && c@.last() == 10u8,
            None => false,
        }),
{
    match old_content {
        Some(c) => c.len() > 0 && c[c.len() - 1] == 10u8,
        None => false,
    }
}

/// Whether the hunk's new-side span starts within `content`'s lines: the
/// condition under which [`revert_hunk_in_content`] can splice it.
pub fn revert_in_range(content: &[u8], hunk: &DiffHunk) -> (b: bool)
    ensures
        b == (span_start(*hunk) <= split_lines(content@).len()),
{
    let n = split_lines_inclusive(content).len();
    let start0: u32 = if hunk.new_start == 0 {
        0
    } else {
        hunk.new_start - 1
    };
    (start0 as usize) <= n
}

/// Whether [`reverse_apply_hunk_in_content`] can run on `content`: a hunk
/// whose matched new side is empty falls back to the line-number splice,
/// which needs its span to start within the content.
pub fn reverse_apply_in_range(content: &[u8], hunk: &DiffHunk) -> (b: bool)
    ensures
        b == (matched_new_side(content@, *hunk).len() == 0 ==> span_start(*hunk) <= split_lines(content@).len()),
{
    let new_lines = side_lines(&hunk.lines, DiffOrigin::Deletion);
    let full = build_side(&new_lines, true);
    let matched_len = match find_window(content, full.as_slice()) {
        Some(_) => full.len(),
        None => build_side(&new_lines, false).len(),
    };
    if matched_len == 0 {
        revert_in_range(content, hunk)
    } else {
        true
    }
}

/// Fail with `GitError::NotUtf8` when `content` is not valid UTF-8.
pub fn ensure_utf8(content: &[u8], path: &str) -> (r: Result<(), GitError>)
    ensures
        r is Ok <==> vstd::utf8::valid_utf8(content@),
        r matches Err(e) ==> e matches GitError::NotUtf8(p) && p@ == path@,
{
    if is_utf8(content) {
        Ok(())
    } else {
        Err(GitError::NotUtf8(path.to_owned()))
    }
}

/// Whether `bytes` is valid UTF-8 (`std::str::from_utf8` succeeds).
#[verifier::external_body]
fn is_utf8(bytes: &[u8]) -> (b: bool)
    ensures
        b == vstd::utf8::valid_utf8(bytes@),
{
    std::str::from_utf8(bytes).is_ok()
}

/// The first hunk of `diff` whose new side starts at `target_new_start`;
/// `HunkNotFound` naming `path` and the line when there is none.
pub fn find_hunk(
    diff: &crate::git::diff::FileDiff,
    path: &str,
    target_new_start: u32,
) -> (r: Result<DiffHunk, crate::git::error::GitError>)
    ensures
        match r {
            Ok(h) => exists|i: int|
                0 <= i < diff.hunks@.len() && diff.hunks@[i].new_start == target_new_start && h@ == diff.hunks@[i]@
                    && forall|j: int| 0 <= j < i ==> diff.hunks@[j].new_start != target_new_start,
            Err(e) => {
                &&& forall|j: int| 0 <= j < diff.hunks@.len() ==> diff.hunks@[j].new_start != target_new_start
                &&& e matches crate::git::error::GitError::HunkNotFound { file, start }
                &&& file@ == path@
                &&& start == target_new_start
            },
        },
{
    let mut i: usize = 0;
    while i < diff.hunks.len()
        invariant
            i <= diff.hunks@.len(),
            forall|j: int| 0 <= j < i ==> diff.hunks@[j].new_start != target_new_start,
        decreases diff.hunks@.len() - i,
    {
        if diff.hunks[i].new_start == target_new_start {
            return Ok(crate::git::diff::copy_hunk(&diff.hunks[i]));
        }
        i = i + 1;
    }
    Err(crate::git::error::GitError::HunkNotFound { file: path.to_owned(), start: target_new_start })
}

/// The flags of a fresh index entry for a path of `len` bytes: the length
/// in the low byte of `flags` when under 64, else (truncated to 16 bits)
/// in `flags_extended`.
pub fn index_entry_flags(len: usize) -> (r: (u16, u16))
    ensures
        len < 64 ==> r == (len as u16, 0u16),
        len >= 64 ==> r == (0u16, (len % 65536) as u16),
{
    if len < 64 {
        (len as u16, 0)
    } else {
        ((0u16), (len % 65536) as u16)
    }
}

/// The git file mode of a tree (directory) entry.
pub const TREE_MODE: u32 = 0o40000;

/// What to do at one level of a tree walk toward a path: descend into the
/// named subtree with the rest of the path, stop with the found entry, or
/// give up.
#[derive(Debug, PartialEq, Eq)]
pub enum TreeStep {
    Descend { name: String, rest: String },
    Found,
    Missing,
}

/// The first `/`-separated name of `rest` and what follows its `/`
/// (empty without one).
pub open spec fn split_first(rest: Seq<char>) -> (Seq<char>, Seq<char>) {
    match crate::text::first_index(rest, '/') {
        Some(i) => (rest.take(i), rest.skip(i + 1)),
        None => (rest, Seq::empty()),
    }
}

/// The name to look up next in the current tree for the remaining path
/// `rest`.
pub fn tree_lookup_name(rest: &str) -> (r: String)
    ensures
        r@ == split_first(rest@).0,
{
    let cs = crate::text::chars_of(rest);
    match crate::text::find_char(cs.as_slice(), '/') {
        Some(i) => {
            let mut out: Vec<char> = Vec::new();
            let mut k: usize = 0;
            while k < i
                invariant
                    i < cs@.len(),
                    k <= i,
                    out@ == cs@.take(k as int),
                decreases i - k,
            {
                out.push(cs[k]);
                k = k + 1;
                assert(out@ =~= cs@.take(k as int));
            }
            crate::text::string_of(out.as_slice())
        },
        None => rest.to_owned(),
    }
}

/// The step after looking up `split_first(rest).0` in the current tree and
/// finding an entry of mode `mode` (`None`: no such entry): a subtree is
/// descended into while path remains; a non-tree entry is the answer only
/// when it is the whole remaining path.
pub fn tree_step(rest: &str, mode: Option<u32>) -> (r: TreeStep)
    ensures
        match mode {
            None => r == TreeStep::Missing,
            Some(m) => if m == TREE_MODE {
                if split_first(rest@).1.len() == 0 {
                    r == TreeStep::Missing
                } else {
                    r matches TreeStep::Descend { name, rest: next } && name@ == split_first(rest@).0 && next@
                        == split_first(rest@).1
                }
            } else if split_first(rest@).0 == rest@ {
                r == TreeStep::Found
            } else {
                r == TreeStep::Missing
            },
        },
{
    let m = match mode {
        Some(m) => m,
        None => return TreeStep::Missing,
    };
    let cs = crate::text::chars_of(rest);
    let split = crate::text::find_char(cs.as_slice(), '/');
    if m == TREE_MODE {
        match split {
            Some(i) => {
                if i == cs.len() - 1 {
                    proof {
                        assert(cs@.skip(i + 1) =~= Seq::<char>::empty());
                    }
                    return TreeStep::Missing;
                }
                let name = tree_lookup_name(rest);
                let mut next: Vec<char> = Vec::new();
                let mut k: usize = i + 1;
                while k < cs.len()
                    invariant
                        i < cs@.len(),
                        i + 1 <= k <= cs@.len(),
                        next@ == cs@.subrange(i + 1, k as int),
                    decreases cs@.len() - k,
                {
                    next.push(cs[k]);
                    k = k + 1;
                    assert(next@ =~= cs@.subrange(i + 1, k as int));
                }
                proof {
                    assert(cs@.subrange(i + 1, cs@.len() as int) =~= cs@.skip(i + 1));
                }
                TreeStep::Descend { name, rest: crate::text::string_of(next.as_slice()) }
            },
            None => TreeStep::Missing,
        }
    } else {
        match split {
            Some(i) => {
                proof {
                    assert(cs@.take(i as int).len() != cs@.len());
                }
                TreeStep::Missing
            },
            None => TreeStep::Found,
        }
    }
}

/// What unstaging a hunk does to the file's index entry.
#[derive(Clone, Copy, Debug, PartialEq, Eq, Structural)]
pub enum IndexAction {
    /// Drop the entry: the file goes back to untracked.
    RemoveEntry,
    /// Store the reverted content as the entry's blob.
    WriteBlob,
}

/// The index update after reverting a staged hunk: a file that HEAD does
/// not have and whose reverted content is empty leaves the index; any
/// other file gets the reverted content.
pub fn unstage_action(new_len: usize, old_exists: bool) -> (a: IndexAction)
    ensures
        a == (if new_len == 0 && !old_exists {
            IndexAction::RemoveEntry
        } else {
            IndexAction::WriteBlob
        }),
{
    if new_len == 0 && !old_exists {
        IndexAction::RemoveEntry
    } else {
        IndexAction::WriteBlob
    }
}

} // verus!
