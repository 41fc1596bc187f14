//! The index profiler's report helpers that do not measure anything: the
//! structure-preserving path pseudonyms, CSV field quoting, the per-run
//! CSV path, and the order of the top-N lists.

use vstd::prelude::*;
use crate::nav::keymap::KeyMap;
use crate::text::{decimal, push_char, push_decimal};

verus! {

/// The non-empty `/`-separated parts of `s` so far, and the part being
/// read.
pub open spec fn parts_state(s: Seq<char>) -> (Seq<Seq<char>>, Seq<char>)
    decreases s.len(),
{
    if s.len() == 0 {
        (Seq::empty(), Seq::empty())
    } else {
        let (ps, cur) = parts_state(s.drop_last());
        if s.last() == '/' {
            (
                if cur.len() > 0 {
                    ps.push(cur)
                } else {
                    ps
                },
                Seq::empty(),
            )
        } else {
            (ps, cur.push(s.last()))
        }
    }
}

/// The non-empty `/`-separated parts of `s`, in order.
pub open spec fn slash_parts(s: Seq<char>) -> Seq<Seq<char>> {
    let (ps, cur) = parts_state(s);
    if cur.len() > 0 {
        ps.push(cur)
    } else {
        ps
    }
}

/// `n` in decimal, left-padded with zeros to `w` digits.
pub open spec fn padded(n: nat, w: nat) -> Seq<char> {
    let d = decimal(n);
    if d.len() < w {
        Seq::new((w - d.len()) as nat, |i: int| '0') + d
    } else {
        d
    }
}

/// The pseudonym of a file: `t<top>/d<depth>/f<id>` with the extension
/// (if any) after a dot; the ids zero-padded to two and four digits.
pub open spec fn pseudonym(top_id: nat, depth: nat, file_id: nat, ext: Option<Seq<char>>) -> Seq<char> {
    seq!['t'] + padded(top_id, 2) + seq!['/', 'd'] + decimal(depth) + seq!['/', 'f'] + padded(file_id, 4) + match ext {
        Some(e) => seq!['.'] + e,
        None => Seq::empty(),
    }
}

/// The pseudonym state as plain values: top-level component ids, file
/// ids, and the last ids handed out.
pub struct AnonView {
    pub tops: Map<Seq<char>, u32>,
    pub files: Map<Seq<char>, u32>,
    pub next_top: u32,
    pub next_file: u32,
}

/// Stable path pseudonyms: each top-level component and each file gets a
/// sequential id on first ask, and keeps it.
pub struct Anon {
    tops: KeyMap<u32>,
    files: KeyMap<u32>,
    next_top: u32,
    next_file: u32,
}

impl View for Anon {
    type V = AnonView;

    closed spec fn view(&self) -> AnonView {
        AnonView { tops: self.tops@, files: self.files@, next_top: self.next_top, next_file: self.next_file }
    }
}

/// The id `m` gives `k`, or the next one after `last` for a new key.
pub open spec fn id_for(m: Map<Seq<char>, u32>, k: Seq<char>, last: u32) -> nat {
    if m.contains_key(k) {
        m[k] as nat
    } else {
        (last + 1) as nat
    }
}

impl Anon {
    /// The id maps hold distinct keys.
    pub closed spec fn wf(&self) -> bool {
        self.tops.wf() && self.files.wf()
    }

    /// No ids handed out yet.
    pub fn new() -> (a: Anon)
        ensures
            a.wf(),
            a@.tops == Map::<Seq<char>, u32>::empty(),
            a@.files == Map::<Seq<char>, u32>::empty(),
            a@.next_top == 0,
            a@.next_file == 0,
    {
        Anon { tops: KeyMap::new(), files: KeyMap::new(), next_top: 0, next_file: 0 }
    }

    /// The id of `key` in `m`, handing out `*last + 1` to a new key.
    fn id_of(m: &mut KeyMap<u32>, last: &mut u32, key: &str) -> (id: u32)
        requires
            old(m).wf(),
            *old(last) < u32::MAX,
        ensures
            final(m).wf(),
            id == id_for(old(m)@, key@, *old(last)),
            final(m)@ == old(m)@.insert(key@, id),
            *final(last) == (if old(m)@.contains_key(key@) {
                *old(last)
            } else {
                (*old(last) + 1) as u32
            }),
    {
        match m.get(key) {
            Some(id) => {
                let v = *id;
                proof {
                    assert(old(m)@.insert(key@, v) =~= old(m)@);
                }
                v
            },
            None => {
                *last = *last + 1;
                m.insert(key.to_owned(), *last);
                *last
            },
        }
    }

    /// The pseudonym of project-relative path `rel` whose extension is
    /// `ext`: `t<top>/d<depth>/f<id>[.<ext>]`, where `top` is the id of
    /// its first component, `depth` its number of components, and `id`
    /// the file's own id; asking again gives the same pseudonym.
    pub fn label(&mut self, rel: &str, ext: Option<String>) -> (r: String)
        requires
            old(self).wf(),
            slash_parts(rel@).len() > 0,
            old(self)@.next_top < u32::MAX,
            old(self)@.next_file < u32::MAX,
        ensures
            final(self).wf(),
            final(self)@.tops == old(self)@.tops.insert(
                slash_parts(rel@)[0],
                id_for(old(self)@.tops, slash_parts(rel@)[0], old(self)@.next_top) as u32,
            ),
            final(self)@.files == old(self)@.files.insert(rel@, id_for(old(self)@.files, rel@, old(self)@.next_file) as u32),
            final(self)@.next_top == (if old(self)@.tops.contains_key(slash_parts(rel@)[0]) {
                old(self)@.next_top
            } else {
                (old(self)@.next_top + 1) as u32
            }),
            final(self)@.next_file == (if old(self)@.files.contains_key(rel@) {
                old(self)@.next_file
            } else {
                (old(self)@.next_file + 1) as u32
            }),
            r@ == pseudonym(
                id_for(old(self)@.tops, slash_parts(rel@)[0], old(self)@.next_top),
                slash_parts(rel@).len(),
                id_for(old(self)@.files, rel@, old(self)@.next_file),
                match ext {
                    Some(e) => Some(e@),
                    None => None,
                },
            ),
    {
        let (parts, depth) = split_parts(rel);
        let top_id = Self::id_of(&mut self.tops, &mut self.next_top, parts.as_str());
        let file_id = Self::id_of(&mut self.files, &mut self.next_file, rel);
        let mut out = String::new();
        push_char(&mut out, 't');
        push_padded(&mut out, top_id as u64, 2);
        push_char(&mut out, '/');
        push_char(&mut out, 'd');
        push_decimal(&mut out, depth as u64);
        push_char(&mut out, '/');
        push_char(&mut out, 'f');
        push_padded(&mut out, file_id as u64, 4);
        let ghost before = out@;
        match ext {
            Some(e) => {
                push_char(&mut out, '.');
                out.append(e.as_str());
            },
            None => {},
        }
        proof {
            assert(out@ =~= pseudonym(top_id as nat, depth as nat, file_id as nat, match ext {
                Some(e) => Some(e@),
                None => None,
            }));
        }
        out
    }
}

/// The first `/`-separated part of `s` and the number of parts.
fn split_parts(s: &str) -> (r: (String, usize))
    requires
        slash_parts(s@).len() > 0,
    ensures
        r.0@ == slash_parts(s@)[0],
        r.1 == slash_parts(s@).len(),
{
    let cs = crate::text::chars_of(s);
    let ghost v = cs@;
    let mut first: Option<Vec<char>> = None;
    let mut count: usize = 0;
    let mut cur: Vec<char> = Vec::new();
    let mut i: usize = 0;
    while i < cs.len()
        invariant
            v == cs@,
            v == s@,
            i <= v.len(),
            parts_state(v.take(i as int)).1 == cur@,
            count == parts_state(v.take(i as int)).0.len(),
            count + cur@.len() <= i,
            count > 0 ==> (first matches Some(f) && f@ == parts_state(v.take(i as int)).0[0]),
        decreases v.len() - i,
    {
        let c = cs[i];
        let ghost t = v.take(i + 1);
        proof {
            assert(t.drop_last() =~= v.take(i as int));
            assert(t.last() == c);
        }
        if c == '/' {
            if cur.len() > 0 {
                if count == 0 {
                    first = Some(cur);
                }
                count = count + 1;
            }
            cur = Vec::new();
        } else {
            cur.push(c);
        }
        i = i + 1;
    }
    proof {
        assert(v.take(v.len() as int) =~= v);
    }
    if cur.len() > 0 {
        if count == 0 {
            first = Some(cur);
        }
        count = count + 1;
    }
    match first {
        Some(f) => (crate::text::string_of(f.as_slice()), count),
        None => (String::new(), count),
    }
}

/// Append `n` zero-padded to `w` digits.
fn push_padded(s: &mut String, n: u64, w: usize)
    ensures
        final(s)@ == old(s)@ + padded(n as nat, w as nat),
{
    let d = crate::text::u64_to_string(n);
    let len = d.unicode_len();
    let ghost start = s@;
    if len < w {
        let mut k: usize = 0;
        while k < w - len
            invariant
                len < w,
                len == decimal(n as nat).len(),
                k <= w - len,
                s@ == start + Seq::new(k as nat, |i: int| '0'),
            decreases w - len - k,
        {
            push_char(s, '0');
            k = k + 1;
            assert(s@ =~= start + Seq::new(k as nat, |i: int| '0'));
        }
    }
    s.append(d.as_str());
    proof {
        if len < w {
            assert(s@ =~= start + (Seq::new((w - len) as nat, |i: int| '0') + decimal(n as nat)));
        }
    }
}

/// Whether a CSV field needs quotes: it holds a comma, a quote or a
/// newline.
pub open spec fn needs_quotes(s: Seq<char>) -> bool {
    s.contains(',') || s.contains('"') || s.contains('\n')
}

/// `s` with each `"` doubled.
pub open spec fn doubled_quotes(s: Seq<char>) -> Seq<char>
    decreases s.len(),
{
    if s.len() == 0 {
        Seq::empty()
    } else {
        doubled_quotes(s.drop_last()) + if s.last() == '"' {
            seq!['"', '"']
        } else {
            seq![s.last()]
        }
    }
}

/// A CSV field: quoted (with inner quotes doubled) only when needed.
pub fn csv_field(s: &str) -> (r: String)
    ensures
        r@ == (if needs_quotes(s@) {
            seq!['"'] + doubled_quotes(s@) + seq!['"']
        } else {
            s@
        }),
{
    let cs = crate::text::chars_of(s);
    let mut needs = false;
    let mut i: usize = 0;
    while i < cs.len()
        invariant
            i <= cs@.len(),
            needs == (cs@.take(i as int).contains(',') || cs@.take(i as int).contains('"') || cs@.take(
                i as int,
            ).contains('\n')),
        decreases cs@.len() - i,
    {
        proof {
            broadcast use vstd::seq_lib::lemma_seq_contains_after_push;

            assert(cs@.take(i + 1) =~= cs@.take(i as int).push(cs@[i as int]));
        }
        let c = cs[i];
        if c == ',' || c == '"' || c == '\n' {
            needs = true;
        }
        i = i + 1;
    }
    proof {
        assert(cs@.take(cs@.len() as int) =~= cs@);
    }
    if !needs {
        return s.to_owned();
    }
    let mut out = String::new();
    push_char(&mut out, '"');
    let mut j: usize = 0;
    while j < cs.len()
        invariant
            j <= cs@.len(),
            out@ == seq!['"'] + doubled_quotes(cs@.take(j as int)),
        decreases cs@.len() - j,
    {
        let ghost t = cs@.take(j + 1);
        proof {
            assert(t.drop_last() =~= cs@.take(j as int));
        }
        let c = cs[j];
        push_char(&mut out, c);
        if c == '"' {
            push_char(&mut out, '"');
        }
        j = j + 1;
        assert(out@ =~= seq!['"'] + doubled_quotes(cs@.take(j as int)));
    }
    push_char(&mut out, '"');
    assert(cs@.take(cs@.len() as int) =~= cs@);
    out
}

/// What `Path::with_file_name` gives for a path and a file name (the
/// path with its file name replaced, or the name pushed when it has none).
pub uninterp spec fn path_with_file_name(path: Seq<char>, name: Seq<char>) -> Seq<char>;

/// `path` with its file name set to `name` (`Path::with_file_name`).
#[verifier::external_body]
fn with_file_name(path: &str, name: &str) -> (r: String)
    ensures
        r@ == path_with_file_name(path@, name@),
{
    std::path::Path::new(path).with_file_name(name).to_string_lossy().into_owned()
}

/// The file name of run `n`: `<stem>-run<n><ext>`, where the extension
/// starts at the last dot of `base` unless that dot begins it.
pub open spec fn run_file_name(base: Seq<char>, n: nat) -> Seq<char> {
    match crate::text::last_index(base, '.') {
        Some(i) if i > 0 => base.take(i) + "-run"@ + decimal(n) + base.skip(i),
        _ => base + "-run"@ + decimal(n),
    }
}

/// The CSV path of run `n` (from 1) of `repeat`: `out` itself for a single
/// run; else `out` with its file name (or `index.csv` when it has none)
/// renamed per `run_file_name`.
pub fn csv_path(out: &Option<String>, n: usize, repeat: usize) -> (r: Option<String>)
    ensures
        match out {
            None => r is None,
            Some(o) => r matches Some(p) && p@ == (if repeat <= 1 {
                o@
            } else {
                path_with_file_name(
                    o@,
                    run_file_name(
                        match crate::model::path::spec_file_name(o@) {
                            Some(b) => b,
                            None => "index.csv"@,
                        },
                        n as nat,
                    ),
                )
            }),
        },
{
    let o = match out {
        Some(o) => o,
        None => return None,
    };
    if repeat <= 1 {
        return Some(o.clone());
    }
    let base = match crate::model::path::file_name(o.as_str()) {
        Some(b) => b,
        None => String::from_str("index.csv"),
    };
    let bc = crate::text::chars_of(base.as_str());
    let mut name = String::new();
    match crate::text::rfind_char(bc.as_slice(), '.') {
        Some(i) if i > 0 => {
            let mut k: usize = 0;
            while k < i
                invariant
                    i < bc@.len(),
                    k <= i,
                    name@ == bc@.take(k as int),
                decreases i - k,
            {
                push_char(&mut name, bc[k]);
                k = k + 1;
                assert(name@ =~= bc@.take(k as int));
            }
            name.append("-run");
            push_decimal(&mut name, n as u64);
            let ghost mid = name@;
            let mut k2: usize = i;
            while k2 < bc.len()
                invariant
                    i <= k2 <= bc@.len(),
                    name@ == mid + bc@.subrange(i as int, k2 as int),
                decreases bc@.len() - k2,
            {
                push_char(&mut name, bc[k2]);
                k2 = k2 + 1;
                assert(name@ =~= mid + bc@.subrange(i as int, k2 as int));
            }
            proof {
                reveal_strlit("-run");
                assert(bc@.subrange(i as int, bc@.len() as int) =~= bc@.skip(i as int));
            }
        },
        _ => {
            name.append(base.as_str());
            name.append("-run");
            push_decimal(&mut name, n as u64);
        },
    }
    Some(with_file_name(o.as_str(), name.as_str()))
}

/// Whether position `a` comes before position `b` in a top-N list over
/// `keys`: the larger key first, equal keys by position.
pub open spec fn ranks_before(keys: Seq<u128>, a: int, b: int) -> bool {
    keys[a] > keys[b] || (keys[a] == keys[b] && a < b)
}

/// `r` lists positions of `keys` in strictly ascending rank.
pub open spec fn ranked(keys: Seq<u128>, r: Seq<usize>) -> bool {
    forall|i: int, j: int| 0 <= i < j < r.len() ==> ranks_before(keys, #[trigger] r[i] as int, #[trigger] r[j] as int)
}

/// The first `top` positions of `keys` by rank (largest key first, equal
/// keys by position): as many as `top` allows, each a position of `keys`,
/// in rank order, and every position left out ranks after all that are
/// listed.
pub fn top_order(keys: &[u128], top: usize) -> (r: Vec<usize>)
    ensures
        r@.len() == (if top < keys@.len() {
            top as int
        } else {
            keys@.len() as int
        }),
        ranked(keys@, r@),
        forall|i: int| 0 <= i < r@.len() ==> #[trigger] r@[i] < keys@.len(),
        forall|p: int, i: int|
            0 <= p < keys@.len() && !r@.contains(p as usize) && 0 <= i < r@.len() ==> #[trigger] ranks_before(
                keys@,
                r@[i] as int,
                p,
            ),
{
    let n = keys.len();
    let mut out: Vec<usize> = Vec::new();
    let mut i: usize = 0;
    while i < n
        invariant
            n == keys@.len(),
            i <= n,
            out@.len() == i,
            ranked(keys@, out@),
            forall|p: int| 0 <= p < out@.len() ==> #[trigger] out@[p] < i,
            forall|q: int| 0 <= q < i ==> #[trigger] out@.contains(q as usize),
        decreases n - i,
    {
        let mut pos: usize = 0;
        while pos < out.len() && !(keys[i] > keys[out[pos]] || (keys[i] == keys[out[pos]] && i < out[pos]))
            invariant
                n == keys@.len(),
                i < n,
                pos <= out@.len(),
                forall|p: int| 0 <= p < out@.len() ==> #[trigger] out@[p] < i,
                forall|j: int| 0 <= j < pos ==> ranks_before(keys@, #[trigger] out@[j] as int, i as int),
            decreases out@.len() - pos,
        {
            pos = pos + 1;
        }
        let ghost before = out@;
        proof {
            assert forall|j: int| pos <= j < before.len() implies ranks_before(keys@, i as int, #[trigger] before[j] as int) by {
                assert(ranks_before(keys@, i as int, before[pos as int] as int));
                if j > pos {
                    assert(ranks_before(keys@, before[pos as int] as int, before[j] as int));
                }
            }
        }
        out.insert(pos, i);
        proof {
            assert(out@ == before.insert(pos as int, i));
            assert forall|a: int, b: int| 0 <= a < b < out@.len() implies ranks_before(keys@, #[trigger] out@[a] as int, #[trigger] out@[b] as int) by {
                if b < pos {
                    assert(out@[a] == before[a] && out@[b] == before[b]);
                } else if b == pos {
                    assert(out@[a] == before[a]);
                } else if a == pos {
                    assert(out@[b] == before[b - 1]);
                } else if a < pos {
                    assert(out@[a] == before[a] && out@[b] == before[b - 1]);
                    assert(ranks_before(keys@, before[a] as int, i as int));
                    assert(ranks_before(keys@, i as int, before[b - 1] as int));
                } else {
                    assert(out@[a] == before[a - 1] && out@[b] == before[b - 1]);
                }
            }
            assert forall|q: int| 0 <= q < i + 1 implies #[trigger] out@.contains(q as usize) by {
                if q < i {
                    assert(before.contains(q as usize));
                    let k = choose|k: int| 0 <= k < before.len() && before[k] == q as usize;
                    if k < pos {
                        assert(out@[k] == before[k]);
                    } else {
                        assert(out@[k + 1] == before[k]);
                    }
                } else {
                    assert(out@[pos as int] == i);
                }
            }
            assert forall|p: int| 0 <= p < out@.len() implies #[trigger] out@[p] < i + 1 by {
                if p < pos {
                    assert(out@[p] == before[p]);
                } else if p > pos {
                    assert(out@[p] == before[p - 1]);
                }
            }
        }
        i = i + 1;
    }
    let m = if top < n {
        top
    } else {
        n
    };
    let mut r: Vec<usize> = Vec::new();
    let mut k: usize = 0;
    while k < m
        invariant
            m <= n,
            n == keys@.len(),
            out@.len() == n,
            k <= m,
            r@ == out@.take(k as int),
        decreases m - k,
    {
        r.push(out[k]);
        k = k + 1;
        assert(r@ =~= out@.take(k as int));
    }
    proof {
        assert forall|p: int, j: int|
            0 <= p < keys@.len() && !r@.contains(p as usize) && 0 <= j < r@.len() implies #[trigger] ranks_before(
                keys@,
                r@[j] as int,
                p,
            ) by {
            assert(out@.contains(p as usize));
            let q = choose|q: int| 0 <= q < out@.len() && out@[q] == p as usize;
            if q < m {
                assert(r@[q] == out@[q]);
                assert(r@.contains(p as usize));
            }
            assert(r@[j] == out@[j]);
        }
    }
    r
}

} // verus!
