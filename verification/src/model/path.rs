//! Unix path strings as `std::path` reads them: components (a leading
//! root or `.`, then the non-empty, non-`.` segments), the file name,
//! component-wise equality and prefixes, and joining.

use crate::text::chars_of;
use vstd::prelude::*;

verus! {

broadcast use vstd::string::group_string_axioms;

/// Whether a `/`-separated segment is a component: non-empty and not `.`.
pub open spec fn keep_seg(g: Seq<char>) -> bool {
    g.len() > 0 && g != seq!['.']
}

/// The components completed so far and the segment being read, after the
/// chars `s`.
pub open spec fn seg_state(s: Seq<char>) -> (Seq<Seq<char>>, Seq<char>)
    decreases s.len(),
{
    if s.len() == 0 {
        (seq![], seq![])
    } else {
        let (done, cur) = seg_state(s.drop_last());
        if s.last() == '/' {
            (
                if keep_seg(cur) {
                    done.push(cur)
                } else {
                    done
                },
                seq![],
            )
        } else {
            (done, cur.push(s.last()))
        }
    }
}

/// The normal (and `..`) components of `s`, in order.
pub open spec fn normal_segments(s: Seq<char>) -> Seq<Seq<char>> {
    let (done, cur) = seg_state(s);
    if keep_seg(cur) {
        done.push(cur)
    } else {
        done
    }
}

/// The leading component: `/` for an absolute path, `.` for a path that
/// starts with a `.` segment, none otherwise.
pub open spec fn root_part(s: Seq<char>) -> Seq<Seq<char>> {
    if s.len() > 0 && s[0] == '/' {
        seq![seq!['/']]
    } else if s.len() > 0 && s[0] == '.' && (s.len() == 1 || s[1] == '/') {
        seq![seq!['.']]
    } else {
        seq![]
    }
}

/// The components of path `s` (`Path::components`).
pub open spec fn components(s: Seq<char>) -> Seq<Seq<char>> {
    root_part(s) + normal_segments(s)
}

/// The final component of `s` when it is a normal one (`Path::file_name`).
pub open spec fn spec_file_name(s: Seq<char>) -> Option<Seq<char>> {
    let g = normal_segments(s);
    if g.len() == 0 || g.last() == seq!['.', '.'] {
        None
    } else {
        Some(g.last())
    }
}

/// `base` joined with the relative or absolute `name` (`Path::join`).
pub open spec fn spec_join(base: Seq<char>, name: Seq<char>) -> Seq<char> {
    if name.len() > 0 && name[0] == '/' {
        name
    } else if base.len() == 0 || base.last() == '/' {
        base + name
    } else {
        base + seq!['/'] + name
    }
}

/// The components of `path` after those of `base`, when `base`'s
/// components are a prefix of `path`'s (`Path::strip_prefix`).
pub open spec fn spec_strip_prefix(path: Seq<char>, base: Seq<char>) -> Option<Seq<Seq<char>>> {
    let p = components(path);
    let b = components(base);
    if b.len() <= p.len() && p.take(b.len() as int) == b {
        Some(p.skip(b.len() as int))
    } else {
        None
    }
}

/// The char sequences of a list of char vectors.
pub open spec fn views(v: Seq<Vec<char>>) -> Seq<Seq<char>> {
    v.map_values(|g: Vec<char>| g@)
}

/// A copy of a char vector.
fn copy_chars(v: &Vec<char>) -> (r: Vec<char>)
    ensures
        r@ == v@,
{
    let mut r: Vec<char> = Vec::new();
    let mut i: usize = 0;
    while i < v.len()
        invariant
            i <= v@.len(),
            r@ == v@.take(i as int),
        decreases v@.len() - i,
    {
        r.push(v[i]);
        i = i + 1;
        assert(r@ =~= v@.take(i as int));
    }
    assert(v@.take(v@.len() as int) =~= v@);
    r
}

/// The normal components of `s`.
fn normal_components(s: &str) -> (r: Vec<Vec<char>>)
    ensures
        views(r@) == normal_segments(s@),
{
    let cs = chars_of(s);
    let n = cs.len();
    let mut done: Vec<Vec<char>> = Vec::new();
    let mut cur: Vec<char> = Vec::new();
    let mut k: usize = 0;
    while k < n
        invariant
            n == cs@.len(),
            cs@ == s@,
            k <= n,
            (views(done@), cur@) == seg_state(cs@.take(k as int)),
        decreases n - k,
    {
        let c = cs[k];
        proof {
            assert(cs@.take(k + 1).drop_last() =~= cs@.take(k as int));
        }
        if c == '/' {
            let keep = cur.len() > 0 && !(cur.len() == 1 && cur[0] == '.');
            proof {
                if cur@.len() == 1 && cur@[0] == '.' {
                    assert(cur@ =~= seq!['.']);
                }
            }
            if keep {
                let ghost before = views(done@);
                let ghost cv = cur@;
                done.push(cur);
                assert(views(done@) =~= before.push(cv));
            }
            cur = Vec::new();
        } else {
            cur.push(c);
        }
        k = k + 1;
    }
    assert(cs@.take(n as int) =~= cs@);
    let keep = cur.len() > 0 && !(cur.len() == 1 && cur[0] == '.');
    proof {
        if cur@.len() == 1 && cur@[0] == '.' {
            assert(cur@ =~= seq!['.']);
        }
    }
    if keep {
        let ghost before = views(done@);
        let ghost cv = cur@;
        done.push(cur);
        assert(views(done@) =~= before.push(cv));
    }
    done
}

/// The components of `s`.
pub fn path_components(s: &str) -> (r: Vec<Vec<char>>)
    ensures
        views(r@) == components(s@),
{
    let cs = chars_of(s);
    let n = cs.len();
    let segs = normal_components(s);
    let mut r: Vec<Vec<char>> = Vec::new();
    if n > 0 && cs[0] == '/' {
        let v = vec!['/'];
        assert(v@ =~= seq!['/']);
        r.push(v);
    } else if n > 0 && cs[0] == '.' && (n == 1 || cs[1] == '/') {
        let v = vec!['.'];
        assert(v@ =~= seq!['.']);
        r.push(v);
    }
    let ghost rp = views(r@);
    assert(rp =~= root_part(s@));
    let ghost ds = views(segs@);
    let mut i: usize = 0;
    while i < segs.len()
        invariant
            i <= segs@.len(),
            ds == views(segs@),
            views(r@) == rp + ds.take(i as int),
        decreases segs@.len() - i,
    {
        let g = copy_chars(&segs[i]);
        let ghost before = views(r@);
        r.push(g);
        assert(views(r@) =~= before.push(ds[i as int]));
        assert(ds.take(i + 1) =~= ds.take(i as int).push(ds[i as int]));
        i = i + 1;
    }
    assert(ds.take(segs@.len() as int) =~= ds);
    r
}

/// The file name of path `s`: its last component when that is a normal
/// one.
pub fn file_name(s: &str) -> (r: Option<String>)
    ensures
        match r {
            Some(n) => spec_file_name(s@) == Some(n@),
            None => spec_file_name(s@) is None,
        },
{
    let g = normal_components(s);
    let n = g.len();
    if n == 0 {
        return None;
    }
    let last = &g[n - 1];
    if last.len() == 2 && last[0] == '.' && last[1] == '.' {
        assert(views(g@)[n - 1] =~= seq!['.', '.']);
        return None;
    }
    assert(views(g@)[n - 1] != seq!['.', '.']) by {
        if views(g@)[n - 1] == seq!['.', '.'] {
            assert(last@ =~= seq!['.', '.']);
        }
    }
    Some(crate::text::string_of(last.as_slice()))
}

/// Whether two char vectors hold the same chars.
fn chars_eq(a: &[char], b: &[char]) -> (r: bool)
    ensures
        r == (a@ == b@),
{
    if a.len() != b.len() {
        return false;
    }
    let mut i: usize = 0;
    while i < a.len()
        invariant
            a@.len() == b@.len(),
            i <= a@.len(),
            forall|j: int| 0 <= j < i ==> a@[j] == b@[j],
        decreases a@.len() - i,
    {
        if a[i] != b[i] {
            return false;
        }
        i = i + 1;
    }
    assert(a@ =~= b@);
    true
}

/// Whether the first `n` components of `a` and `b` agree.
fn prefix_eq(a: &Vec<Vec<char>>, b: &Vec<Vec<char>>, n: usize) -> (r: bool)
    requires
        n <= a@.len(),
        n <= b@.len(),
    ensures
        r == (views(a@).take(n as int) == views(b@).take(n as int)),
{
    let mut i: usize = 0;
    while i < n
        invariant
            n <= a@.len(),
            n <= b@.len(),
            i <= n,
            forall|j: int| 0 <= j < i ==> views(a@)[j] == views(b@)[j],
        decreases n - i,
    {
        if !chars_eq(a[i].as_slice(), b[i].as_slice()) {
            assert(views(a@).take(n as int)[i as int] != views(b@).take(n as int)[i as int]);
            return false;
        }
        i = i + 1;
    }
    assert(views(a@).take(n as int) =~= views(b@).take(n as int));
    true
}

/// Whether two paths are equal component-wise (`Path`'s `==`).
pub fn same_path(a: &str, b: &str) -> (r: bool)
    ensures
        r == (components(a@) == components(b@)),
{
    let ca = path_components(a);
    let cb = path_components(b);
    if ca.len() != cb.len() {
        return false;
    }
    let r = prefix_eq(&ca, &cb, ca.len());
    assert(views(ca@).take(ca@.len() as int) =~= views(ca@));
    assert(views(cb@).take(cb@.len() as int) =~= views(cb@));
    r
}

/// The components of `path` after those of `base`, when `base` is a
/// component-wise prefix of `path`.
pub fn strip_prefix(path: &str, base: &str) -> (r: Option<Vec<Vec<char>>>)
    ensures
        match r {
            Some(v) => spec_strip_prefix(path@, base@) == Some(views(v@)),
            None => spec_strip_prefix(path@, base@) is None,
        },
{
    let p = path_components(path);
    let b = path_components(base);
    if b.len() > p.len() {
        return None;
    }
    if !prefix_eq(&p, &b, b.len()) {
        assert(views(b@).take(b@.len() as int) =~= views(b@));
        return None;
    }
    assert(views(b@).take(b@.len() as int) =~= views(b@));
    let mut rest: Vec<Vec<char>> = Vec::new();
    let mut i: usize = b.len();
    while i < p.len()
        invariant
            b@.len() <= i <= p@.len(),
            views(rest@) == views(p@).subrange(b@.len() as int, i as int),
        decreases p@.len() - i,
    {
        let g = copy_chars(&p[i]);
        let ghost before = views(rest@);
        rest.push(g);
        assert(views(rest@) =~= before.push(views(p@)[i as int]));
        assert(views(rest@) =~= views(p@).subrange(b@.len() as int, i + 1));
        i = i + 1;
    }
    assert(views(p@).subrange(b@.len() as int, p@.len() as int) =~= views(p@).skip(
        b@.len() as int,
    ));
    Some(rest)
}

/// `base` joined with `name`: `name` itself when it is absolute, else
/// `name` appended after a `/` separator when `base` needs one.
pub fn join(base: &str, name: &str) -> (r: String)
    ensures
        r@ == spec_join(base@, name@),
{
    let b = chars_of(base);
    let n = chars_of(name);
    if n.len() > 0 && n[0] == '/' {
        return name.to_owned();
    }
    let mut r = base.to_owned();
    if b.len() > 0 && b[b.len() - 1] != '/' {
        r.append("/");
        proof {
            reveal_strlit("/");
        }
    }
    r.append(name);
    proof {
        reveal_strlit("/");
        assert(r@ =~= spec_join(base@, name@));
    }
    r
}

/// Components written back as a relative path: joined by `/`.
pub open spec fn joined(cs: Seq<Seq<char>>) -> Seq<char>
    decreases cs.len(),
{
    if cs.len() == 0 {
        Seq::empty()
    } else if cs.len() == 1 {
        cs[0]
    } else {
        joined(cs.drop_last()) + seq!['/'] + cs.last()
    }
}

/// The relative path of a list of components, joined by `/`.
pub fn join_components(cs: &[Vec<char>]) -> (r: String)
    ensures
        r@ == joined(views(cs@)),
{
    let mut out: Vec<char> = Vec::new();
    let mut i: usize = 0;
    while i < cs.len()
        invariant
            i <= cs@.len(),
            out@ == joined(views(cs@.take(i as int))),
        decreases cs@.len() - i,
    {
        let ghost before = out@;
        if i > 0 {
            out.push('/');
        }
        let seg = &cs[i];
        let mut j: usize = 0;
        let ghost mid = out@;
        while j < seg.len()
            invariant
                j <= seg@.len(),
                out@ == mid + seg@.take(j as int),
            decreases seg@.len() - j,
        {
            out.push(seg[j]);
            j = j + 1;
            assert(out@ =~= mid + seg@.take(j as int));
        }
        proof {
            assert(seg@.take(seg@.len() as int) =~= seg@);
            let t = views(cs@.take(i + 1));
            assert(t.drop_last() =~= views(cs@.take(i as int)));
            assert(t.last() == seg@);
            if i == 0 {
                assert(t.len() == 1);
                assert(out@ =~= t[0]);
            } else {
                assert(mid =~= before + seq!['/']);
                assert(out@ =~= joined(t.drop_last()) + seq!['/'] + t.last());
            }
        }
        i = i + 1;
    }
    assert(cs@.take(cs@.len() as int) =~= cs@);
    crate::text::string_of(out.as_slice())
}

/// The parent of path `p` per `std::path::Path::parent`.
pub uninterp spec fn path_parent(p: Seq<char>) -> Option<Seq<char>>;

/// `std::path::Path::parent`: the path without its final component, or
/// `None` for a root or the empty path. The contract names the result
/// `path_parent`; a parent is shorter than its path.
#[verifier::external_body]
pub(crate) fn parent_of(p: &str) -> (r: Option<String>)
    ensures
        match r {
            Some(q) => path_parent(p@) == Some(q@) && q@.len() < p@.len(),
            None => path_parent(p@) is None,
        },
{
    match std::path::Path::new(p).parent() {
        Some(q) => Some(q.to_string_lossy().into_owned()),
        None => None,
    }
}

/// Whether the walk up from a path ends at `d`: `d` is the same path as
/// `stop` (component-wise).
pub open spec fn stops_at(d: Seq<char>, stop: Option<Seq<char>>) -> bool {
    match stop {
        Some(s) => components(d) == components(s),
        None => false,
    }
}

/// Whether `c` is the chain of ancestors of `p`: `p`, then each parent in
/// turn, ending at the first path the same as `stop` or at the last one,
/// which has no parent.
pub open spec fn ancestor_chain(p: Seq<char>, stop: Option<Seq<char>>, c: Seq<Seq<char>>) -> bool {
    &&& c.len() > 0
    &&& c[0] == p
    &&& forall|i: int|
        0 <= i < c.len() - 1 ==> !stops_at(#[trigger] c[i], stop) && path_parent(c[i]) == Some(c[i + 1])
    &&& (stops_at(c.last(), stop) || path_parent(c.last()) is None)
}

/// The strings' views.
pub open spec fn strings_of(v: Seq<String>) -> Seq<Seq<char>> {
    v.map_values(|s: String| s@)
}

/// `path` and its ancestors, nearest first, up to `stop` (the same path
/// component-wise, included) or up to the last one when no ancestor is
/// `stop`.
pub fn ancestors_up_to(path: &str, stop: Option<&str>) -> (r: Vec<String>)
    ensures
        ancestor_chain(
            path@,
            match stop {
                Some(s) => Some(s@),
                None => None,
            },
            strings_of(r@),
        ),
{
    let ghost st = match stop {
        Some(s) => Some(s@),
        None => None,
    };
    let mut out: Vec<String> = Vec::new();
    let mut cur: String = path.to_owned();
    loop
        invariant
            strings_of(out@).push(cur@)[0] == path@,
            forall|i: int|
                0 <= i < out@.len() ==> !stops_at(#[trigger] strings_of(out@)[i], st) && path_parent(
                    strings_of(out@)[i],
                ) == Some(strings_of(out@).push(cur@)[i + 1]),
            st == match stop {
                Some(s) => Some(s@),
                None => None,
            },
        decreases cur@.len(),
    {
        let ghost before = out@;
        let at_stop = match stop {
            Some(s) => same_path(cur.as_str(), s),
            None => false,
        };
        let up = if at_stop {
            None
        } else {
            parent_of(cur.as_str())
        };
        out.push(cur.clone());
        proof {
            assert(strings_of(out@) =~= strings_of(before).push(cur@));
        }
        match up {
            Some(q) => {
                proof {
                    assert forall|i: int| 0 <= i < out@.len() implies !stops_at(#[trigger] strings_of(out@)[i], st)
                        && path_parent(strings_of(out@)[i]) == Some(strings_of(out@).push(q@)[i + 1]) by {
                        if i < before.len() {
                            assert(strings_of(out@)[i] == strings_of(before)[i]);
                            assert(strings_of(out@).push(q@)[i + 1] == strings_of(before).push(cur@)[i + 1]);
                        }
                    }
                    assert(strings_of(out@).push(q@)[0] == strings_of(before).push(cur@)[0]);
                }
                cur = q;
            },
            None => {
                return out;
            },
        }
    }
}

} // verus!
