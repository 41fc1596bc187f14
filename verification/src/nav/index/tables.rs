//! The field-keyed map (struct → field → file → locations) kept beside
//! the per-file Rust tables, and its maintenance when a file's tables
//! leave or arrive.

use vstd::prelude::*;
use crate::nav::index::{
    fields_view, impls_map_view, method_view, ImplKind, ImplMethod, MethodView, StructField, TablesView, TraitImpl,
};
use crate::nav::keymap::KeyMap;

verus! {

/// Struct name → field name → file → the field's (line, start byte)s.
pub type FieldMap = KeyMap<KeyMap<KeyMap<Vec<(usize, usize)>>>>;

/// The (line, start byte) of each field named `fd` in `fs`, in order.
pub open spec fn field_locs(fs: Seq<(Seq<char>, usize, usize)>, fd: Seq<char>) -> Seq<(usize, usize)>
    decreases fs.len(),
{
    if fs.len() == 0 {
        Seq::empty()
    } else {
        let rest = field_locs(fs.drop_last(), fd);
        if fs.last().0 == fd {
            rest.push((fs.last().1, fs.last().2))
        } else {
            rest
        }
    }
}

/// `Some(s)` for a non-empty `s`, else `None`.
pub open spec fn nonempty(s: Seq<(usize, usize)>) -> Option<Seq<(usize, usize)>> {
    if s.len() > 0 {
        Some(s)
    } else {
        None
    }
}

/// A struct's field map entry for field `fd` in `file`.
pub open spec fn by_field_entry(bf: KeyMap<KeyMap<Vec<(usize, usize)>>>, fd: Seq<char>, file: Seq<char>) -> Option<
    Seq<(usize, usize)>,
> {
    if bf@.contains_key(fd) && bf@[fd]@.contains_key(file) {
        Some(bf@[fd]@[file]@)
    } else {
        None
    }
}

/// The field map's entry for field `fd` of struct `st` in `file`.
pub open spec fn field_entry(rf: FieldMap, st: Seq<char>, fd: Seq<char>, file: Seq<char>) -> Option<Seq<(usize, usize)>> {
    if rf@.contains_key(st) {
        by_field_entry(rf@[st], fd, file)
    } else {
        None
    }
}

/// What the field map must record for field `fd` of struct `st` in
/// `file`, given the tables `tm` of every file.
pub open spec fn expected_field(tm: Map<Seq<char>, TablesView>, st: Seq<char>, fd: Seq<char>, file: Seq<char>) -> Option<
    Seq<(usize, usize)>,
> {
    if tm.contains_key(file) && tm[file].fields.contains_key(st) {
        nonempty(field_locs(tm[file].fields[st], fd))
    } else {
        None
    }
}

/// What one file's field map `fields` contributes for field `fd` of
/// struct `st`.
pub open spec fn contributed(fields: KeyMap<Vec<StructField>>, st: Seq<char>, fd: Seq<char>) -> Option<Seq<(usize, usize)>> {
    if fields@.contains_key(st) {
        nonempty(field_locs(fields_view(fields@[st]@), fd))
    } else {
        None
    }
}

/// The nested maps hold distinct keys.
pub open spec fn field_map_wf(rf: FieldMap) -> bool {
    &&& rf.wf()
    &&& forall|st: Seq<char>| #[trigger] rf@.contains_key(st) ==> by_field_wf(rf@[st])
}

/// A struct's field map holds distinct keys at both levels.
pub open spec fn by_field_wf(bf: KeyMap<KeyMap<Vec<(usize, usize)>>>) -> bool {
    &&& bf.wf()
    &&& forall|fd: Seq<char>| #[trigger] bf@.contains_key(fd) ==> bf@[fd].wf()
}

proof fn lemma_field_locs_step(v: Seq<StructField>, j: int, fd: Seq<char>)
    requires
        0 <= j < v.len(),
    ensures
        field_locs(fields_view(v.take(j + 1)), fd) == (if v[j].field@ == fd {
            field_locs(fields_view(v.take(j)), fd).push((v[j].line, v[j].start_byte))
        } else {
            field_locs(fields_view(v.take(j)), fd)
        }),
{
    let a = fields_view(v.take(j + 1));
    assert(a.drop_last() =~= fields_view(v.take(j)));
    assert(a.last() == (v[j].field@, v[j].line, v[j].start_byte));
}

proof fn lemma_field_locs_has(v: Seq<StructField>, fd: Seq<char>)
    requires
        field_locs(fields_view(v), fd).len() > 0,
    ensures
        exists|k: int| 0 <= k < v.len() && (#[trigger] v[k]).field@ == fd,
    decreases v.len(),
{
    let a = fields_view(v);
    if v.len() > 0 {
        let q = v.drop_last();
        assert(a.drop_last() =~= fields_view(q));
        if v.last().field@ == fd {
            assert(v[v.len() - 1].field@ == fd);
        } else {
            lemma_field_locs_has(q, fd);
            let k = choose|k: int| 0 <= k < q.len() && (#[trigger] q[k]).field@ == fd;
            assert(v[k] == q[k]);
        }
    }
}

/// Drop file `path` from every field map entry of the structs and fields
/// in `gone` (the file's tables that leave).
pub fn drop_file_fields(rf: &mut FieldMap, path: &str, gone: &KeyMap<Vec<StructField>>)
    requires
        field_map_wf(*old(rf)),
        gone.wf(),
        forall|st: Seq<char>, fd: Seq<char>|
            #[trigger] field_entry(*old(rf), st, fd, path@) is Some ==> contributed(*gone, st, fd) is Some,
    ensures
        field_map_wf(*final(rf)),
        forall|st: Seq<char>, fd: Seq<char>, file: Seq<char>|
            #[trigger] field_entry(*final(rf), st, fd, file) == (if file == path@ {
                None
            } else {
                field_entry(*old(rf), st, fd, file)
            }),
{
    proof {
        gone.lemma_entries();
    }
    let ghost rf0 = *rf;
    let ghost mut done: Set<(Seq<char>, Seq<char>)> = Set::empty();
    let n = gone.len();
    let mut i: usize = 0;
    while i < n
        invariant
            field_map_wf(*rf),
            gone.wf(),
            n == gone.entries_seq().len(),
            i <= n,
            forall|st: Seq<char>, fd: Seq<char>, file: Seq<char>|
                #[trigger] field_entry(*rf, st, fd, file) == (if file == path@ && done.contains((st, fd)) {
                    None
                } else {
                    field_entry(rf0, st, fd, file)
                }),
            forall|a: int, k: int|
                0 <= a < i && 0 <= k < gone.entries_seq()[a].1@.len() ==> done.contains(
                    (gone.entries_seq()[a].0@, #[trigger] gone.entries_seq()[a].1@[k].field@),
                ),
        decreases n - i,
    {
        let e = gone.entry_at(i);
        let st = &e.0;
        let fs = &e.1;
        let mut j: usize = 0;
        while j < fs.len()
            invariant
                field_map_wf(*rf),
                e == gone.entries_seq()[i as int],
                j <= fs@.len(),
                forall|st2: Seq<char>, fd: Seq<char>, file: Seq<char>|
                    #[trigger] field_entry(*rf, st2, fd, file) == (if file == path@ && done.contains((st2, fd)) {
                        None
                    } else {
                        field_entry(rf0, st2, fd, file)
                    }),
                forall|a: int, k: int|
                    0 <= a < i && 0 <= k < gone.entries_seq()[a].1@.len() ==> done.contains(
                        (gone.entries_seq()[a].0@, #[trigger] gone.entries_seq()[a].1@[k].field@),
                    ),
                forall|k: int| 0 <= k < j ==> done.contains((st@, #[trigger] fs@[k].field@)),
            decreases fs@.len() - j,
        {
            let fd = &fs[j].field;
            let ghost before = *rf;
            match rf.remove(st.as_str()) {
                Some(mut by_field) => {
                    let ghost bf0 = by_field;
                    match by_field.remove(fd.as_str()) {
                        Some(mut fm) => {
                            let ghost fm0 = fm@;
                            fm.remove(path);
                            let ghost fm1 = fm@;
                            if !fm.is_empty() {
                                by_field.insert(fd.clone(), fm);
                            }
                            proof {
                                assert forall|d: Seq<char>, file: Seq<char>| #[trigger] by_field_entry(by_field, d, file) == (if d == fd@
                                    && file == path@ {
                                    None
                                } else {
                                    by_field_entry(bf0, d, file)
                                }) by {
                                    if d == fd@ && file != path@ {
                                        assert(fm1.contains_key(file) == fm0.contains_key(file));
                                        if fm1.dom().len() == 0 {
                                            assert(!fm1.contains_key(file));
                                        }
                                    }
                                }
                            }
                        },
                        None => {
                            proof {
                                assert forall|d: Seq<char>, file: Seq<char>| #[trigger] by_field_entry(by_field, d, file) == (if d == fd@
                                    && file == path@ {
                                    None
                                } else {
                                    by_field_entry(bf0, d, file)
                                }) by {}
                            }
                        },
                    }
                    rf.insert(st.clone(), by_field);
                },
                None => {},
            }
            proof {
                let done0 = done;
                done = done.insert((st@, fd@));
                assert forall|st2: Seq<char>, d: Seq<char>, file: Seq<char>| #[trigger] field_entry(*rf, st2, d, file) == (if file
                    == path@ && done.contains((st2, d)) {
                    None
                } else {
                    field_entry(rf0, st2, d, file)
                }) by {
                    assert(field_entry(before, st2, d, file) == (if file == path@ && done0.contains((st2, d)) {
                        None
                    } else {
                        field_entry(rf0, st2, d, file)
                    }));
                }
            }
            j = j + 1;
        }
        let now_empty = match rf.get(st.as_str()) {
            Some(bf) => bf.is_empty(),
            None => false,
        };
        if now_empty {
            let ghost before = *rf;
            rf.remove(st.as_str());
            proof {
                assert forall|st2: Seq<char>, d: Seq<char>, file: Seq<char>| #[trigger] field_entry(*rf, st2, d, file) == field_entry(before, st2, d, file) by {
                    if st2 == st@ {
                        assert(!before@[st@]@.contains_key(d));
                    }
                }
            }
        }
        proof {
            assert forall|a: int, k: int|
                0 <= a < i + 1 && 0 <= k < gone.entries_seq()[a].1@.len() implies done.contains(
                    (gone.entries_seq()[a].0@, #[trigger] gone.entries_seq()[a].1@[k].field@),
                ) by {
                if a == i {
                    assert(fs@[k] == gone.entries_seq()[a].1@[k]);
                    assert(done.contains((st@, fs@[k].field@)));
                }
            }
        }
        i = i + 1;
    }
    proof {
        assert forall|st: Seq<char>, fd: Seq<char>, file: Seq<char>| #[trigger] field_entry(*rf, st, fd, file) == (if file == path@ {
            None
        } else {
            field_entry(rf0, st, fd, file)
        }) by {
            if file == path@ && field_entry(rf0, st, fd, file) is Some {
                assert(contributed(*gone, st, fd) is Some);
                let a = choose|a: int| 0 <= a < gone.entries_seq().len() && #[trigger] gone.entries_seq()[a].0@ == st;
                lemma_field_locs_has(gone@[st]@, fd);
                let k = choose|k: int| 0 <= k < gone@[st]@.len() && (#[trigger] gone@[st]@[k]).field@ == fd;
                assert(gone.entries_seq()[a].1@[k].field@ == fd);
            }
        }
    }
}

/// Record the fields of `fields` (a file's tables that arrive) under file
/// `path`.
pub fn add_file_fields(rf: &mut FieldMap, path: &str, fields: &KeyMap<Vec<StructField>>)
    requires
        field_map_wf(*old(rf)),
        fields.wf(),
        forall|st: Seq<char>, fd: Seq<char>| #[trigger] field_entry(*old(rf), st, fd, path@) is None,
    ensures
        field_map_wf(*final(rf)),
        forall|st: Seq<char>, fd: Seq<char>, file: Seq<char>|
            #[trigger] field_entry(*final(rf), st, fd, file) == (if file == path@ {
                contributed(*fields, st, fd)
            } else {
                field_entry(*old(rf), st, fd, file)
            }),
{
    proof {
        fields.lemma_entries();
    }
    let ghost rf0 = *rf;
    let ghost es = fields.entries_seq();
    let n = fields.len();
    let mut i: usize = 0;
    while i < n
        invariant
            field_map_wf(*rf),
            fields.wf(),
            es == fields.entries_seq(),
            n == es.len(),
            i <= n,
            crate::nav::keymap::keys_of(es).no_duplicates(),
            forall|k: int| #![trigger es[k]] 0 <= k < es.len() ==> fields@.contains_key(es[k].0@) && fields@[es[k].0@] == es[k].1,
            forall|st: Seq<char>, fd: Seq<char>, file: Seq<char>|
                #[trigger] field_entry(*rf, st, fd, file) == (if file == path@ {
                    if crate::nav::keymap::keys_of(es.take(i as int)).contains(st) {
                        contributed(*fields, st, fd)
                    } else {
                        None
                    }
                } else {
                    field_entry(rf0, st, fd, file)
                }),
        decreases n - i,
    {
        let e = fields.entry_at(i);
        let st = &e.0;
        let fs = &e.1;
        let ghost before = *rf;
        proof {
            assert(!crate::nav::keymap::keys_of(es.take(i as int)).contains(st@)) by {
                if crate::nav::keymap::keys_of(es.take(i as int)).contains(st@) {
                    let a = choose|a: int| 0 <= a < crate::nav::keymap::keys_of(es.take(i as int)).len() && crate::nav::keymap::keys_of(es.take(i as int))[a] == st@;
                    assert(crate::nav::keymap::keys_of(es)[a] == crate::nav::keymap::keys_of(es)[i as int]);
                }
            }
        }
        let mut by_field = match rf.remove(st.as_str()) {
            Some(b) => b,
            None => KeyMap::new(),
        };
        let ghost bf0 = by_field;
        proof {
            assert forall|fd: Seq<char>| #[trigger] by_field_entry(bf0, fd, path@) is None by {
                assert(field_entry(before, st@, fd, path@) is None);
            }
            assert(field_locs(fields_view(fs@.take(0)), Seq::<char>::empty()).len() == 0);
            assert forall|fd: Seq<char>| field_locs(fields_view(fs@.take(0)), fd) == Seq::<(usize, usize)>::empty() by {
                assert(fields_view(fs@.take(0)) =~= Seq::<(Seq<char>, usize, usize)>::empty());
            }
        }
        let mut j: usize = 0;
        while j < fs.len()
            invariant
                by_field_wf(by_field),
                j <= fs@.len(),
                forall|fd: Seq<char>, file: Seq<char>|
                    #[trigger] by_field_entry(by_field, fd, file) == (if file == path@ {
                        nonempty(field_locs(fields_view(fs@.take(j as int)), fd))
                    } else {
                        by_field_entry(bf0, fd, file)
                    }),
            decreases fs@.len() - j,
        {
            let f = &fs[j];
            let ghost b0 = by_field;
            let mut fm = match by_field.remove(f.field.as_str()) {
                Some(m) => m,
                None => KeyMap::new(),
            };
            let mut v = match fm.remove(path) {
                Some(v) => v,
                None => Vec::new(),
            };
            let ghost v0 = v@;
            proof {
                assert(by_field_entry(b0, f.field@, path@) == nonempty(field_locs(fields_view(fs@.take(j as int)), f.field@)));
                assert(v0 == field_locs(fields_view(fs@.take(j as int)), f.field@));
            }
            v.push((f.line, f.start_byte));
            fm.insert(path.to_owned(), v);
            by_field.insert(f.field.clone(), fm);
            proof {
                lemma_field_locs_step(fs@, j as int, f.field@);
                assert forall|fd: Seq<char>, file: Seq<char>| #[trigger] by_field_entry(by_field, fd, file) == (if file == path@ {
                    nonempty(field_locs(fields_view(fs@.take(j + 1)), fd))
                } else {
                    by_field_entry(bf0, fd, file)
                }) by {
                    lemma_field_locs_step(fs@, j as int, fd);
                    assert(by_field_entry(b0, fd, file) == (if file == path@ {
                        nonempty(field_locs(fields_view(fs@.take(j as int)), fd))
                    } else {
                        by_field_entry(bf0, fd, file)
                    }));
                }
            }
            j = j + 1;
        }
        rf.insert(st.clone(), by_field);
        proof {
            assert(fs@.take(fs@.len() as int) =~= fs@);
            assert(fields@[st@] == *fs);
            assert(crate::nav::keymap::keys_of(es.take(i + 1)) =~= crate::nav::keymap::keys_of(es.take(i as int)).push(st@));
            assert forall|st2: Seq<char>, fd: Seq<char>, file: Seq<char>| #[trigger] field_entry(*rf, st2, fd, file) == (if file == path@ {
                if crate::nav::keymap::keys_of(es.take(i + 1)).contains(st2) {
                    contributed(*fields, st2, fd)
                } else {
                    None
                }
            } else {
                field_entry(rf0, st2, fd, file)
            }) by {
                broadcast use vstd::seq_lib::lemma_seq_contains_after_push;

                assert(field_entry(before, st2, fd, file) == (if file == path@ {
                    if crate::nav::keymap::keys_of(es.take(i as int)).contains(st2) {
                        contributed(*fields, st2, fd)
                    } else {
                        None
                    }
                } else {
                    field_entry(rf0, st2, fd, file)
                }));
                if st2 == st@ {
                    assert(by_field_entry(by_field, fd, file) == (if file == path@ {
                        nonempty(field_locs(fields_view(fs@), fd))
                    } else {
                        by_field_entry(bf0, fd, file)
                    }));
                    if file != path@ && !before@.contains_key(st@) {
                        assert(!bf0@.contains_key(fd));
                    }
                }
            }
        }
        i = i + 1;
    }
    proof {
        assert(es.take(n as int) =~= es);
        crate::nav::keymap::lemma_map_of_dom(es);
    }
}

/// Trait name → file → that file's `impl Trait for Type` blocks.
pub type TraitMap = KeyMap<KeyMap<Vec<TraitImpl>>>;

/// An impl block record as plain values: its line and self type.
pub open spec fn ti_view(e: TraitImpl) -> (usize, Seq<char>) {
    (e.impl_line, e.self_type@)
}

/// A file's impl block records as plain values.
pub open spec fn impls_view(v: Seq<TraitImpl>) -> Seq<(usize, Seq<char>)> {
    v.map_values(|e: TraitImpl| ti_view(e))
}

/// Whether the trait map has an entry for trait `t` in `file`.
pub open spec fn trait_has(rt: TraitMap, t: Seq<char>, file: Seq<char>) -> bool {
    rt@.contains_key(t) && rt@[t]@.contains_key(file)
}

/// The trait map's impl blocks for trait `t` in `file`.
pub open spec fn trait_list(rt: TraitMap, t: Seq<char>, file: Seq<char>) -> Option<Seq<(usize, Seq<char>)>> {
    if trait_has(rt, t, file) {
        Some(impls_view(rt@[t]@[file]@))
    } else {
        None
    }
}

/// The impl blocks (line, self type) of trait `t` among `impls`.
pub open spec fn impl_pairs(impls: Map<Seq<char>, Seq<MethodView>>, t: Seq<char>) -> Set<(usize, Seq<char>)> {
    Set::new(
        |p: (usize, Seq<char>)|
            impls.contains_key(p.1) && exists|k: int|
                0 <= k < impls[p.1].len() && (#[trigger] impls[p.1][k]).impl_line == p.0 && impls[p.1][k].trait_name
                    == Some(t),
    )
}

/// The impl blocks of trait `t` recorded for `file` (empty without an
/// entry).
pub open spec fn trait_set(rt: TraitMap, t: Seq<char>, file: Seq<char>) -> Set<(usize, Seq<char>)> {
    match trait_list(rt, t, file) {
        Some(l) => l.to_set(),
        None => Set::empty(),
    }
}

/// What the trait map must record for trait `t` in `file`, given the
/// tables `tm` of every file.
pub open spec fn expected_traits(tm: Map<Seq<char>, TablesView>, t: Seq<char>, file: Seq<char>) -> Set<(usize, Seq<char>)> {
    if tm.contains_key(file) {
        impl_pairs(tm[file].impls, t)
    } else {
        Set::empty()
    }
}

/// The nested maps hold distinct keys and every recorded list is
/// non-empty.
pub open spec fn trait_map_wf(rt: TraitMap) -> bool {
    &&& rt.wf()
    &&& forall|t: Seq<char>| #[trigger] rt@.contains_key(t) ==> rt@[t].wf()
    &&& forall|t: Seq<char>, file: Seq<char>| #[trigger] trait_has(rt, t, file) ==> rt@[t]@[file]@.len() > 0
}

/// Whether the trait that `m` implements (if any) is in `done`.
pub open spec fn covered(m: ImplMethod, done: Set<Seq<char>>) -> bool {
    match m.kind {
        ImplKind::Trait(t) => done.contains(t@),
        ImplKind::Inherent => true,
    }
}

/// Drop file `path` from the trait map entries of every trait implemented
/// in `gone` (the file's impls that leave).
pub fn drop_file_traits(rt: &mut TraitMap, path: &str, gone: &KeyMap<Vec<ImplMethod>>)
    requires
        trait_map_wf(*old(rt)),
        gone.wf(),
        forall|t: Seq<char>|
            #[trigger] trait_has(*old(rt), t, path@) ==> exists|p: (usize, Seq<char>)| impl_pairs(impls_map_view(*gone), t).contains(p),
    ensures
        trait_map_wf(*final(rt)),
        forall|t: Seq<char>, file: Seq<char>|
            #[trigger] trait_list(*final(rt), t, file) == (if file == path@ {
                None
            } else {
                trait_list(*old(rt), t, file)
            }),
{
    proof {
        gone.lemma_entries();
    }
    let ghost rt0 = *rt;
    let ghost mut done: Set<Seq<char>> = Set::empty();
    let n = gone.len();
    let mut i: usize = 0;
    while i < n
        invariant
            trait_map_wf(*rt),
            gone.wf(),
            n == gone.entries_seq().len(),
            i <= n,
            forall|t: Seq<char>, file: Seq<char>|
                #[trigger] trait_list(*rt, t, file) == (if file == path@ && done.contains(t) {
                    None
                } else {
                    trait_list(rt0, t, file)
                }),
            forall|a: int, k: int|
                0 <= a < i && 0 <= k < gone.entries_seq()[a].1@.len() ==> covered(
                    #[trigger] gone.entries_seq()[a].1@[k],
                    done,
                ),
        decreases n - i,
    {
        let e = gone.entry_at(i);
        let ms = &e.1;
        let mut j: usize = 0;
        while j < ms.len()
            invariant
                trait_map_wf(*rt),
                e == gone.entries_seq()[i as int],
                j <= ms@.len(),
                forall|t: Seq<char>, file: Seq<char>|
                    #[trigger] trait_list(*rt, t, file) == (if file == path@ && done.contains(t) {
                        None
                    } else {
                        trait_list(rt0, t, file)
                    }),
                forall|a: int, k: int|
                    0 <= a < i && 0 <= k < gone.entries_seq()[a].1@.len() ==> covered(
                        #[trigger] gone.entries_seq()[a].1@[k],
                        done,
                    ),
                forall|k: int| 0 <= k < j ==> covered(#[trigger] ms@[k], done),
            decreases ms@.len() - j,
        {
            match &ms[j].kind {
                ImplKind::Trait(t) => {
                    let ghost before = *rt;
                    match rt.remove(t.as_str()) {
                        Some(mut by_file) => {
                            let ghost bf0 = by_file@;
                            by_file.remove(path);
                            let ghost bf1 = by_file@;
                            let emp = by_file.is_empty();
                            if !emp {
                                rt.insert(t.clone(), by_file);
                            }
                            proof {
                                assert(bf0 == before@[t@]@);
                                assert forall|t2: Seq<char>| #[trigger] rt@.contains_key(t2) implies rt@[t2].wf() by {
                                    if t2 != t@ {
                                        assert(before@.contains_key(t2));
                                    }
                                }
                                assert forall|t2: Seq<char>, file: Seq<char>| #[trigger] trait_has(*rt, t2, file) implies rt@[t2]@[file]@.len() > 0 by {
                                    if t2 == t@ {
                                        assert(bf1[file] == bf0[file]);
                                    }
                                    assert(trait_has(before, t2, file));
                                }
                                assert forall|t2: Seq<char>, file: Seq<char>| #[trigger] trait_list(*rt, t2, file) == (if file == path@
                                    && t2 == t@ {
                                    None
                                } else {
                                    trait_list(before, t2, file)
                                }) by {
                                    if t2 == t@ && file != path@ {
                                        assert(bf1.contains_key(file) == bf0.contains_key(file));
                                        if emp {
                                            assert(!bf1.contains_key(file));
                                        } else {
                                            assert(bf1[file] == bf0[file]);
                                        }
                                    }
                                }
                                assert(trait_map_wf(*rt));
                            }
                        },
                        None => {
                            proof {
                                assert(rt@ =~= before@);
                                assert forall|t2: Seq<char>| #[trigger] rt@.contains_key(t2) implies rt@[t2].wf() by {
                                    assert(before@.contains_key(t2));
                                }
                                assert forall|t2: Seq<char>, file: Seq<char>| #[trigger] trait_has(*rt, t2, file) implies rt@[t2]@[file]@.len() > 0 by {
                                    assert(trait_has(before, t2, file));
                                }
                                assert forall|t2: Seq<char>, file: Seq<char>| #[trigger] trait_list(*rt, t2, file) == (if file == path@
                                    && t2 == t@ {
                                    None
                                } else {
                                    trait_list(before, t2, file)
                                }) by {}
                            }
                        },
                    }
                    proof {
                        let done0 = done;
                        done = done.insert(t@);
                        assert forall|t2: Seq<char>, file: Seq<char>| #[trigger] trait_list(*rt, t2, file) == (if file == path@
                            && done.contains(t2) {
                            None
                        } else {
                            trait_list(rt0, t2, file)
                        }) by {
                            assert(trait_list(before, t2, file) == (if file == path@ && done0.contains(t2) {
                                None
                            } else {
                                trait_list(rt0, t2, file)
                            }));
                            assert(trait_list(*rt, t2, file) == (if file == path@ && t2 == t@ {
                                None
                            } else {
                                trait_list(before, t2, file)
                            }));
                        }
                    }
                },
                ImplKind::Inherent => {},
            }
            j = j + 1;
        }
        i = i + 1;
    }
    proof {
        assert forall|t: Seq<char>, file: Seq<char>| #[trigger] trait_list(*rt, t, file) == (if file == path@ {
            None
        } else {
            trait_list(rt0, t, file)
        }) by {
            if file == path@ && trait_has(rt0, t, file) {
                let p = choose|p: (usize, Seq<char>)| impl_pairs(impls_map_view(*gone), t).contains(p);
                assert(impls_map_view(*gone).contains_key(p.1));
                let k = choose|k: int|
                    0 <= k < impls_map_view(*gone)[p.1].len() && (#[trigger] impls_map_view(*gone)[p.1][k]).impl_line == p.0
                        && impls_map_view(*gone)[p.1][k].trait_name == Some(t);
                let a = choose|a: int| 0 <= a < gone.entries_seq().len() && #[trigger] gone.entries_seq()[a].0@ == p.1;
                assert(method_view(gone.entries_seq()[a].1@[k]).trait_name == Some(t));
                assert(covered(gone.entries_seq()[a].1@[k], done));
            }
        }
    }
}

/// Whether `v` already records the impl block `e`.
fn has_impl(v: &Vec<TraitImpl>, e: &TraitImpl) -> (b: bool)
    ensures
        b == impls_view(v@).contains(ti_view(*e)),
{
    let ghost w = impls_view(v@);
    let mut i: usize = 0;
    while i < v.len()
        invariant
            i <= v@.len(),
            w == impls_view(v@),
            forall|k: int| 0 <= k < i ==> w[k] != ti_view(*e),
        decreases v@.len() - i,
    {
        if v[i].same_as(e) {
            proof {
                assert(w[i as int] == ti_view(*e));
            }
            return true;
        }
        i = i + 1;
    }
    false
}

/// The impl blocks of trait `t` among the first `i` entries of `es` and
/// the first `j` methods of entry `i`.
pub open spec fn pairs_upto(es: Seq<(String, Vec<ImplMethod>)>, i: int, j: int, t: Seq<char>) -> Set<(usize, Seq<char>)> {
    Set::new(
        |p: (usize, Seq<char>)|
            exists|a: int, k: int|
                #![trigger es[a].1@[k]]
                0 <= a <= i && a < es.len() && 0 <= k < es[a].1@.len() && (a < i || k < j) && es[a].0@ == p.1
                    && method_view(es[a].1@[k]).impl_line == p.0 && method_view(es[a].1@[k]).trait_name == Some(t),
    )
}

/// Record the trait impl blocks of `impls` (a file's impls that arrive)
/// under file `path`, each block once.
pub fn add_file_traits(rt: &mut TraitMap, path: &str, impls: &KeyMap<Vec<ImplMethod>>)
    requires
        trait_map_wf(*old(rt)),
        impls.wf(),
        forall|t: Seq<char>| !(#[trigger] trait_has(*old(rt), t, path@)),
    ensures
        trait_map_wf(*final(rt)),
        forall|t: Seq<char>, file: Seq<char>|
            file != path@ ==> #[trigger] trait_list(*final(rt), t, file) == trait_list(*old(rt), t, file),
        forall|t: Seq<char>| #[trigger] trait_set(*final(rt), t, path@) == impl_pairs(impls_map_view(*impls), t),
{
    proof {
        impls.lemma_entries();
    }
    let ghost rt0 = *rt;
    let ghost es = impls.entries_seq();
    let n = impls.len();
    let mut i: usize = 0;
    proof {
        assert forall|t: Seq<char>| #[trigger] trait_set(*rt, t, path@) == pairs_upto(es, 0, 0, t) by {
            assert(pairs_upto(es, 0, 0, t) =~= Set::<(usize, Seq<char>)>::empty());
        }
    }
    while i < n
        invariant
            trait_map_wf(*rt),
            impls.wf(),
            es == impls.entries_seq(),
            n == es.len(),
            i <= n,
            forall|t: Seq<char>, file: Seq<char>|
                file != path@ ==> #[trigger] trait_list(*rt, t, file) == trait_list(rt0, t, file),
            forall|t: Seq<char>| #[trigger] trait_set(*rt, t, path@) == pairs_upto(es, i as int, 0, t),
        decreases n - i,
    {
        let e = impls.entry_at(i);
        let st = &e.0;
        let ms = &e.1;
        let mut j: usize = 0;
        while j < ms.len()
            invariant
                trait_map_wf(*rt),
                es == impls.entries_seq(),
                n == es.len(),
                i < n,
                e == es[i as int],
                ms@ == e.1@,
                st@ == e.0@,
                j <= ms@.len(),
                forall|t: Seq<char>, file: Seq<char>|
                    file != path@ ==> #[trigger] trait_list(*rt, t, file) == trait_list(rt0, t, file),
                forall|t: Seq<char>| #[trigger] trait_set(*rt, t, path@) == pairs_upto(es, i as int, j as int, t),
            decreases ms@.len() - j,
        {
            let m = &ms[j];
            let ghost before = *rt;
            proof {
                assert(*e == es[i as int]);
                assert(e.1 == es[i as int].1);
                assert(ms@ == e.1@);
                assert(ms@ == es[i as int].1@);
                assert(*m == es[i as int].1@[j as int]);
            }
            match &m.kind {
                ImplKind::Trait(t) => {
                    let mut by_file = match rt.remove(t.as_str()) {
                        Some(b) => b,
                        None => KeyMap::new(),
                    };
                    let mut v = match by_file.remove(path) {
                        Some(v) => v,
                        None => Vec::new(),
                    };
                    let ghost v0 = v@;
                    let entry = TraitImpl { impl_line: m.impl_line, self_type: st.clone() };
                    if !has_impl(&v, &entry) {
                        v.push(entry);
                    }
                    let ghost v1 = v@;
                    by_file.insert(path.to_owned(), v);
                    rt.insert(t.clone(), by_file);
                    proof {
                        let pv = ti_view(entry);
                        assert(impls_view(v0).to_set() == trait_set(before, t@, path@)) by {
                            if !trait_has(before, t@, path@) {
                                assert(impls_view(v0) =~= Seq::<(usize, Seq<char>)>::empty());
                                assert(impls_view(v0).to_set() =~= Set::<(usize, Seq<char>)>::empty());
                            }
                        }
                        assert(impls_view(v1).to_set() =~= impls_view(v0).to_set().insert(pv)) by {
                            if v1.len() > v0.len() {
                                assert(impls_view(v1) =~= impls_view(v0).push(pv));
                                broadcast use vstd::seq_lib::lemma_seq_contains_after_push;

                            }
                        }
                        assert forall|t2: Seq<char>| #[trigger] trait_set(*rt, t2, path@) == pairs_upto(es, i as int, j + 1, t2) by {
                            assert(trait_set(before, t2, path@) == pairs_upto(es, i as int, j as int, t2));
                            assert forall|p: (usize, Seq<char>)| pairs_upto(es, i as int, j + 1, t2).contains(p) == (pairs_upto(es, i as int, j as int, t2).contains(p) || (t2 == t@ && p == pv)) by {
                                if t2 == t@ && p == pv {
                                    assert(es[i as int].1@[j as int] == *m);
                                }
                                if pairs_upto(es, i as int, j + 1, t2).contains(p) && !pairs_upto(es, i as int, j as int, t2).contains(p) {
                                    let (a, k) = choose|a: int, k: int|
                                        #![trigger es[a].1@[k]]
                                        0 <= a <= i && a < es.len() && 0 <= k < es[a].1@.len() && (a < i || k < j + 1) && es[a].0@ == p.1
                                            && method_view(es[a].1@[k]).impl_line == p.0 && method_view(es[a].1@[k]).trait_name == Some(t2);
                                    assert(a == i && k == j);
                                }
                            }
                            if t2 == t@ {
                                assert(trait_set(*rt, t2, path@) =~= pairs_upto(es, i as int, j + 1, t2));
                            } else {
                                assert(trait_set(*rt, t2, path@) =~= pairs_upto(es, i as int, j + 1, t2));
                            }
                        }
                        assert forall|t2: Seq<char>, file: Seq<char>| file != path@ implies #[trigger] trait_list(*rt, t2, file) == trait_list(rt0, t2, file) by {
                            assert(trait_list(before, t2, file) == trait_list(rt0, t2, file));
                        }
                        assert forall|t2: Seq<char>| #[trigger] rt@.contains_key(t2) implies rt@[t2].wf() by {
                            if t2 != t@ {
                                assert(before@.contains_key(t2));
                            }
                        }
                        assert forall|t2: Seq<char>, file: Seq<char>| #[trigger] trait_has(*rt, t2, file) implies rt@[t2]@[file]@.len() > 0 by {
                            if !(t2 == t@ && file == path@) {
                                assert(trait_has(before, t2, file));
                            }
                        }
                    }
                },
                ImplKind::Inherent => {
                    proof {
                        assert forall|t2: Seq<char>| #[trigger] trait_set(*rt, t2, path@) == pairs_upto(es, i as int, j + 1, t2) by {
                            assert forall|p: (usize, Seq<char>)| pairs_upto(es, i as int, j + 1, t2).contains(p) == pairs_upto(es, i as int, j as int, t2).contains(p) by {
                                if pairs_upto(es, i as int, j + 1, t2).contains(p) && !pairs_upto(es, i as int, j as int, t2).contains(p) {
                                    let (a, k) = choose|a: int, k: int|
                                        #![trigger es[a].1@[k]]
                                        0 <= a <= i && a < es.len() && 0 <= k < es[a].1@.len() && (a < i || k < j + 1) && es[a].0@ == p.1
                                            && method_view(es[a].1@[k]).impl_line == p.0 && method_view(es[a].1@[k]).trait_name == Some(t2);
                                    assert(a == i && k == j);
                                    assert(es[a].1@[k] == *m);
                                }
                            }
                            assert(pairs_upto(es, i as int, j + 1, t2) =~= pairs_upto(es, i as int, j as int, t2));
                        }
                    }
                },
            }
            j = j + 1;
        }
        proof {
            assert forall|t2: Seq<char>| #[trigger] trait_set(*rt, t2, path@) == pairs_upto(es, i + 1, 0, t2) by {
                assert forall|p: (usize, Seq<char>)| pairs_upto(es, i + 1, 0, t2).contains(p) == pairs_upto(es, i as int, ms@.len() as int, t2).contains(p) by {
                    if pairs_upto(es, i + 1, 0, t2).contains(p) {
                        let (a, k) = choose|a: int, k: int|
                            #![trigger es[a].1@[k]]
                            0 <= a <= i + 1 && a < es.len() && 0 <= k < es[a].1@.len() && (a < i + 1 || k < 0) && es[a].0@ == p.1
                                && method_view(es[a].1@[k]).impl_line == p.0 && method_view(es[a].1@[k]).trait_name == Some(t2);
                        assert(a <= i);
                    }
                    if pairs_upto(es, i as int, ms@.len() as int, t2).contains(p) {
                        let (a, k) = choose|a: int, k: int|
                            #![trigger es[a].1@[k]]
                            0 <= a <= i && a < es.len() && 0 <= k < es[a].1@.len() && (a < i || k < ms@.len()) && es[a].0@ == p.1
                                && method_view(es[a].1@[k]).impl_line == p.0 && method_view(es[a].1@[k]).trait_name == Some(t2);
                        assert(es[a].1@[k] == es[a].1@[k]);
                    }
                }
                assert(pairs_upto(es, i + 1, 0, t2) =~= pairs_upto(es, i as int, ms@.len() as int, t2));
            }
        }
        i = i + 1;
    }
    proof {
        assert forall|t: Seq<char>| #[trigger] trait_set(*rt, t, path@) == impl_pairs(impls_map_view(*impls), t) by {
            assert forall|p: (usize, Seq<char>)| pairs_upto(es, n as int, 0, t).contains(p) == impl_pairs(impls_map_view(*impls), t).contains(p) by {
                if pairs_upto(es, n as int, 0, t).contains(p) {
                    let (a, k) = choose|a: int, k: int|
                        #![trigger es[a].1@[k]]
                        0 <= a <= n && a < es.len() && 0 <= k < es[a].1@.len() && (a < n || k < 0) && es[a].0@ == p.1
                            && method_view(es[a].1@[k]).impl_line == p.0 && method_view(es[a].1@[k]).trait_name == Some(t);
                    assert(impls@.contains_key(es[a].0@) && impls@[es[a].0@] == es[a].1);
                    assert(impls_map_view(*impls)[p.1][k] == method_view(es[a].1@[k]));
                }
                if impl_pairs(impls_map_view(*impls), t).contains(p) {
                    assert(impls@.contains_key(p.1));
                    let a = choose|a: int| 0 <= a < es.len() && #[trigger] es[a].0@ == p.1;
                    let k = choose|k: int|
                        0 <= k < impls_map_view(*impls)[p.1].len() && (#[trigger] impls_map_view(*impls)[p.1][k]).impl_line == p.0
                            && impls_map_view(*impls)[p.1][k].trait_name == Some(t);
                    assert(impls@[es[a].0@] == es[a].1);
                    assert(method_view(es[a].1@[k]) == impls_map_view(*impls)[p.1][k]);
                }
            }
            assert(pairs_upto(es, n as int, 0, t) =~= impl_pairs(impls_map_view(*impls), t));
        }
    }
}

} // verus!
