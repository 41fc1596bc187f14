//! The symbol index: per-file outlines with a cross-file name map, the
//! per-file Rust tables (struct fields, impl methods, local bindings) with
//! their field- and trait-keyed maps, the deterministic query results, and
//! the innermost enclosing definition of a line.

pub mod builder;
pub mod order;
pub mod progress;
pub mod symbol_index;
pub mod tables;

pub use builder::{build_index, enclosing_symbol, refresh_in_place, ChangedFile};
pub use symbol_index::SymbolIndex;

use vstd::prelude::*;
use crate::nav::index::order::{key_lt, Keyed, KeyView};
use crate::nav::keymap::KeyMap;
use crate::text::{str_eq, str_lt};

verus! {

/// One definition found in a file: its name, its kind (as the extractor
/// names it), its first and last (0-based) lines and its byte range.
#[derive(Clone, Debug, PartialEq, Eq)]
pub struct Symbol {
    pub name: String,
    pub kind: String,
    pub line: usize,
    pub start_byte: usize,
    pub end_byte: usize,
    pub end_line: usize,
}

/// A definition as plain values.
pub struct SymbolView {
    pub name: Seq<char>,
    pub kind: Seq<char>,
    pub line: usize,
    pub start_byte: usize,
    pub end_byte: usize,
    pub end_line: usize,
}

impl View for Symbol {
    type V = SymbolView;

    open spec fn view(&self) -> SymbolView {
        SymbolView {
            name: self.name@,
            kind: self.kind@,
            line: self.line,
            start_byte: self.start_byte,
            end_byte: self.end_byte,
            end_line: self.end_line,
        }
    }
}

impl Symbol {
    /// A copy of this definition.
    pub fn duplicate(&self) -> (r: Symbol)
        ensures
            r == *self,
    {
        Symbol {
            name: self.name.clone(),
            kind: self.kind.clone(),
            line: self.line,
            start_byte: self.start_byte,
            end_byte: self.end_byte,
            end_line: self.end_line,
        }
    }

    /// Whether two definitions hold the same values.
    pub fn same_as(&self, other: &Symbol) -> (r: bool)
        ensures
            r == (self@ == other@),
    {
        str_eq(self.name.as_str(), other.name.as_str()) && str_eq(self.kind.as_str(), other.kind.as_str())
            && self.line == other.line && self.start_byte == other.start_byte
            && self.end_byte == other.end_byte && self.end_line == other.end_line
    }
}

/// A definition's location: the (project-relative) file and the symbol.
#[derive(Clone, Debug, PartialEq, Eq)]
pub struct Location {
    pub file: String,
    pub symbol: Symbol,
}

impl View for Location {
    type V = (Seq<char>, SymbolView);

    open spec fn view(&self) -> (Seq<char>, SymbolView) {
        (self.file@, self.symbol@)
    }
}

impl Keyed for Location {
    open spec fn sort_key(&self) -> KeyView {
        (self.file@, self.symbol.line as int, self.symbol.name@)
    }

    open spec fn same_item(&self, other: &Self) -> bool {
        self@ == other@
    }

    fn sorts_before(&self, other: &Self) -> (r: bool) {
        str_lt(self.file.as_str(), other.file.as_str()) || (str_eq(self.file.as_str(), other.file.as_str()) && (
        self.symbol.line < other.symbol.line || (self.symbol.line == other.symbol.line && str_lt(
            self.symbol.name.as_str(),
            other.symbol.name.as_str(),
        ))))
    }

    fn is_same(&self, other: &Self) -> (r: bool) {
        str_eq(self.file.as_str(), other.file.as_str()) && self.symbol.same_as(&other.symbol)
    }

    fn copy_item(&self) -> (r: Self) {
        Location { file: self.file.clone(), symbol: self.symbol.duplicate() }
    }

    proof fn lemma_same_item(a: &Self, b: &Self, c: &Self) {
    }
}

/// One field of a struct: its name, the declaration's 0-based line and the
/// name's start byte.
#[derive(Clone, Debug, PartialEq, Eq)]
pub struct StructField {
    pub field: String,
    pub line: usize,
    pub start_byte: usize,
}

/// Whether an impl block is inherent or implements a trait (named as
/// written).
#[derive(Clone, Debug, PartialEq, Eq)]
pub enum ImplKind {
    Inherent,
    Trait(String),
}

/// One method of an impl block: its name, line, the impl header's line,
/// the name's start byte and the impl's kind.
#[derive(Clone, Debug, PartialEq, Eq)]
pub struct ImplMethod {
    pub method: String,
    pub line: usize,
    pub impl_line: usize,
    pub start_byte: usize,
    pub kind: ImplKind,
}

/// A local binding with a written-down type: the bound name, the type's
/// name, and the start bytes of the `let` and of the name.
#[derive(Clone, Debug, PartialEq, Eq)]
pub struct LocalBinding {
    pub binding: String,
    pub bound_type: String,
    pub let_byte: usize,
    pub name_byte: usize,
}

/// A Rust file's tables: struct name to its fields, self type to the
/// methods of its impl blocks, and the local bindings.
#[derive(Clone, Debug)]
pub struct RustTables {
    pub fields: KeyMap<Vec<StructField>>,
    pub impls: KeyMap<Vec<ImplMethod>>,
    pub bindings: Vec<LocalBinding>,
}

/// A struct field as plain values: name, line, start byte.
pub open spec fn field_view(f: StructField) -> (Seq<char>, usize, usize) {
    (f.field@, f.line, f.start_byte)
}

/// The views of a struct's fields.
pub open spec fn fields_view(v: Seq<StructField>) -> Seq<(Seq<char>, usize, usize)> {
    v.map_values(|f: StructField| field_view(f))
}

/// An impl method as plain values; `trait_name` is `None` for an inherent
/// impl.
pub struct MethodView {
    pub method: Seq<char>,
    pub line: usize,
    pub impl_line: usize,
    pub start_byte: usize,
    pub trait_name: Option<Seq<char>>,
}

pub open spec fn method_view(m: ImplMethod) -> MethodView {
    MethodView {
        method: m.method@,
        line: m.line,
        impl_line: m.impl_line,
        start_byte: m.start_byte,
        trait_name: match m.kind {
            ImplKind::Inherent => None,
            ImplKind::Trait(t) => Some(t@),
        },
    }
}

/// The views of an impl's methods.
pub open spec fn methods_view(v: Seq<ImplMethod>) -> Seq<MethodView> {
    v.map_values(|m: ImplMethod| method_view(m))
}

/// A local binding as plain values: name, type, `let` byte, name byte.
pub open spec fn binding_view(b: LocalBinding) -> (Seq<char>, Seq<char>, usize, usize) {
    (b.binding@, b.bound_type@, b.let_byte, b.name_byte)
}

/// A file's tables as plain values.
pub struct TablesView {
    pub fields: Map<Seq<char>, Seq<(Seq<char>, usize, usize)>>,
    pub impls: Map<Seq<char>, Seq<MethodView>>,
    pub bindings: Seq<(Seq<char>, Seq<char>, usize, usize)>,
}

impl View for RustTables {
    type V = TablesView;

    open spec fn view(&self) -> TablesView {
        TablesView {
            fields: fields_map_view(self.fields),
            impls: impls_map_view(self.impls),
            bindings: self.bindings@.map_values(|b: LocalBinding| binding_view(b)),
        }
    }
}

/// The field map as plain values.
pub open spec fn fields_map_view(m: KeyMap<Vec<StructField>>) -> Map<Seq<char>, Seq<(Seq<char>, usize, usize)>> {
    m@.map_values(|v: Vec<StructField>| fields_view(v@))
}

/// The impl map as plain values.
pub open spec fn impls_map_view(m: KeyMap<Vec<ImplMethod>>) -> Map<Seq<char>, Seq<MethodView>> {
    m@.map_values(|v: Vec<ImplMethod>| methods_view(v@))
}

/// Tables holding no struct, no impl and no binding.
pub open spec fn tables_empty(t: TablesView) -> bool {
    t.fields.dom().len() == 0 && t.impls.dom().len() == 0 && t.bindings.len() == 0
}

impl RustTables {
    /// The field and impl maps hold distinct keys.
    pub open spec fn wf(&self) -> bool {
        self.fields.wf() && self.impls.wf()
    }

    /// Empty tables.
    pub fn new() -> (t: RustTables)
        ensures
            t.wf(),
            tables_empty(t@),
    {
        let t = RustTables { fields: KeyMap::new(), impls: KeyMap::new(), bindings: Vec::new() };
        proof {
            assert(t@.fields.dom() =~= Set::<Seq<char>>::empty());
            assert(t@.impls.dom() =~= Set::<Seq<char>>::empty());
        }
        t
    }

    /// Whether the tables hold nothing.
    pub fn is_empty(&self) -> (b: bool)
        requires
            self.wf(),
        ensures
            b == tables_empty(self@),
    {
        proof {
            assert(self@.fields.dom() =~= self.fields@.dom());
            assert(self@.impls.dom() =~= self.impls@.dom());
        }
        self.fields.is_empty() && self.impls.is_empty() && self.bindings.len() == 0
    }
}

/// One `impl <Trait> for <Type>` block of a file: the impl header's line
/// (0-based) and the implementing type.
#[derive(Clone, Debug, PartialEq, Eq)]
pub struct TraitImpl {
    pub impl_line: usize,
    pub self_type: String,
}

/// A trait-impl location across the index: the file, the impl block's
/// line and the implementing type.
#[derive(Clone, Debug, PartialEq, Eq)]
pub struct TraitImplLocation {
    pub file: String,
    pub impl_line: usize,
    pub self_type: String,
}

/// One struct field's location: the file, the declaration's 0-based line,
/// and the field name's start byte.
#[derive(Clone, Debug, PartialEq, Eq)]
pub struct FieldLocation {
    pub file: String,
    pub line: usize,
    pub start_byte: usize,
}

impl TraitImpl {
    /// Whether two records hold the same values.
    pub fn same_as(&self, other: &TraitImpl) -> (r: bool)
        ensures
            r == (self.impl_line == other.impl_line && self.self_type@ == other.self_type@),
    {
        self.impl_line == other.impl_line && str_eq(self.self_type.as_str(), other.self_type.as_str())
    }
}

impl Keyed for TraitImplLocation {
    open spec fn sort_key(&self) -> KeyView {
        (self.file@, self.impl_line as int, self.self_type@)
    }

    open spec fn same_item(&self, other: &Self) -> bool {
        self.file@ == other.file@ && self.impl_line == other.impl_line && self.self_type@
            == other.self_type@
    }

    fn sorts_before(&self, other: &Self) -> (r: bool) {
        str_lt(self.file.as_str(), other.file.as_str()) || (str_eq(self.file.as_str(), other.file.as_str()) && (
        self.impl_line < other.impl_line || (self.impl_line == other.impl_line && str_lt(
            self.self_type.as_str(),
            other.self_type.as_str(),
        ))))
    }

    fn is_same(&self, other: &Self) -> (r: bool) {
        str_eq(self.file.as_str(), other.file.as_str()) && self.impl_line == other.impl_line
            && str_eq(self.self_type.as_str(), other.self_type.as_str())
    }

    fn copy_item(&self) -> (r: Self) {
        TraitImplLocation {
            file: self.file.clone(),
            impl_line: self.impl_line,
            self_type: self.self_type.clone(),
        }
    }

    proof fn lemma_same_item(a: &Self, b: &Self, c: &Self) {
    }
}

/// A line and a start byte as one number, ordered by line, then byte.
pub open spec fn line_byte(line: usize, b: usize) -> int {
    line as int * 0x1_0000_0000_0000_0000 + b as int
}

proof fn lemma_line_byte(l1: usize, b1: usize, l2: usize, b2: usize)
    ensures
        (line_byte(l1, b1) < line_byte(l2, b2)) == (l1 < l2 || (l1 == l2 && b1 < b2)),
        (line_byte(l1, b1) == line_byte(l2, b2)) == (l1 == l2 && b1 == b2),
{
    assert(b1 < 0x1_0000_0000_0000_0000 && b2 < 0x1_0000_0000_0000_0000);
    assert((line_byte(l1, b1) < line_byte(l2, b2)) == (l1 < l2 || (l1 == l2 && b1 < b2))) by (nonlinear_arith)
        requires
            b1 < 0x1_0000_0000_0000_0000int,
            b2 < 0x1_0000_0000_0000_0000int,
            0 <= b1,
            0 <= b2,
            0 <= l1,
            0 <= l2,
            line_byte(l1, b1) == l1 as int * 0x1_0000_0000_0000_0000 + b1 as int,
            line_byte(l2, b2) == l2 as int * 0x1_0000_0000_0000_0000 + b2 as int,
    ;
    assert((line_byte(l1, b1) == line_byte(l2, b2)) == (l1 == l2 && b1 == b2)) by (nonlinear_arith)
        requires
            b1 < 0x1_0000_0000_0000_0000int,
            b2 < 0x1_0000_0000_0000_0000int,
            0 <= b1,
            0 <= b2,
            0 <= l1,
            0 <= l2,
            line_byte(l1, b1) == l1 as int * 0x1_0000_0000_0000_0000 + b1 as int,
            line_byte(l2, b2) == l2 as int * 0x1_0000_0000_0000_0000 + b2 as int,
    ;
}

/// Two field locations hold the same values exactly when their keys are
/// equal.
pub proof fn lemma_field_key_is_item(a: FieldLocation, b: FieldLocation)
    ensures
        (a.sort_key() == b.sort_key()) == a.same_item(&b),
{
    lemma_line_byte(a.line, a.start_byte, b.line, b.start_byte);
}

impl Keyed for FieldLocation {
    open spec fn sort_key(&self) -> KeyView {
        (self.file@, line_byte(self.line, self.start_byte), Seq::<char>::empty())
    }

    open spec fn same_item(&self, other: &Self) -> bool {
        self.file@ == other.file@ && self.line == other.line && self.start_byte == other.start_byte
    }

    fn sorts_before(&self, other: &Self) -> (r: bool) {
        proof {
            crate::text::lemma_lex_total(Seq::<char>::empty(), Seq::<char>::empty());
            lemma_line_byte(self.line, self.start_byte, other.line, other.start_byte);
        }
        str_lt(self.file.as_str(), other.file.as_str()) || (str_eq(self.file.as_str(), other.file.as_str())
            && (self.line < other.line || (self.line == other.line && self.start_byte < other.start_byte)))
    }

    fn is_same(&self, other: &Self) -> (r: bool) {
        str_eq(self.file.as_str(), other.file.as_str()) && self.line == other.line && self.start_byte
            == other.start_byte
    }

    fn copy_item(&self) -> (r: Self) {
        FieldLocation { file: self.file.clone(), line: self.line, start_byte: self.start_byte }
    }

    proof fn lemma_same_item(a: &Self, b: &Self, c: &Self) {
    }
}

/// Whether two field lists hold the same fields in the same order.
fn fields_same(a: &[StructField], b: &[StructField]) -> (r: bool)
    ensures
        r == (fields_view(a@) == fields_view(b@)),
{
    if a.len() != b.len() {
        proof {
            assert(fields_view(a@).len() != fields_view(b@).len());
        }
        return false;
    }
    let mut i: usize = 0;
    while i < a.len()
        invariant
            a@.len() == b@.len(),
            i <= a@.len(),
            forall|j: int| 0 <= j < i ==> field_view(a@[j]) == field_view(b@[j]),
        decreases a@.len() - i,
    {
        if !(str_eq(a[i].field.as_str(), b[i].field.as_str()) && a[i].line == b[i].line && a[i].start_byte
            == b[i].start_byte) {
            proof {
                assert(fields_view(a@)[i as int] != fields_view(b@)[i as int]);
            }
            return false;
        }
        i = i + 1;
    }
    assert(fields_view(a@) =~= fields_view(b@));
    true
}

/// Whether two method lists hold the same methods in the same order.
fn methods_same(a: &[ImplMethod], b: &[ImplMethod]) -> (r: bool)
    ensures
        r == (methods_view(a@) == methods_view(b@)),
{
    if a.len() != b.len() {
        proof {
            assert(methods_view(a@).len() != methods_view(b@).len());
        }
        return false;
    }
    let mut i: usize = 0;
    while i < a.len()
        invariant
            a@.len() == b@.len(),
            i <= a@.len(),
            forall|j: int| 0 <= j < i ==> method_view(a@[j]) == method_view(b@[j]),
        decreases a@.len() - i,
    {
        let x = &a[i];
        let y = &b[i];
        let kinds = match (&x.kind, &y.kind) {
            (ImplKind::Inherent, ImplKind::Inherent) => true,
            (ImplKind::Trait(s), ImplKind::Trait(t)) => str_eq(s.as_str(), t.as_str()),
            _ => false,
        };
        if !(str_eq(x.method.as_str(), y.method.as_str()) && x.line == y.line && x.impl_line == y.impl_line
            && x.start_byte == y.start_byte && kinds) {
            proof {
                assert(methods_view(a@)[i as int] != methods_view(b@)[i as int]);
            }
            return false;
        }
        i = i + 1;
    }
    assert(methods_view(a@) =~= methods_view(b@));
    true
}

/// Whether two binding lists hold the same bindings in the same order.
fn bindings_same(a: &[LocalBinding], b: &[LocalBinding]) -> (r: bool)
    ensures
        r == (a@.map_values(|x: LocalBinding| binding_view(x)) == b@.map_values(|x: LocalBinding| binding_view(x))),
{
    let ghost va = a@.map_values(|x: LocalBinding| binding_view(x));
    let ghost vb = b@.map_values(|x: LocalBinding| binding_view(x));
    if a.len() != b.len() {
        proof {
            assert(va.len() != vb.len());
        }
        return false;
    }
    let mut i: usize = 0;
    while i < a.len()
        invariant
            a@.len() == b@.len(),
            i <= a@.len(),
            va == a@.map_values(|x: LocalBinding| binding_view(x)),
            vb == b@.map_values(|x: LocalBinding| binding_view(x)),
            forall|j: int| 0 <= j < i ==> binding_view(a@[j]) == binding_view(b@[j]),
        decreases a@.len() - i,
    {
        if !(str_eq(a[i].binding.as_str(), b[i].binding.as_str()) && str_eq(a[i].bound_type.as_str(), b[i].bound_type.as_str())
            && a[i].let_byte == b[i].let_byte && a[i].name_byte == b[i].name_byte) {
            proof {
                assert(va[i as int] != vb[i as int]);
            }
            return false;
        }
        i = i + 1;
    }
    assert(va =~= vb);
    true
}

proof fn lemma_map_views_equal<V, W>(a: KeyMap<V>, b: KeyMap<V>, f: spec_fn(V) -> W)
    requires
        a.wf(),
        b.wf(),
        a@.dom().len() == b@.dom().len(),
        forall|k: Seq<char>| #[trigger] a@.contains_key(k) ==> b@.contains_key(k) && f(a@[k]) == f(b@[k]),
    ensures
        a@.map_values(f) == b@.map_values(f),
{
    a.lemma_entries();
    b.lemma_entries();
    vstd::set_lib::lemma_subset_equality(a@.dom(), b@.dom());
    assert(a@.map_values(f) =~= b@.map_values(f));
}

/// Whether two field maps hold the same structs with the same fields.
fn field_maps_same(a: &KeyMap<Vec<StructField>>, b: &KeyMap<Vec<StructField>>) -> (r: bool)
    requires
        a.wf(),
        b.wf(),
    ensures
        r == (fields_map_view(*a) == fields_map_view(*b)),
{
    proof {
        a.lemma_entries();
        b.lemma_entries();
        assert(fields_map_view(*a).dom() =~= a@.dom());
        assert(fields_map_view(*b).dom() =~= b@.dom());
    }
    if a.len() != b.len() {
        return false;
    }
    let n = a.len();
    let mut i: usize = 0;
    while i < n
        invariant
            a.wf(),
            b.wf(),
            n == a.entries_seq().len(),
            i <= n,
            fields_map_view(*a).dom() == a@.dom(),
            fields_map_view(*b).dom() == b@.dom(),
            forall|k: int| #![trigger a.entries_seq()[k]] 0 <= k < a.entries_seq().len() ==> a@.contains_key(a.entries_seq()[k].0@)
                && a@[a.entries_seq()[k].0@] == a.entries_seq()[k].1,
            forall|k: Seq<char>|
                #![trigger a@.contains_key(k)]
                a@.contains_key(k) ==> exists|j: int| 0 <= j < a.entries_seq().len() && #[trigger] a.entries_seq()[j].0@ == k,
            forall|j: int|
                0 <= j < i ==> b@.contains_key(#[trigger] a.entries_seq()[j].0@) && fields_view(a.entries_seq()[j].1@)
                    == fields_view(b@[a.entries_seq()[j].0@]@),
        decreases n - i,
    {
        let e = a.entry_at(i);
        match b.get(e.0.as_str()) {
            Some(w) => {
                if !fields_same(e.1.as_slice(), w.as_slice()) {
                    proof {
                        assert(fields_map_view(*a)[e.0@] != fields_map_view(*b)[e.0@]);
                    }
                    return false;
                }
            },
            None => {
                proof {
                    assert(fields_map_view(*a).contains_key(e.0@));
                    assert(!fields_map_view(*b).contains_key(e.0@));
                }
                return false;
            },
        }
        i = i + 1;
    }
    proof {
        assert forall|k: Seq<char>| #[trigger] a@.contains_key(k) implies b@.contains_key(k) && fields_view(a@[k]@)
            == fields_view(b@[k]@) by {
            let j = choose|j: int| 0 <= j < a.entries_seq().len() && #[trigger] a.entries_seq()[j].0@ == k;
            assert(b@.contains_key(a.entries_seq()[j].0@));
        }
        lemma_map_views_equal(*a, *b, |v: Vec<StructField>| fields_view(v@));
    }
    true
}

/// Whether two impl maps hold the same self types with the same methods.
fn impl_maps_same(a: &KeyMap<Vec<ImplMethod>>, b: &KeyMap<Vec<ImplMethod>>) -> (r: bool)
    requires
        a.wf(),
        b.wf(),
    ensures
        r == (impls_map_view(*a) == impls_map_view(*b)),
{
    proof {
        a.lemma_entries();
        b.lemma_entries();
        assert(impls_map_view(*a).dom() =~= a@.dom());
        assert(impls_map_view(*b).dom() =~= b@.dom());
    }
    if a.len() != b.len() {
        return false;
    }
    let n = a.len();
    let mut i: usize = 0;
    while i < n
        invariant
            a.wf(),
            b.wf(),
            n == a.entries_seq().len(),
            i <= n,
            impls_map_view(*a).dom() == a@.dom(),
            impls_map_view(*b).dom() == b@.dom(),
            forall|k: int| #![trigger a.entries_seq()[k]] 0 <= k < a.entries_seq().len() ==> a@.contains_key(a.entries_seq()[k].0@)
                && a@[a.entries_seq()[k].0@] == a.entries_seq()[k].1,
            forall|k: Seq<char>|
                #![trigger a@.contains_key(k)]
                a@.contains_key(k) ==> exists|j: int| 0 <= j < a.entries_seq().len() && #[trigger] a.entries_seq()[j].0@ == k,
            forall|j: int|
                0 <= j < i ==> b@.contains_key(#[trigger] a.entries_seq()[j].0@) && methods_view(a.entries_seq()[j].1@)
                    == methods_view(b@[a.entries_seq()[j].0@]@),
        decreases n - i,
    {
        let e = a.entry_at(i);
        match b.get(e.0.as_str()) {
            Some(w) => {
                if !methods_same(e.1.as_slice(), w.as_slice()) {
                    proof {
                        assert(impls_map_view(*a)[e.0@] != impls_map_view(*b)[e.0@]);
                    }
                    return false;
                }
            },
            None => {
                proof {
                    assert(impls_map_view(*a).contains_key(e.0@));
                    assert(!impls_map_view(*b).contains_key(e.0@));
                }
                return false;
            },
        }
        i = i + 1;
    }
    proof {
        assert forall|k: Seq<char>| #[trigger] a@.contains_key(k) implies b@.contains_key(k) && methods_view(a@[k]@)
            == methods_view(b@[k]@) by {
            let j = choose|j: int| 0 <= j < a.entries_seq().len() && #[trigger] a.entries_seq()[j].0@ == k;
            assert(b@.contains_key(a.entries_seq()[j].0@));
        }
        lemma_map_views_equal(*a, *b, |v: Vec<ImplMethod>| methods_view(v@));
    }
    true
}

impl RustTables {
    /// Whether two tables hold the same structs, impls and bindings.
    pub fn same_as(&self, other: &RustTables) -> (r: bool)
        requires
            self.wf(),
            other.wf(),
        ensures
            r == (self@ == other@),
    {
        let f = field_maps_same(&self.fields, &other.fields);
        let m = impl_maps_same(&self.impls, &other.impls);
        let b = bindings_same(self.bindings.as_slice(), other.bindings.as_slice());
        f && m && b
    }
}

fn copy_fields(v: &Vec<StructField>) -> (r: Vec<StructField>)
    ensures
        fields_view(r@) == fields_view(v@),
{
    let mut r: Vec<StructField> = Vec::new();
    let mut i: usize = 0;
    while i < v.len()
        invariant
            i <= v@.len(),
            r@.len() == i,
            forall|k: int| 0 <= k < i ==> field_view(#[trigger] r@[k]) == field_view(v@[k]),
        decreases v@.len() - i,
    {
        let f = &v[i];
        let name = f.field.clone();
        r.push(StructField { field: name, line: f.line, start_byte: f.start_byte });
        i = i + 1;
    }
    assert(fields_view(r@) =~= fields_view(v@));
    r
}

fn copy_methods(v: &Vec<ImplMethod>) -> (r: Vec<ImplMethod>)
    ensures
        methods_view(r@) == methods_view(v@),
{
    let mut r: Vec<ImplMethod> = Vec::new();
    let mut i: usize = 0;
    while i < v.len()
        invariant
            i <= v@.len(),
            r@.len() == i,
            forall|k: int| 0 <= k < i ==> method_view(#[trigger] r@[k]) == method_view(v@[k]),
        decreases v@.len() - i,
    {
        let m = &v[i];
        let kind = match &m.kind {
            ImplKind::Inherent => ImplKind::Inherent,
            ImplKind::Trait(t) => ImplKind::Trait(t.clone()),
        };
        let name = m.method.clone();
        r.push(ImplMethod { method: name, line: m.line, impl_line: m.impl_line, start_byte: m.start_byte, kind });
        i = i + 1;
    }
    assert(methods_view(r@) =~= methods_view(v@));
    r
}

fn copy_bindings(v: &Vec<LocalBinding>) -> (r: Vec<LocalBinding>)
    ensures
        r@.map_values(|b: LocalBinding| binding_view(b)) == v@.map_values(|b: LocalBinding| binding_view(b)),
{
    let mut r: Vec<LocalBinding> = Vec::new();
    let mut i: usize = 0;
    while i < v.len()
        invariant
            i <= v@.len(),
            r@.len() == i,
            forall|k: int| 0 <= k < i ==> binding_view(#[trigger] r@[k]) == binding_view(v@[k]),
        decreases v@.len() - i,
    {
        let b = &v[i];
        let n1 = b.binding.clone();
        let n2 = b.bound_type.clone();
        r.push(LocalBinding { binding: n1, bound_type: n2, let_byte: b.let_byte, name_byte: b.name_byte });
        i = i + 1;
    }
    assert(r@.map_values(|b: LocalBinding| binding_view(b)) =~= v@.map_values(|b: LocalBinding| binding_view(b)));
    r
}

fn copy_field_map(a: &KeyMap<Vec<StructField>>) -> (r: KeyMap<Vec<StructField>>)
    requires
        a.wf(),
    ensures
        r.wf(),
        fields_map_view(r) == fields_map_view(*a),
{
    proof {
        a.lemma_entries();
    }
    let mut r: KeyMap<Vec<StructField>> = KeyMap::new();
    let n = a.len();
    let mut i: usize = 0;
    while i < n
        invariant
            a.wf(),
            r.wf(),
            n == a.entries_seq().len(),
            i <= n,
            forall|k: int| #![trigger a.entries_seq()[k]] 0 <= k < a.entries_seq().len() ==> a@.contains_key(a.entries_seq()[k].0@)
                && a@[a.entries_seq()[k].0@] == a.entries_seq()[k].1,
            forall|k: Seq<char>| #[trigger] r@.contains_key(k) ==> a@.contains_key(k) && fields_view(r@[k]@) == fields_view(a@[k]@),
            forall|j: int| 0 <= j < i ==> r@.contains_key(#[trigger] a.entries_seq()[j].0@),
        decreases n - i,
    {
        let e = a.entry_at(i);
        let copy = copy_fields(&e.1);
        r.insert(e.0.clone(), copy);
        i = i + 1;
    }
    proof {
        r.lemma_entries();
        assert forall|k: Seq<char>| #[trigger] a@.contains_key(k) implies r@.contains_key(k) && fields_view(a@[k]@) == fields_view(r@[k]@) by {
            let j = choose|j: int| 0 <= j < a.entries_seq().len() && #[trigger] a.entries_seq()[j].0@ == k;
            assert(r@.contains_key(a.entries_seq()[j].0@));
        }
        assert(r@.dom() =~= a@.dom());
        lemma_map_views_equal(*a, r, |v: Vec<StructField>| fields_view(v@));
    }
    r
}

fn copy_impl_map(a: &KeyMap<Vec<ImplMethod>>) -> (r: KeyMap<Vec<ImplMethod>>)
    requires
        a.wf(),
    ensures
        r.wf(),
        impls_map_view(r) == impls_map_view(*a),
{
    proof {
        a.lemma_entries();
    }
    let mut r: KeyMap<Vec<ImplMethod>> = KeyMap::new();
    let n = a.len();
    let mut i: usize = 0;
    while i < n
        invariant
            a.wf(),
            r.wf(),
            n == a.entries_seq().len(),
            i <= n,
            forall|k: int| #![trigger a.entries_seq()[k]] 0 <= k < a.entries_seq().len() ==> a@.contains_key(a.entries_seq()[k].0@)
                && a@[a.entries_seq()[k].0@] == a.entries_seq()[k].1,
            forall|k: Seq<char>| #[trigger] r@.contains_key(k) ==> a@.contains_key(k) && methods_view(r@[k]@) == methods_view(a@[k]@),
            forall|j: int| 0 <= j < i ==> r@.contains_key(#[trigger] a.entries_seq()[j].0@),
        decreases n - i,
    {
        let e = a.entry_at(i);
        let copy = copy_methods(&e.1);
        r.insert(e.0.clone(), copy);
        i = i + 1;
    }
    proof {
        r.lemma_entries();
        assert forall|k: Seq<char>| #[trigger] a@.contains_key(k) implies r@.contains_key(k) && methods_view(a@[k]@) == methods_view(r@[k]@) by {
            let j = choose|j: int| 0 <= j < a.entries_seq().len() && #[trigger] a.entries_seq()[j].0@ == k;
            assert(r@.contains_key(a.entries_seq()[j].0@));
        }
        assert(r@.dom() =~= a@.dom());
        lemma_map_views_equal(*a, r, |v: Vec<ImplMethod>| methods_view(v@));
    }
    r
}

impl RustTables {
    /// A copy of the tables, holding the same values.
    pub fn duplicate(&self) -> (r: RustTables)
        requires
            self.wf(),
        ensures
            r.wf(),
            r@ == self@,
    {
        RustTables {
            fields: copy_field_map(&self.fields),
            impls: copy_impl_map(&self.impls),
            bindings: copy_bindings(&self.bindings),
        }
    }
}

} // verus!
