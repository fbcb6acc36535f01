use crate::error::{Error, ErrorKind, ErrorView};
use crate::names::{
    lemma_insert_sorted, lemma_sorted_no_duplicates, lower_bound, names_view, strictly_sorted,
    StrSet,
};
use crate::strings::{chars_of, clone_opt_string, opt_str_view, range_equals};
use crate::syntax::{keyword_of, lemma_keyword_of_spelling, spelling, Keyword};
use crate::typing::{lemma_types_view, Type, TypeView};
use crate::value::{default_value_view, lemma_values_view, Value, ValueView};
use crate::values::Values;
use vstd::prelude::*;

verus! {

// ---------------------------------------------------------------------------
// Entries
// ---------------------------------------------------------------------------

/// An entry of the symbol table: the value that declares a name, with the
/// name of that value and the file it was read from.
#[derive(Debug, PartialEq, Eq)]
pub struct STElement {
    pub name: Option<String>,
    pub value: Value,
    pub file: Option<String>,
}

/// Model of an `STElement`.
pub struct STElementView {
    pub name: Option<Seq<char>>,
    pub value: ValueView,
    pub file: Option<Seq<char>>,
}

impl View for STElement {
    type V = STElementView;

    open spec fn view(&self) -> STElementView {
        STElementView {
            name: opt_str_view(self.name),
            value: self.value@,
            file: opt_str_view(self.file),
        }
    }
}

/// The entry for the value `v`.
pub open spec fn element_of(v: ValueView) -> STElementView {
    STElementView { name: v.name, value: v, file: v.token.loc.file }
}

impl Clone for STElement {
    fn clone(&self) -> (r: Self)
        ensures
            r@ == self@,
    {
        STElement {
            name: clone_opt_string(&self.name),
            value: self.value.clone(),
            file: clone_opt_string(&self.file),
        }
    }
}

impl Default for STElement {
    fn default() -> (e: Self)
        ensures
            e@ == (STElementView { name: None, value: default_value_view(), file: None }),
    {
        STElement { name: None, value: Value::default(), file: None }
    }
}

impl STElement {
    /// An entry with no name, the default value and no file.
    pub fn new() -> (e: Self)
        ensures
            e@ == (STElementView { name: None, value: default_value_view(), file: None }),
    {
        STElement::default()
    }

    /// The entry for `value`: its name, a copy of it, and its token's file.
    pub fn from_value(value: &Value) -> (e: Self)
        ensures
            e@ == element_of(value@),
            e@.name == value@.name,
            e@.value == value@,
            e@.file == value@.token.loc.file,
    {
        STElement { name: clone_opt_string(&value.name), value: value.clone(), file: value.token.file() }
    }
}

// ---------------------------------------------------------------------------
// Maps from names to entries
// ---------------------------------------------------------------------------

/// The models of a list of entries.
pub open spec fn group_view(g: Seq<STElement>) -> Seq<STElementView> {
    g.map_values(|e: STElement| e@)
}

pub open spec fn groups_view(gs: Seq<Vec<STElement>>) -> Seq<Seq<STElementView>> {
    gs.map_values(|g: Vec<STElement>| group_view(g@))
}

/// The map that sends each of the names `ns` to the entries at its position.
pub open spec fn map_of(ns: Seq<Seq<char>>, gs: Seq<Seq<STElementView>>) -> Map<
    Seq<char>,
    Seq<STElementView>,
> {
    Map::new(
        |k: Seq<char>| ns.contains(k),
        |k: Seq<char>| gs[choose|i: int| 0 <= i < ns.len() && ns[i] == k],
    )
}

/// `m` with `e` added to the entries of `k`.
pub open spec fn map_append(
    m: Map<Seq<char>, Seq<STElementView>>,
    k: Seq<char>,
    e: STElementView,
) -> Map<Seq<char>, Seq<STElementView>> {
    m.insert(
        k,
        if m.contains_key(k) {
            m[k].push(e)
        } else {
            seq![e]
        },
    )
}

proof fn lemma_map_of_at(ns: Seq<Seq<char>>, gs: Seq<Seq<STElementView>>, i: int)
    requires
        ns.no_duplicates(),
        0 <= i < ns.len(),
    ensures
        map_of(ns, gs).contains_key(ns[i]),
        map_of(ns, gs)[ns[i]] == gs[i],
{
    assert(ns.contains(ns[i]));
    let j = choose|j: int| 0 <= j < ns.len() && ns[j] == ns[i];
    assert(j == i);
}

/// A map from names to lists of entries, kept in the order of its names.
#[derive(Debug, PartialEq, Eq)]
pub struct ElementMap {
    names: Vec<String>,
    groups: Vec<Vec<STElement>>,
}

impl ElementMap {
    #[verifier::type_invariant]
    spec fn well_formed(self) -> bool {
        &&& strictly_sorted(names_view(self.names@))
        &&& self.names@.len() == self.groups@.len()
    }
}

impl ElementMap {
    /// The names, in increasing order.
    pub closed spec fn ordered(self) -> Seq<Seq<char>> {
        names_view(self.names@)
    }
}

impl View for ElementMap {
    type V = Map<Seq<char>, Seq<STElementView>>;

    closed spec fn view(&self) -> Map<Seq<char>, Seq<STElementView>> {
        map_of(names_view(self.names@), groups_view(self.groups@))
    }
}

impl ElementMap {
    pub fn new() -> (m: Self)
        ensures
            m@ == Map::<Seq<char>, Seq<STElementView>>::empty(),
    {
        let m = ElementMap { names: Vec::new(), groups: Vec::new() };
        proof {
            assert(map_of(names_view(m.names@), groups_view(m.groups@)) =~= Map::<
                Seq<char>,
                Seq<STElementView>,
            >::empty());
        }
        m
    }

    /// The number of names.
    pub fn len(&self) -> (n: usize)
        ensures
            n == self@.len(),
            self@.dom().finite(),
    {
        proof {
            use_type_invariant(self);
            let nv = names_view(self.names@);
            lemma_sorted_no_duplicates(nv);
            nv.unique_seq_to_set();
            assert(self@.dom() =~= nv.to_set());
        }
        self.names.len()
    }

    /// Whether the map holds no name.
    pub fn is_empty(&self) -> (b: bool)
        ensures
            b == (self@.len() == 0),
    {
        self.len() == 0
    }

    /// The position of `key` among the names, if it is there.
    fn find(&self, key: &Vec<char>) -> (r: Option<usize>)
        ensures
            match r {
                Some(p) => p < self.names@.len() && names_view(self.names@)[p as int] == key@,
                None => !names_view(self.names@).contains(key@),
            },
    {
        proof {
            use_type_invariant(self);
        }
        let p = lower_bound(&self.names, key);
        if p < self.names.len() {
            let cs = chars_of(self.names[p].as_str());
            proof {
                assert(cs@.subrange(0, cs@.len() as int) =~= cs@);
                assert(names_view(self.names@)[p as int] == self.names@[p as int]@);
            }
            if range_equals(&cs, 0, cs.len(), key) {
                return Some(p);
            }
        }
        None
    }

    /// The names that have entries, in increasing order.
    pub fn keys(&self) -> (v: Vec<String>)
        ensures
            names_view(v@) == self.ordered(),
            strictly_sorted(names_view(v@)),
            names_view(v@).to_set() == self@.dom(),
    {
        proof {
            use_type_invariant(self);
            assert(self@.dom() =~= names_view(self.names@).to_set());
        }
        let mut v: Vec<String> = Vec::new();
        let n = self.names.len();
        for i in 0..n
            invariant
                n == self.names@.len(),
                names_view(v@) == names_view(self.names@).take(i as int),
        {
            let s = self.names[i].clone();
            let ghost before = v@;
            v.push(s);
            proof {
                assert(names_view(v@) =~= names_view(before).push(s@));
                assert(names_view(self.names@).take(i + 1) =~= names_view(self.names@).take(
                    i as int,
                ).push(s@));
            }
        }
        proof {
            assert(names_view(self.names@).take(n as int) =~= names_view(self.names@));
        }
        v
    }

    /// Whether `key` has entries.
    pub fn contains_key(&self, key: &str) -> (b: bool)
        ensures
            b == self@.contains_key(key@),
    {
        let k = chars_of(key);
        self.find(&k).is_some()
    }

    /// The entries of `key`, if it has any.
    pub fn get(&self, key: &str) -> (r: Option<&Vec<STElement>>)
        ensures
            match r {
                Some(g) => self@.contains_key(key@) && group_view(g@) == self@[key@],
                None => !self@.contains_key(key@),
            },
    {
        proof {
            use_type_invariant(self);
            lemma_sorted_no_duplicates(names_view(self.names@));
        }
        let k = chars_of(key);
        match self.find(&k) {
            Some(p) => {
                proof {
                    lemma_map_of_at(names_view(self.names@), groups_view(self.groups@), p as int);
                }
                Some(&self.groups[p])
            },
            None => None,
        }
    }

    /// Adds `e` at the end of the entries of `key`.
    pub fn append(&mut self, key: String, e: STElement)
        ensures
            final(self)@ == map_append(old(self)@, key@, e@),
    {
        proof {
            use_type_invariant(&*self);
        }
        let k = chars_of(key.as_str());
        let p_found = self.find(&k);
        let mut this = ElementMap::new();
        std::mem::swap(&mut this, self);
        let ghost old_view = this@;
        proof {
            use_type_invariant(&this);
        }
        let ElementMap { mut names, mut groups } = this;
        let ghost nv = names_view(names@);
        let ghost gv = groups_view(groups@);
        proof {
            lemma_sorted_no_duplicates(nv);
        }
        match p_found {
            Some(p) => {
                let mut g = groups.remove(p);
                let ghost before = g@;
                g.push(e);
                groups.insert(p, g);
                proof {
                    lemma_map_of_at(nv, gv, p as int);
                    assert(group_view(g@) =~= group_view(before).push(e@));
                    assert(groups_view(groups@) =~= gv.update(p as int, gv[p as int].push(e@)));
                    let m2 = map_of(nv, groups_view(groups@));
                    assert forall|x: Seq<char>| #[trigger] m2.contains_key(x) implies m2[x]
                        == map_append(old_view, key@, e@)[x] by {
                        let j = choose|j: int| 0 <= j < nv.len() && nv[j] == x;
                        lemma_map_of_at(nv, groups_view(groups@), j);
                        lemma_map_of_at(nv, gv, j);
                    }
                    assert(m2 =~= map_append(old_view, key@, e@));
                }
                *self = ElementMap { names, groups };
            },
            None => {
                let p = lower_bound(&names, &k);
                let mut g: Vec<STElement> = Vec::new();
                g.push(e);
                names.insert(p, key);
                groups.insert(p, g);
                proof {
                    assert(nv.contains(k@) == false);
                    lemma_insert_sorted(nv, p as int, k@);
                    let nv2 = names_view(names@);
                    let gv2 = groups_view(groups@);
                    assert(nv2 =~= nv.insert(p as int, k@));
                    assert(group_view(g@) =~= seq![e@]);
                    assert(gv2 =~= gv.insert(p as int, seq![e@]));
                    lemma_sorted_no_duplicates(nv2);
                    let m2 = map_of(nv2, gv2);
                    let target = map_append(old_view, key@, e@);
                    assert forall|x: Seq<char>| #[trigger] m2.contains_key(x) <==> target.contains_key(x) by {
                        if m2.contains_key(x) {
                            let j = choose|j: int| 0 <= j < nv2.len() && nv2[j] == x;
                            if j < p {
                                assert(nv[j] == x);
                            } else if j > p {
                                assert(nv[j - 1] == x);
                            }
                        }
                        if target.contains_key(x) && x != key@ {
                            let j = choose|j: int| 0 <= j < nv.len() && nv[j] == x;
                            if j < p {
                                assert(nv2[j] == x);
                            } else {
                                assert(nv2[j + 1] == x);
                            }
                        }
                        if x == key@ {
                            assert(nv2[p as int] == x);
                        }
                    }
                    assert forall|x: Seq<char>| #[trigger] m2.contains_key(x) implies m2[x]
                        == target[x] by {
                        let j = choose|j: int| 0 <= j < nv2.len() && nv2[j] == x;
                        lemma_map_of_at(nv2, gv2, j);
                        if j < p {
                            lemma_map_of_at(nv, gv, j);
                        } else if j > p {
                            lemma_map_of_at(nv, gv, j - 1);
                        }
                    }
                    assert(m2 =~= target);
                }
                *self = ElementMap { names, groups };
            },
        }
    }
}

impl Clone for ElementMap {
    fn clone(&self) -> (r: Self)
        ensures
            r@ == self@,
    {
        proof {
            use_type_invariant(self);
        }
        let mut names: Vec<String> = Vec::new();
        let mut groups: Vec<Vec<STElement>> = Vec::new();
        let n = self.names.len();
        for i in 0..n
            invariant
                n == self.names@.len(),
                n == self.groups@.len(),
                names_view(names@) == names_view(self.names@).take(i as int),
                groups_view(groups@) == groups_view(self.groups@).take(i as int),
        {
            let s = self.names[i].clone();
            let src = &self.groups[i];
            let mut g: Vec<STElement> = Vec::new();
            for j in 0..src.len()
                invariant
                    group_view(g@) == group_view(src@).take(j as int),
            {
                let c = src[j].clone();
                let ghost b = g@;
                g.push(c);
                proof {
                    assert(group_view(g@) =~= group_view(b).push(c@));
                    assert(group_view(src@).take(j + 1) =~= group_view(src@).take(j as int).push(
                        c@,
                    ));
                }
            }
            proof {
                assert(group_view(src@).take(src@.len() as int) =~= group_view(src@));
            }
            let ghost bn = names@;
            let ghost bg = groups@;
            names.push(s);
            groups.push(g);
            proof {
                assert(names_view(names@) =~= names_view(bn).push(s@));
                assert(names_view(self.names@).take(i + 1) =~= names_view(self.names@).take(
                    i as int,
                ).push(s@));
                assert(groups_view(groups@) =~= groups_view(bg).push(group_view(g@)));
                assert(groups_view(self.groups@).take(i + 1) =~= groups_view(self.groups@).take(
                    i as int,
                ).push(group_view(src@)));
            }
        }
        proof {
            assert(names_view(self.names@).take(n as int) =~= names_view(self.names@));
            assert(groups_view(self.groups@).take(n as int) =~= groups_view(self.groups@));
        }
        ElementMap { names, groups }
    }
}

impl Default for ElementMap {
    fn default() -> (m: Self)
        ensures
            m@ == Map::<Seq<char>, Seq<STElementView>>::empty(),
    {
        ElementMap::new()
    }
}

// ---------------------------------------------------------------------------
// The symbol table
// ---------------------------------------------------------------------------

/// The names that a sequence of values declares, imports and exports,
/// each with the entries of the values that mention it.
#[derive(Debug, PartialEq, Eq)]
pub struct SymbolTable {
    pub files: StrSet,
    pub imp_paths: StrSet,
    pub def_types: StrSet,
    pub def_values: StrSet,
    pub def_attrs: StrSet,
    pub exp_values: StrSet,
    pub imports: ElementMap,
    pub types: ElementMap,
    pub sigs: ElementMap,
    pub prims: ElementMap,
    pub sums: ElementMap,
    pub prods: ElementMap,
    pub funs: ElementMap,
    pub attrs: ElementMap,
    pub exports: ElementMap,
}

/// Model of a `SymbolTable`.
pub struct TableView {
    pub files: Set<Seq<char>>,
    pub imp_paths: Set<Seq<char>>,
    pub def_types: Set<Seq<char>>,
    pub def_values: Set<Seq<char>>,
    pub def_attrs: Set<Seq<char>>,
    pub exp_values: Set<Seq<char>>,
    pub imports: Map<Seq<char>, Seq<STElementView>>,
    pub types: Map<Seq<char>, Seq<STElementView>>,
    pub sigs: Map<Seq<char>, Seq<STElementView>>,
    pub prims: Map<Seq<char>, Seq<STElementView>>,
    pub sums: Map<Seq<char>, Seq<STElementView>>,
    pub prods: Map<Seq<char>, Seq<STElementView>>,
    pub funs: Map<Seq<char>, Seq<STElementView>>,
    pub attrs: Map<Seq<char>, Seq<STElementView>>,
    pub exports: Map<Seq<char>, Seq<STElementView>>,
}

impl View for SymbolTable {
    type V = TableView;

    open spec fn view(&self) -> TableView {
        TableView {
            files: self.files@,
            imp_paths: self.imp_paths@,
            def_types: self.def_types@,
            def_values: self.def_values@,
            def_attrs: self.def_attrs@,
            exp_values: self.exp_values@,
            imports: self.imports@,
            types: self.types@,
            sigs: self.sigs@,
            prims: self.prims@,
            sums: self.sums@,
            prods: self.prods@,
            funs: self.funs@,
            attrs: self.attrs@,
            exports: self.exports@,
        }
    }
}

/// The table with nothing in it.
pub open spec fn empty_table() -> TableView {
    TableView {
        files: Set::empty(),
        imp_paths: Set::empty(),
        def_types: Set::empty(),
        def_values: Set::empty(),
        def_attrs: Set::empty(),
        exp_values: Set::empty(),
        imports: Map::empty(),
        types: Map::empty(),
        sigs: Map::empty(),
        prims: Map::empty(),
        sums: Map::empty(),
        prods: Map::empty(),
        funs: Map::empty(),
        attrs: Map::empty(),
        exports: Map::empty(),
    }
}

/// The name of the `i`-th element of the form `v`.
pub open spec fn arg_name(v: ValueView, i: int) -> Seq<char> {
    v.children[i].name->Some_0
}

/// The table after recording the export of `arg`, declared by `w`.
pub open spec fn record_export(st: TableView, arg: Seq<char>, w: ValueView) -> TableView {
    TableView {
        exp_values: st.exp_values.insert(arg),
        exports: map_append(st.exports, arg, element_of(w)),
        ..st
    }
}

/// The table after recording the exports of the elements `1..n` of `w`.
pub open spec fn record_exports_upto(st: TableView, w: ValueView, n: int) -> TableView
    decreases n,
{
    if n <= 1 {
        st
    } else {
        record_export(record_exports_upto(st, w, n - 1), arg_name(w, n - 1), w)
    }
}

/// The table after recording the declaration `v`, which starts with keyword `k`.
pub open spec fn record(st: TableView, k: Keyword, v: ValueView) -> TableView {
    let arg = arg_name(v, 1);
    let e = element_of(v);
    match k {
        Keyword::Import => TableView {
            imp_paths: st.imp_paths.insert(arg),
            imports: map_append(st.imports, arg, e),
            ..st
        },
        Keyword::Export => {
            let w = v.children[1];
            if w.children.len() > 1 {
                record_exports_upto(st, w, w.children.len() as int)
            } else {
                record_export(st, w.name->Some_0, w)
            }
        },
        Keyword::Deftype => TableView {
            def_types: st.def_types.insert(arg),
            types: map_append(st.types, arg, e),
            ..st
        },
        Keyword::Defsig => TableView {
            def_types: st.def_types.insert(arg),
            sigs: map_append(st.sigs, arg, e),
            ..st
        },
        Keyword::Defprim => TableView {
            def_values: st.def_values.insert(arg),
            prims: map_append(st.prims, arg, e),
            ..st
        },
        Keyword::Defsum => TableView {
            def_values: st.def_values.insert(arg),
            sums: map_append(st.sums, arg, e),
            ..st
        },
        Keyword::Defprod => TableView {
            def_values: st.def_values.insert(arg),
            prods: map_append(st.prods, arg, e),
            ..st
        },
        Keyword::Defun => TableView {
            def_values: st.def_values.insert(arg),
            funs: map_append(st.funs, arg, e),
            ..st
        },
        Keyword::Defattrs => TableView {
            def_attrs: st.def_attrs.insert(arg),
            attrs: map_append(st.attrs, arg, e),
            ..st
        },
    }
}

/// Whether `v` is a form headed by a keyword.
pub open spec fn is_declaration(v: ValueView) -> bool {
    v.typing matches Some(TypeView::App(ts)) && ts.len() > 0 && ts[0] is Builtin
}

/// The table after one more value: its file is recorded, and a form
/// headed by a keyword records what it declares; a head that is no
/// keyword is an `UnknownKeyword` error.
pub open spec fn table_step(st: TableView, v: ValueView) -> Result<TableView, ErrorView> {
    let st1 = match v.token.loc.file {
        Some(f) => TableView { files: st.files.insert(f), ..st },
        None => st,
    };
    if is_declaration(v) {
        match keyword_of(v.name->Some_0) {
            Some(k) => Ok(record(st1, k, v)),
            None => Err(ErrorView::Parsing(ErrorKind::UnknownKeyword, None)),
        }
    } else {
        Ok(st1)
    }
}

/// The table after the first `n` values.
pub open spec fn table_upto(vs: Seq<ValueView>, n: int) -> Result<TableView, ErrorView>
    decreases n,
{
    if n <= 0 {
        Ok(empty_table())
    } else {
        match table_upto(vs, n - 1) {
            Ok(st) => table_step(st, vs[n - 1]),
            Err(e) => Err(e),
        }
    }
}

/// The table of a sequence of values.
pub open spec fn table_of(vs: Seq<ValueView>) -> Result<TableView, ErrorView> {
    table_upto(vs, vs.len() as int)
}

/// The value `v` has what recording it reads: a form headed by a keyword
/// is named, and its declared names are there.
pub open spec fn entry_ready(v: ValueView) -> bool {
    match v.typing {
        Some(TypeView::App(ts)) => ts.len() > 0 && (ts[0] is Builtin ==> v.name is Some && match keyword_of(v.name->Some_0) {
            None => true,
            Some(Keyword::Export) => v.children.len() > 1 && {
                let w = v.children[1];
                if w.children.len() > 1 {
                    forall|i: int| 1 <= i < w.children.len() ==> (#[trigger] w.children[i]).name is Some
                } else {
                    w.name is Some
                }
            },
            Some(_) => v.children.len() > 1 && v.children[1].name is Some,
        }),
        _ => true,
    }
}

/// Every value that is reached before an error has what recording it reads.
pub open spec fn table_ready(vs: Seq<ValueView>) -> bool {
    forall|i: int| 0 <= i < vs.len() && table_upto(vs, i) is Ok ==> entry_ready(#[trigger] vs[i])
}

impl Default for SymbolTable {
    fn default() -> (t: Self)
        ensures
            t@ == empty_table(),
    {
        SymbolTable {
            files: StrSet::new(),
            imp_paths: StrSet::new(),
            def_types: StrSet::new(),
            def_values: StrSet::new(),
            def_attrs: StrSet::new(),
            exp_values: StrSet::new(),
            imports: ElementMap::new(),
            types: ElementMap::new(),
            sigs: ElementMap::new(),
            prims: ElementMap::new(),
            sums: ElementMap::new(),
            prods: ElementMap::new(),
            funs: ElementMap::new(),
            attrs: ElementMap::new(),
            exports: ElementMap::new(),
        }
    }
}

impl Clone for SymbolTable {
    fn clone(&self) -> (t: Self)
        ensures
            t@ == self@,
    {
        SymbolTable {
            files: self.files.clone(),
            imp_paths: self.imp_paths.clone(),
            def_types: self.def_types.clone(),
            def_values: self.def_values.clone(),
            def_attrs: self.def_attrs.clone(),
            exp_values: self.exp_values.clone(),
            imports: self.imports.clone(),
            types: self.types.clone(),
            sigs: self.sigs.clone(),
            prims: self.prims.clone(),
            sums: self.sums.clone(),
            prods: self.prods.clone(),
            funs: self.funs.clone(),
            attrs: self.attrs.clone(),
            exports: self.exports.clone(),
        }
    }
}

/// The name of a value that is known to have one.
fn name_of(v: &Value) -> (s: String)
    requires
        v@.name is Some,
    ensures
        s@ == v@.name->Some_0,
{
    match &v.name {
        Some(n) => n.clone(),
        None => String::new(),
    }
}

impl SymbolTable {
    /// The empty table.
    pub fn new() -> (t: Self)
        ensures
            t@ == empty_table(),
    {
        SymbolTable::default()
    }

    /// Records `arg` as declared by `v` in `names` and `entries`.
    fn declare(names: &mut StrSet, entries: &mut ElementMap, arg: String, v: &Value)
        ensures
            final(names)@ == old(names)@.insert(arg@),
            final(entries)@ == map_append(old(entries)@, arg@, element_of(v@)),
    {
        names.insert(arg.clone());
        entries.append(arg, STElement::from_value(v));
    }

    /// The table of `values`: the result is `table_of(values@)`. Each value
    /// read from a file records that file; each form headed by a keyword
    /// records the name it declares, imports or exports, with an entry for
    /// the form (for the elements of an exported form, an entry for that
    /// form). A form headed by a name that is no keyword gives an
    /// `UnknownKeyword` error.
    pub fn from_values(values: &Values) -> (r: Result<Self, Error>)
        requires
            table_ready(values@),
        ensures
            match r {
                Ok(t) => table_of(values@) == Ok::<TableView, ErrorView>(t@),
                Err(e) => table_of(values@) == Err::<TableView, ErrorView>(e@),
            },
            r matches Ok(t) ==> names_match_entries(t@) && entries_nonempty(t@),
    {
        proof {
            lemma_table_names_match_entries(values@);
            lemma_table_entries_nonempty(values@);
        }
        let mut st = SymbolTable::new();
        let ghost vs = values@;
        let n = values.0.len();
        proof {
            lemma_values_view(values.0@);
        }
        for i in 0..n
            invariant
                n == values.0@.len(),
                vs == values@,
                vs.len() == n,
                table_ready(vs),
                forall|j: int| 0 <= j < n ==> #[trigger] vs[j] == values.0@[j]@,
                table_upto(vs, i as int) == Ok::<TableView, ErrorView>(st@),
        {
            let value = &values.0[i];
            let ghost v = value@;
            assert(vs[i as int] == v);
            assert(entry_ready(v));
            let ghost st0 = st@;
            if let Some(file) = value.token.file() {
                st.files.insert(file);
            }
            let ghost st1 = st@;
            assert(st1 == match v.token.loc.file {
                Some(f) => TableView { files: st0.files.insert(f), ..st0 },
                None => st0,
            });
            if let Some(Type::App(types)) = &value.typing {
                proof {
                    lemma_types_view(types@);
                }
                if types.len() > 0 && matches!(types[0], Type::Builtin) {
                    assert(is_declaration(v));
                    let name = name_of(value);
                    let keyword = match Keyword::from_str(name.as_str()) {
                        Ok(k) => k,
                        Err(e) => {
                            proof {
                                lemma_table_error_stays(vs, i + 1, n as int);
                            }
                            return Err(e);
                        },
                    };
                    proof {
                        lemma_values_view(value.children@);
                    }
                    match keyword {
                        Keyword::Import => {
                            let arg = name_of(&value.children[1]);
                            Self::declare(&mut st.imp_paths, &mut st.imports, arg, value);
                        },
                        Keyword::Export => {
                            let w = &value.children[1];
                            proof {
                                lemma_values_view(w.children@);
                            }
                            if w.children.len() > 1 {
                                let len = w.children.len();
                                for idx in 1..len
                                    invariant
                                        len == w.children@.len(),
                                        len == w@.children.len(),
                                        w@ == v.children[1],
                                        entry_ready(v),
                                        is_declaration(v),
                                        v.name is Some,
                                        keyword_of(v.name->Some_0) == Some(Keyword::Export),
                                        forall|j: int| 0 <= j < len ==> #[trigger] w@.children[j] == w.children@[j]@,
                                        st@ == record_exports_upto(st1, w@, idx as int),
                                {
                                    assert(w@.children[idx as int].name is Some);
                                    let arg = name_of(&w.children[idx]);
                                    Self::declare(&mut st.exp_values, &mut st.exports, arg, w);
                                }
                            } else {
                                let arg = name_of(w);
                                Self::declare(&mut st.exp_values, &mut st.exports, arg, w);
                            }
                        },
                        Keyword::Deftype => {
                            let arg = name_of(&value.children[1]);
                            Self::declare(&mut st.def_types, &mut st.types, arg, value);
                        },
                        Keyword::Defsig => {
                            let arg = name_of(&value.children[1]);
                            Self::declare(&mut st.def_types, &mut st.sigs, arg, value);
                        },
                        Keyword::Defprim => {
                            let arg = name_of(&value.children[1]);
                            Self::declare(&mut st.def_values, &mut st.prims, arg, value);
                        },
                        Keyword::Defsum => {
                            let arg = name_of(&value.children[1]);
                            Self::declare(&mut st.def_values, &mut st.sums, arg, value);
                        },
                        Keyword::Defprod => {
                            let arg = name_of(&value.children[1]);
                            Self::declare(&mut st.def_values, &mut st.prods, arg, value);
                        },
                        Keyword::Defun => {
                            let arg = name_of(&value.children[1]);
                            Self::declare(&mut st.def_values, &mut st.funs, arg, value);
                        },
                        Keyword::Defattrs => {
                            let arg = name_of(&value.children[1]);
                            Self::declare(&mut st.def_attrs, &mut st.attrs, arg, value);
                        },
                    }
                } else {
                    assert(!is_declaration(v));
                }
            } else {
                assert(!is_declaration(v));
            }
        }
        Ok(st)
    }
}

/// Whether `v` has what recording it reads.
fn entry_ready_exec(v: &Value) -> (b: bool)
    ensures
        b == entry_ready(v@),
{
    proof {
        lemma_values_view(v.children@);
    }
    match &v.typing {
        Some(Type::App(ts)) => {
            proof {
                lemma_types_view(ts@);
            }
            if ts.len() == 0 {
                return false;
            }
            if !matches!(ts[0], Type::Builtin) {
                return true;
            }
            let name = match &v.name {
                Some(n) => n,
                None => {
                    return false;
                },
            };
            match Keyword::from_str(name.as_str()) {
                Err(_) => true,
                Ok(Keyword::Export) => {
                    if v.children.len() <= 1 {
                        return false;
                    }
                    let w = &v.children[1];
                    proof {
                        lemma_values_view(w.children@);
                    }
                    let len = w.children.len();
                    if len > 1 {
                        let mut idx: usize = 1;
                        #[verifier::loop_isolation(false)]
                        while idx < len
                            invariant
                                1 <= idx <= len,
                                len == w.children@.len(),
                                len == w@.children.len(),
                                forall|j: int| 0 <= j < len ==> #[trigger] w@.children[j] == w.children@[j]@,
                                forall|j: int| 1 <= j < idx ==> (#[trigger] w@.children[j]).name is Some,
                            decreases len - idx,
                        {
                            if w.children[idx].name.is_none() {
                                assert(w@.children[idx as int] == w.children@[idx as int]@);
                                assert(v@.children[1] == w@);
                                assert(!(v@.children[1].children[idx as int].name is Some));
                                return false;
                            }
                            idx = idx + 1;
                        }
                        true
                    } else {
                        w.name.is_some()
                    }
                },
                Ok(_) => v.children.len() > 1 && v.children[1].name.is_some(),
            }
        },
        _ => true,
    }
}

/// Whether `values` may be given to `SymbolTable::from_values`: every value
/// that recording reaches before an error has what recording it reads.
pub fn table_ready_exec(values: &Values) -> (b: bool)
    ensures
        b == table_ready(values@),
{
    let ghost vs = values@;
    let n = values.0.len();
    proof {
        lemma_values_view(values.0@);
    }
    let mut i: usize = 0;
    while i < n
        invariant
            n == values.0@.len(),
            vs == values@,
            vs.len() == n,
            i <= n,
            forall|j: int| 0 <= j < n ==> #[trigger] vs[j] == values.0@[j]@,
            table_upto(vs, i as int) is Ok,
            forall|j: int| 0 <= j < i && table_upto(vs, j) is Ok ==> entry_ready(#[trigger] vs[j]),
        decreases n - i,
    {
        let value = &values.0[i];
        assert(vs[i as int] == value@);
        if !entry_ready_exec(value) {
            return false;
        }
        let mut fails = false;
        if let Some(Type::App(ts)) = &value.typing {
            proof {
                lemma_types_view(ts@);
            }
            if ts.len() > 0 && matches!(ts[0], Type::Builtin) {
                let name = name_of(value);
                fails = Keyword::from_str(name.as_str()).is_err();
            }
        }
        assert(fails == (is_declaration(vs[i as int]) && keyword_of(vs[i as int].name->Some_0) is None));
        if fails {
            proof {
                assert(table_upto(vs, i + 1) is Err);
                assert forall|j: int| 0 <= j < n && table_upto(vs, j) is Ok implies entry_ready(#[trigger] vs[j]) by {
                    if j > i {
                        lemma_table_error_stays(vs, i + 1, j);
                    }
                }
            }
            return true;
        }
        i = i + 1;
    }
    true
}

/// Once recording fails, later values do not change the error.
proof fn lemma_table_error_stays(vs: Seq<ValueView>, k: int, n: int)
    requires
        0 <= k <= n,
        table_upto(vs, k) is Err,
    ensures
        table_upto(vs, n) == table_upto(vs, k),
    decreases n - k,
{
    if k < n {
        lemma_table_error_stays(vs, k, n - 1);
    }
}

/// The name sets of `t` are the names its entry maps hold.
pub open spec fn names_match_entries(t: TableView) -> bool {
    &&& t.imp_paths == t.imports.dom()
    &&& t.exp_values == t.exports.dom()
    &&& t.def_attrs == t.attrs.dom()
    &&& t.def_types == t.types.dom().union(t.sigs.dom())
    &&& t.def_values == t.prims.dom().union(t.sums.dom()).union(t.prods.dom()).union(
        t.funs.dom(),
    )
}

proof fn lemma_record_exports_names(st: TableView, w: ValueView, n: int)
    requires
        names_match_entries(st),
    ensures
        names_match_entries(record_exports_upto(st, w, n)),
    decreases n,
{
    if n > 1 {
        lemma_record_exports_names(st, w, n - 1);
        let s0 = record_exports_upto(st, w, n - 1);
        let arg = arg_name(w, n - 1);
        assert(map_append(s0.exports, arg, element_of(w)).dom() =~= s0.exports.dom().insert(arg));
    }
}

proof fn lemma_table_upto_names(vs: Seq<ValueView>, n: int)
    ensures
        table_upto(vs, n) matches Ok(t) ==> names_match_entries(t),
    decreases n,
{
    if n <= 0 {
        assert(names_match_entries(empty_table())) by {
            let t = empty_table();
            assert(t.imports.dom() =~= Set::<Seq<char>>::empty());
            assert(t.exports.dom() =~= Set::<Seq<char>>::empty());
            assert(t.attrs.dom() =~= Set::<Seq<char>>::empty());
            assert(t.types.dom().union(t.sigs.dom()) =~= Set::<Seq<char>>::empty());
            assert(t.prims.dom().union(t.sums.dom()).union(t.prods.dom()).union(t.funs.dom())
                =~= Set::<Seq<char>>::empty());
        }
    } else {
        lemma_table_upto_names(vs, n - 1);
        if let Ok(st) = table_upto(vs, n - 1) {
            let v = vs[n - 1];
            let st1 = match v.token.loc.file {
                Some(f) => TableView { files: st.files.insert(f), ..st },
                None => st,
            };
            assert(names_match_entries(st1));
            if is_declaration(v) {
                if let Some(k) = keyword_of(v.name->Some_0) {
                    let arg = arg_name(v, 1);
                    let e = element_of(v);
                    match k {
                        Keyword::Export => {
                            let w = v.children[1];
                            if w.children.len() > 1 {
                                lemma_record_exports_names(st1, w, w.children.len() as int);
                            } else {
                                assert(map_append(st1.exports, w.name->Some_0, element_of(w)).dom()
                                    =~= st1.exports.dom().insert(w.name->Some_0));
                            }
                        },
                        Keyword::Import => {
                            assert(map_append(st1.imports, arg, e).dom() =~= st1.imports.dom().insert(arg));
                        },
                        Keyword::Defattrs => {
                            assert(map_append(st1.attrs, arg, e).dom() =~= st1.attrs.dom().insert(arg));
                        },
                        Keyword::Deftype => {
                            assert(map_append(st1.types, arg, e).dom().union(st1.sigs.dom())
                                =~= st1.def_types.insert(arg));
                        },
                        Keyword::Defsig => {
                            assert(st1.types.dom().union(map_append(st1.sigs, arg, e).dom())
                                =~= st1.def_types.insert(arg));
                        },
                        Keyword::Defprim => {
                            let t = record(st1, k, v);
                            assert(t.prims.dom().union(t.sums.dom()).union(t.prods.dom()).union(
                                t.funs.dom(),
                            ) =~= st1.def_values.insert(arg));
                        },
                        Keyword::Defsum => {
                            let t = record(st1, k, v);
                            assert(t.prims.dom().union(t.sums.dom()).union(t.prods.dom()).union(
                                t.funs.dom(),
                            ) =~= st1.def_values.insert(arg));
                        },
                        Keyword::Defprod => {
                            let t = record(st1, k, v);
                            assert(t.prims.dom().union(t.sums.dom()).union(t.prods.dom()).union(
                                t.funs.dom(),
                            ) =~= st1.def_values.insert(arg));
                        },
                        Keyword::Defun => {
                            let t = record(st1, k, v);
                            assert(t.prims.dom().union(t.sums.dom()).union(t.prods.dom()).union(
                                t.funs.dom(),
                            ) =~= st1.def_values.insert(arg));
                        },
                    }
                }
            }
        }
    }
}

/// In a table built from values, the imported paths are the keys of the
/// imports, the exported names the keys of the exports, the attribute names
/// the keys of the attributes, the type names the keys of the types and
/// signatures, and the value names the keys of the primitives, sums,
/// products and functions.
pub proof fn lemma_table_names_match_entries(vs: Seq<ValueView>)
    ensures
        table_of(vs) matches Ok(t) ==> names_match_entries(t),
{
    lemma_table_upto_names(vs, vs.len() as int);
}

// ---------------------------------------------------------------------------
// No empty entry lists
// ---------------------------------------------------------------------------

/// Every name in `m` has at least one entry.
pub open spec fn map_nonempty(m: Map<Seq<char>, Seq<STElementView>>) -> bool {
    forall|k: Seq<char>| #[trigger] m.contains_key(k) ==> m[k].len() > 0
}

/// No entry map of `t` holds an empty list.
pub open spec fn entries_nonempty(t: TableView) -> bool {
    &&& map_nonempty(t.imports)
    &&& map_nonempty(t.types)
    &&& map_nonempty(t.sigs)
    &&& map_nonempty(t.prims)
    &&& map_nonempty(t.sums)
    &&& map_nonempty(t.prods)
    &&& map_nonempty(t.funs)
    &&& map_nonempty(t.attrs)
    &&& map_nonempty(t.exports)
}

proof fn lemma_map_append_nonempty(m: Map<Seq<char>, Seq<STElementView>>, k: Seq<char>, e: STElementView)
    requires
        map_nonempty(m),
    ensures
        map_nonempty(map_append(m, k, e)),
{
}

proof fn lemma_record_exports_nonempty(st: TableView, w: ValueView, n: int)
    requires
        entries_nonempty(st),
    ensures
        entries_nonempty(record_exports_upto(st, w, n)),
    decreases n,
{
    if n > 1 {
        lemma_record_exports_nonempty(st, w, n - 1);
        let s0 = record_exports_upto(st, w, n - 1);
        lemma_map_append_nonempty(s0.exports, arg_name(w, n - 1), element_of(w));
    }
}

proof fn lemma_table_upto_nonempty(vs: Seq<ValueView>, n: int)
    ensures
        table_upto(vs, n) matches Ok(t) ==> entries_nonempty(t),
    decreases n,
{
    if n > 0 {
        lemma_table_upto_nonempty(vs, n - 1);
        if let Ok(st) = table_upto(vs, n - 1) {
            let v = vs[n - 1];
            let st1 = match v.token.loc.file {
                Some(f) => TableView { files: st.files.insert(f), ..st },
                None => st,
            };
            if is_declaration(v) {
                if let Some(k) = keyword_of(v.name->Some_0) {
                    let arg = arg_name(v, 1);
                    let e = element_of(v);
                    lemma_map_append_nonempty(st1.imports, arg, e);
                    lemma_map_append_nonempty(st1.types, arg, e);
                    lemma_map_append_nonempty(st1.sigs, arg, e);
                    lemma_map_append_nonempty(st1.prims, arg, e);
                    lemma_map_append_nonempty(st1.sums, arg, e);
                    lemma_map_append_nonempty(st1.prods, arg, e);
                    lemma_map_append_nonempty(st1.funs, arg, e);
                    lemma_map_append_nonempty(st1.attrs, arg, e);
                    let w = v.children[1];
                    lemma_map_append_nonempty(st1.exports, w.name->Some_0, element_of(w));
                    lemma_record_exports_nonempty(st1, w, w.children.len() as int);
                }
            }
        }
    }
}

/// In a table built from values, every name has at least one entry.
pub proof fn lemma_table_entries_nonempty(vs: Seq<ValueView>)
    ensures
        table_of(vs) matches Ok(t) ==> entries_nonempty(t),
{
    lemma_table_upto_nonempty(vs, vs.len() as int);
}

// ---------------------------------------------------------------------------
// Tables of joined value sequences
// ---------------------------------------------------------------------------

/// The entries of `k` in `m`; none when `k` is absent.
pub open spec fn entries_of(m: Map<Seq<char>, Seq<STElementView>>, k: Seq<char>) -> Seq<STElementView> {
    if m.contains_key(k) {
        m[k]
    } else {
        Seq::empty()
    }
}

/// The map whose entries for each name are those of `a` followed by those of `b`.
pub open spec fn join_maps(
    a: Map<Seq<char>, Seq<STElementView>>,
    b: Map<Seq<char>, Seq<STElementView>>,
) -> Map<Seq<char>, Seq<STElementView>> {
    Map::new(
        |k: Seq<char>| a.contains_key(k) || b.contains_key(k),
        |k: Seq<char>| entries_of(a, k) + entries_of(b, k),
    )
}

/// The table holding what `a` holds and then what `b` holds.
pub open spec fn join_tables(a: TableView, b: TableView) -> TableView {
    TableView {
        files: a.files.union(b.files),
        imp_paths: a.imp_paths.union(b.imp_paths),
        def_types: a.def_types.union(b.def_types),
        def_values: a.def_values.union(b.def_values),
        def_attrs: a.def_attrs.union(b.def_attrs),
        exp_values: a.exp_values.union(b.exp_values),
        imports: join_maps(a.imports, b.imports),
        types: join_maps(a.types, b.types),
        sigs: join_maps(a.sigs, b.sigs),
        prims: join_maps(a.prims, b.prims),
        sums: join_maps(a.sums, b.sums),
        prods: join_maps(a.prods, b.prods),
        funs: join_maps(a.funs, b.funs),
        attrs: join_maps(a.attrs, b.attrs),
        exports: join_maps(a.exports, b.exports),
    }
}

/// The table after the first `n` values, starting from `st`.
pub open spec fn table_run(st: TableView, vs: Seq<ValueView>, n: int) -> Result<TableView, ErrorView>
    decreases n,
{
    if n <= 0 {
        Ok(st)
    } else {
        match table_run(st, vs, n - 1) {
            Ok(t) => table_step(t, vs[n - 1]),
            Err(e) => Err(e),
        }
    }
}

pub open spec fn join_result(a: TableView, r: Result<TableView, ErrorView>) -> Result<TableView, ErrorView> {
    match r {
        Ok(b) => Ok(join_tables(a, b)),
        Err(e) => Err(e),
    }
}

proof fn lemma_map_append_join(
    a: Map<Seq<char>, Seq<STElementView>>,
    b: Map<Seq<char>, Seq<STElementView>>,
    k: Seq<char>,
    e: STElementView,
)
    ensures
        map_append(join_maps(a, b), k, e) == join_maps(a, map_append(b, k, e)),
{
    let l = map_append(join_maps(a, b), k, e);
    let r = join_maps(a, map_append(b, k, e));
    assert forall|x: Seq<char>| #[trigger] l.contains_key(x) implies l[x] == r[x] by {
        if x == k {
            assert(entries_of(a, k) + entries_of(b, k).push(e) =~= (entries_of(a, k) + entries_of(
                b,
                k,
            )).push(e));
            assert(Seq::<STElementView>::empty().push(e) =~= seq![e]);
            if !join_maps(a, b).contains_key(k) {
                assert(entries_of(a, k) =~= Seq::<STElementView>::empty());
                assert(entries_of(b, k) =~= Seq::<STElementView>::empty());
                assert(Seq::<STElementView>::empty() + seq![e] =~= seq![e]);
            }
        }
    }
    assert(l.dom() =~= r.dom());
    assert(l =~= r);
}

proof fn lemma_record_exports_join(a: TableView, b: TableView, w: ValueView, n: int)
    ensures
        record_exports_upto(join_tables(a, b), w, n) == join_tables(a, record_exports_upto(b, w, n)),
    decreases n,
{
    if n > 1 {
        lemma_record_exports_join(a, b, w, n - 1);
        let b0 = record_exports_upto(b, w, n - 1);
        let arg = arg_name(w, n - 1);
        lemma_map_append_join(a.exports, b0.exports, arg, element_of(w));
        assert(a.exp_values.union(b0.exp_values).insert(arg) =~= a.exp_values.union(
            b0.exp_values.insert(arg),
        ));
    }
}

proof fn lemma_step_join(a: TableView, b: TableView, v: ValueView)
    ensures
        table_step(join_tables(a, b), v) == join_result(a, table_step(b, v)),
{
    let j = join_tables(a, b);
    let j1 = match v.token.loc.file {
        Some(f) => TableView { files: j.files.insert(f), ..j },
        None => j,
    };
    let b1 = match v.token.loc.file {
        Some(f) => TableView { files: b.files.insert(f), ..b },
        None => b,
    };
    if let Some(f) = v.token.loc.file {
        assert(a.files.union(b.files).insert(f) =~= a.files.union(b.files.insert(f)));
    }
    assert(j1 == join_tables(a, b1));
    if is_declaration(v) {
        if let Some(k) = keyword_of(v.name->Some_0) {
            let arg = arg_name(v, 1);
            let e = element_of(v);
            match k {
                Keyword::Export => {
                    let w = v.children[1];
                    if w.children.len() > 1 {
                        lemma_record_exports_join(a, b1, w, w.children.len() as int);
                    } else {
                        let x = w.name->Some_0;
                        lemma_map_append_join(a.exports, b1.exports, x, element_of(w));
                        assert(a.exp_values.union(b1.exp_values).insert(x) =~= a.exp_values.union(
                            b1.exp_values.insert(x),
                        ));
                    }
                },
                Keyword::Import => {
                    lemma_map_append_join(a.imports, b1.imports, arg, e);
                    assert(a.imp_paths.union(b1.imp_paths).insert(arg) =~= a.imp_paths.union(
                        b1.imp_paths.insert(arg),
                    ));
                },
                Keyword::Deftype => {
                    lemma_map_append_join(a.types, b1.types, arg, e);
                    assert(a.def_types.union(b1.def_types).insert(arg) =~= a.def_types.union(
                        b1.def_types.insert(arg),
                    ));
                },
                Keyword::Defsig => {
                    lemma_map_append_join(a.sigs, b1.sigs, arg, e);
                    assert(a.def_types.union(b1.def_types).insert(arg) =~= a.def_types.union(
                        b1.def_types.insert(arg),
                    ));
                },
                Keyword::Defprim => {
                    lemma_map_append_join(a.prims, b1.prims, arg, e);
                    assert(a.def_values.union(b1.def_values).insert(arg) =~= a.def_values.union(
                        b1.def_values.insert(arg),
                    ));
                },
                Keyword::Defsum => {
                    lemma_map_append_join(a.sums, b1.sums, arg, e);
                    assert(a.def_values.union(b1.def_values).insert(arg) =~= a.def_values.union(
                        b1.def_values.insert(arg),
                    ));
                },
                Keyword::Defprod => {
                    lemma_map_append_join(a.prods, b1.prods, arg, e);
                    assert(a.def_values.union(b1.def_values).insert(arg) =~= a.def_values.union(
                        b1.def_values.insert(arg),
                    ));
                },
                Keyword::Defun => {
                    lemma_map_append_join(a.funs, b1.funs, arg, e);
                    assert(a.def_values.union(b1.def_values).insert(arg) =~= a.def_values.union(
                        b1.def_values.insert(arg),
                    ));
                },
                Keyword::Defattrs => {
                    lemma_map_append_join(a.attrs, b1.attrs, arg, e);
                    assert(a.def_attrs.union(b1.def_attrs).insert(arg) =~= a.def_attrs.union(
                        b1.def_attrs.insert(arg),
                    ));
                },
            }
        }
    }
}

proof fn lemma_run_join(a: TableView, vs: Seq<ValueView>, n: int)
    ensures
        table_run(a, vs, n) == join_result(a, table_run(empty_table(), vs, n)),
    decreases n,
{
    if n <= 0 {
        let e = empty_table();
        assert(join_tables(a, e).imports =~= a.imports);
        assert(join_tables(a, e).types =~= a.types);
        assert(join_tables(a, e).sigs =~= a.sigs);
        assert(join_tables(a, e).prims =~= a.prims);
        assert(join_tables(a, e).sums =~= a.sums);
        assert(join_tables(a, e).prods =~= a.prods);
        assert(join_tables(a, e).funs =~= a.funs);
        assert(join_tables(a, e).attrs =~= a.attrs);
        assert(join_tables(a, e).exports =~= a.exports);
        assert(join_tables(a, e).files =~= a.files);
        assert(join_tables(a, e).imp_paths =~= a.imp_paths);
        assert(join_tables(a, e).def_types =~= a.def_types);
        assert(join_tables(a, e).def_values =~= a.def_values);
        assert(join_tables(a, e).def_attrs =~= a.def_attrs);
        assert(join_tables(a, e).exp_values =~= a.exp_values);
        assert(join_tables(a, e) == a);
    } else {
        lemma_run_join(a, vs, n - 1);
        if let Ok(b) = table_run(empty_table(), vs, n - 1) {
            lemma_step_join(a, b, vs[n - 1]);
        }
    }
}

proof fn lemma_upto_is_run(vs: Seq<ValueView>, n: int)
    ensures
        table_upto(vs, n) == table_run(empty_table(), vs, n),
    decreases n,
{
    if n > 0 {
        lemma_upto_is_run(vs, n - 1);
    }
}

proof fn lemma_upto_prefix(a: Seq<ValueView>, b: Seq<ValueView>, n: int)
    requires
        n <= a.len(),
    ensures
        table_upto(a + b, n) == table_upto(a, n),
    decreases n,
{
    if n > 0 {
        lemma_upto_prefix(a, b, n - 1);
        assert((a + b)[n - 1] == a[n - 1]);
    }
}

proof fn lemma_upto_continue(a: Seq<ValueView>, b: Seq<ValueView>, sa: TableView, k: int)
    requires
        0 <= k <= b.len(),
        table_upto(a, a.len() as int) == Ok::<TableView, ErrorView>(sa),
    ensures
        table_upto(a + b, a.len() + k) == table_run(sa, b, k),
    decreases k,
{
    if k == 0 {
        lemma_upto_prefix(a, b, a.len() as int);
    } else {
        lemma_upto_continue(a, b, sa, k - 1);
        assert((a + b)[a.len() + k - 1] == b[k - 1]);
    }
}

/// The table of the values of `a` followed by those of `b` holds, in each
/// name set, the names of both tables, and, for each name, the entries of
/// `a`'s table followed by those of `b`'s; and the table of no values is
/// the empty table.
pub proof fn lemma_table_of_join(a: Seq<ValueView>, b: Seq<ValueView>)
    ensures
        table_of(Seq::<ValueView>::empty()) == Ok::<TableView, ErrorView>(empty_table()),
        table_of(a) matches Ok(sa) ==> table_of(b) matches Ok(sb) ==> table_of(a + b) == Ok::<
            TableView,
            ErrorView,
        >(join_tables(sa, sb)),
{
    if let Ok(sa) = table_of(a) {
        if let Ok(sb) = table_of(b) {
            lemma_upto_continue(a, b, sa, b.len() as int);
            lemma_run_join(sa, b, b.len() as int);
            lemma_upto_is_run(b, b.len() as int);
            assert(a.len() + b.len() == (a + b).len());
        }
    }
}

// ---------------------------------------------------------------------------
// Where each declaration is recorded
// ---------------------------------------------------------------------------

/// `m` holds `e` among the entries of `k`.
pub open spec fn has_entry(m: Map<Seq<char>, Seq<STElementView>>, k: Seq<char>, e: STElementView) -> bool {
    m.contains_key(k) && m[k].contains(e)
}

/// Every entry of `a` is still in `b`, under the same name and in the same map.
pub open spec fn table_keeps(a: TableView, b: TableView) -> bool {
    &&& forall|k: Seq<char>, e: STElementView| #[trigger] has_entry(a.imports, k, e) ==> has_entry(b.imports, k, e)
    &&& forall|k: Seq<char>, e: STElementView| #[trigger] has_entry(a.types, k, e) ==> has_entry(b.types, k, e)
    &&& forall|k: Seq<char>, e: STElementView| #[trigger] has_entry(a.sigs, k, e) ==> has_entry(b.sigs, k, e)
    &&& forall|k: Seq<char>, e: STElementView| #[trigger] has_entry(a.prims, k, e) ==> has_entry(b.prims, k, e)
    &&& forall|k: Seq<char>, e: STElementView| #[trigger] has_entry(a.sums, k, e) ==> has_entry(b.sums, k, e)
    &&& forall|k: Seq<char>, e: STElementView| #[trigger] has_entry(a.prods, k, e) ==> has_entry(b.prods, k, e)
    &&& forall|k: Seq<char>, e: STElementView| #[trigger] has_entry(a.funs, k, e) ==> has_entry(b.funs, k, e)
    &&& forall|k: Seq<char>, e: STElementView| #[trigger] has_entry(a.attrs, k, e) ==> has_entry(b.attrs, k, e)
    &&& forall|k: Seq<char>, e: STElementView| #[trigger] has_entry(a.exports, k, e) ==> has_entry(b.exports, k, e)
    &&& a.imp_paths.subset_of(b.imp_paths)
    &&& a.def_types.subset_of(b.def_types)
    &&& a.def_values.subset_of(b.def_values)
    &&& a.def_attrs.subset_of(b.def_attrs)
    &&& a.exp_values.subset_of(b.exp_values)
}

proof fn lemma_append_has(m: Map<Seq<char>, Seq<STElementView>>, k: Seq<char>, x: STElementView)
    ensures
        has_entry(map_append(m, k, x), k, x),
        forall|k2: Seq<char>, e: STElementView| #[trigger] has_entry(m, k2, e) ==> has_entry(map_append(m, k, x), k2, e),
{
    let m2 = map_append(m, k, x);
    assert(m2[k][m2[k].len() - 1] == x);
    assert forall|k2: Seq<char>, e: STElementView| #[trigger] has_entry(m, k2, e) implies has_entry(m2, k2, e) by {
        if k2 == k {
            let j = choose|j: int| 0 <= j < m[k].len() && m[k][j] == e;
            assert(m2[k][j] == e);
        }
    }
}

proof fn lemma_table_keeps_refl(a: TableView)
    ensures
        table_keeps(a, a),
{
}

proof fn lemma_table_keeps_trans(a: TableView, b: TableView, c: TableView)
    requires
        table_keeps(a, b),
        table_keeps(b, c),
    ensures
        table_keeps(a, c),
{
}

proof fn lemma_exports_keep(st: TableView, w: ValueView, n: int)
    ensures
        table_keeps(st, record_exports_upto(st, w, n)),
        forall|q: int| 1 <= q < n ==> {
            &&& record_exports_upto(st, w, n).exp_values.contains(#[trigger] arg_name(w, q))
            &&& has_entry(record_exports_upto(st, w, n).exports, arg_name(w, q), element_of(w))
        },
    decreases n,
{
    if n <= 1 {
        lemma_table_keeps_refl(st);
    } else {
        lemma_exports_keep(st, w, n - 1);
        let s0 = record_exports_upto(st, w, n - 1);
        let s1 = record_exports_upto(st, w, n);
        lemma_append_has(s0.exports, arg_name(w, n - 1), element_of(w));
        assert(table_keeps(s0, s1));
        lemma_table_keeps_trans(st, s0, s1);
    }
}

proof fn lemma_step_keeps(st: TableView, v: ValueView)
    ensures
        table_step(st, v) matches Ok(t) ==> table_keeps(st, t),
{
    let st1 = match v.token.loc.file {
        Some(f) => TableView { files: st.files.insert(f), ..st },
        None => st,
    };
    assert(table_keeps(st, st1));
    if is_declaration(v) {
        if let Some(k) = keyword_of(v.name->Some_0) {
            let arg = arg_name(v, 1);
            let e = element_of(v);
            let t = record(st1, k, v);
            match k {
                Keyword::Export => {
                    let w = v.children[1];
                    if w.children.len() > 1 {
                        lemma_exports_keep(st1, w, w.children.len() as int);
                    } else {
                        lemma_append_has(st1.exports, w.name->Some_0, element_of(w));
                    }
                },
                Keyword::Import => lemma_append_has(st1.imports, arg, e),
                Keyword::Deftype => lemma_append_has(st1.types, arg, e),
                Keyword::Defsig => lemma_append_has(st1.sigs, arg, e),
                Keyword::Defprim => lemma_append_has(st1.prims, arg, e),
                Keyword::Defsum => lemma_append_has(st1.sums, arg, e),
                Keyword::Defprod => lemma_append_has(st1.prods, arg, e),
                Keyword::Defun => lemma_append_has(st1.funs, arg, e),
                Keyword::Defattrs => lemma_append_has(st1.attrs, arg, e),
            }
            lemma_table_keeps_trans(st, st1, t);
        }
    }
}

proof fn lemma_upto_keeps(vs: Seq<ValueView>, i: int, n: int)
    requires
        0 <= i <= n,
        table_upto(vs, n) is Ok,
    ensures
        table_upto(vs, i) is Ok,
        table_keeps(table_upto(vs, i)->Ok_0, table_upto(vs, n)->Ok_0),
    decreases n - i,
{
    if table_upto(vs, i) is Err {
        lemma_table_error_stays(vs, i, n);
    }
    if i == n {
        lemma_table_keeps_refl(table_upto(vs, n)->Ok_0);
    } else {
        lemma_upto_keeps(vs, i + 1, n);
        lemma_step_keeps(table_upto(vs, i)->Ok_0, vs[i]);
        lemma_table_keeps_trans(
            table_upto(vs, i)->Ok_0,
            table_upto(vs, i + 1)->Ok_0,
            table_upto(vs, n)->Ok_0,
        );
    }
}

/// `v` is a form headed by the keyword `k`.
pub open spec fn headed_by(v: ValueView, k: Keyword) -> bool {
    &&& v.typing matches Some(TypeView::App(ts))
    &&& ts.len() > 0
    &&& ts[0] is Builtin
    &&& v.name == Some(spelling(k))
}

/// In a table built from values, a form `(import n ...)`, `(deftype n ...)`,
/// `(defsig n ...)`, `(defprim n ...)`, `(defsum n ...)`, `(defprod n ...)`,
/// `(defun n ...)` or `(defattrs n ...)` puts `n` in its name set and,
/// among the entries of `n` in its map, an entry for the whole form: named
/// by the keyword, with the form as its value and the form's file.
pub proof fn lemma_declarations_recorded(vs: Seq<ValueView>, i: int, k: Keyword)
    requires
        table_of(vs) is Ok,
        0 <= i < vs.len(),
        k != Keyword::Export,
        headed_by(vs[i], k),
        vs[i].children.len() > 1,
        vs[i].children[1].name is Some,
    ensures
        ({
            let t = table_of(vs)->Ok_0;
            let n = vs[i].children[1].name->Some_0;
            let e = STElementView { name: vs[i].name, value: vs[i], file: vs[i].token.loc.file };
            match k {
                Keyword::Import => t.imp_paths.contains(n) && has_entry(t.imports, n, e),
                Keyword::Deftype => t.def_types.contains(n) && has_entry(t.types, n, e),
                Keyword::Defsig => t.def_types.contains(n) && has_entry(t.sigs, n, e),
                Keyword::Defprim => t.def_values.contains(n) && has_entry(t.prims, n, e),
                Keyword::Defsum => t.def_values.contains(n) && has_entry(t.sums, n, e),
                Keyword::Defprod => t.def_values.contains(n) && has_entry(t.prods, n, e),
                Keyword::Defun => t.def_values.contains(n) && has_entry(t.funs, n, e),
                Keyword::Defattrs => t.def_attrs.contains(n) && has_entry(t.attrs, n, e),
                Keyword::Export => true,
            }
        }),
{
    let n_all = vs.len() as int;
    lemma_upto_keeps(vs, i + 1, n_all);
    lemma_upto_keeps(vs, i, n_all);
    lemma_keyword_of_spelling(k);
    let v = vs[i];
    let st = table_upto(vs, i)->Ok_0;
    let st1 = match v.token.loc.file {
        Some(f) => TableView { files: st.files.insert(f), ..st },
        None => st,
    };
    assert(is_declaration(v));
    let arg = arg_name(v, 1);
    let e = element_of(v);
    match k {
        Keyword::Import => lemma_append_has(st1.imports, arg, e),
        Keyword::Deftype => lemma_append_has(st1.types, arg, e),
        Keyword::Defsig => lemma_append_has(st1.sigs, arg, e),
        Keyword::Defprim => lemma_append_has(st1.prims, arg, e),
        Keyword::Defsum => lemma_append_has(st1.sums, arg, e),
        Keyword::Defprod => lemma_append_has(st1.prods, arg, e),
        Keyword::Defun => lemma_append_has(st1.funs, arg, e),
        Keyword::Defattrs => lemma_append_has(st1.attrs, arg, e),
        Keyword::Export => {},
    }
    assert(table_upto(vs, i + 1) == Ok::<TableView, ErrorView>(record(st1, k, v)));
    let r = record(st1, k, v);
    let t = table_upto(vs, n_all)->Ok_0;
    assert(table_keeps(r, t));
    match k {
        Keyword::Import => {
            assert(has_entry(r.imports, arg, e));
            assert(r.imp_paths.contains(arg));
        },
        Keyword::Deftype => {
            assert(has_entry(r.types, arg, e));
            assert(r.def_types.contains(arg));
        },
        Keyword::Defsig => {
            assert(has_entry(r.sigs, arg, e));
            assert(r.def_types.contains(arg));
        },
        Keyword::Defprim => {
            assert(has_entry(r.prims, arg, e));
            assert(r.def_values.contains(arg));
        },
        Keyword::Defsum => {
            assert(has_entry(r.sums, arg, e));
            assert(r.def_values.contains(arg));
        },
        Keyword::Defprod => {
            assert(has_entry(r.prods, arg, e));
            assert(r.def_values.contains(arg));
        },
        Keyword::Defun => {
            assert(has_entry(r.funs, arg, e));
            assert(r.def_values.contains(arg));
        },
        Keyword::Defattrs => {
            assert(has_entry(r.attrs, arg, e));
            assert(r.def_attrs.contains(arg));
        },
        Keyword::Export => {},
    }
}

/// In a table built from values, a form `(export w)` exports what `w`
/// names: when `w` is a form with elements after its head, each of those
/// elements' names; otherwise the name of `w` itself. Each exported name
/// gets an entry for `w` (not for the export form): named as `w`, with `w`
/// as its value and `w`'s file.
pub proof fn lemma_exports_recorded(vs: Seq<ValueView>, i: int)
    requires
        table_of(vs) is Ok,
        0 <= i < vs.len(),
        headed_by(vs[i], Keyword::Export),
        vs[i].children.len() > 1,
    ensures
        ({
            let t = table_of(vs)->Ok_0;
            let w = vs[i].children[1];
            let e = STElementView { name: w.name, value: w, file: w.token.loc.file };
            &&& (w.children.len() <= 1 && w.name is Some) ==> t.exp_values.contains(w.name->Some_0)
                && has_entry(t.exports, w.name->Some_0, e)
            &&& forall|q: int|
                1 <= q < w.children.len() && (#[trigger] w.children[q]).name is Some
                    ==> t.exp_values.contains(w.children[q].name->Some_0) && has_entry(
                    t.exports,
                    w.children[q].name->Some_0,
                    e,
                )
        }),
{
    let n_all = vs.len() as int;
    lemma_upto_keeps(vs, i + 1, n_all);
    lemma_upto_keeps(vs, i, n_all);
    lemma_keyword_of_spelling(Keyword::Export);
    let v = vs[i];
    let st = table_upto(vs, i)->Ok_0;
    let st1 = match v.token.loc.file {
        Some(f) => TableView { files: st.files.insert(f), ..st },
        None => st,
    };
    assert(is_declaration(v));
    let w = v.children[1];
    if w.children.len() > 1 {
        lemma_exports_keep(st1, w, w.children.len() as int);
        assert forall|q: int| 1 <= q < w.children.len() implies arg_name(w, q) == (#[trigger] w.children[q]).name->Some_0 by {}
    } else {
        lemma_append_has(st1.exports, w.name->Some_0, element_of(w));
    }
    assert(table_upto(vs, i + 1) == Ok::<TableView, ErrorView>(record(st1, Keyword::Export, v)));
    let r = record(st1, Keyword::Export, v);
    let t = table_upto(vs, n_all)->Ok_0;
    assert(table_keeps(r, t));
    let e = element_of(w);
    if w.children.len() > 1 {
        assert forall|q: int|
            1 <= q < w.children.len() && (#[trigger] w.children[q]).name is Some implies t.exp_values.contains(
            w.children[q].name->Some_0,
        ) && has_entry(t.exports, w.children[q].name->Some_0, e) by {
            assert(arg_name(w, q) == w.children[q].name->Some_0);
            assert(r.exp_values.contains(arg_name(w, q)));
            assert(has_entry(r.exports, arg_name(w, q), e));
        }
    } else if w.name is Some {
        assert(has_entry(r.exports, w.name->Some_0, e));
        assert(r.exp_values.contains(w.name->Some_0));
    }
}

} // verus!
