//! Analysis of a linked executable: symbols become functions keyed by
//! address, and the `.stack_sizes` records give their stack usage.
use vstd::prelude::*;
use std::collections::BTreeMap;
use crate::error::AnalysisError;
use crate::function::{
    has, insert_sorted, lemma_sorted_unique, strictly_sorted, views, Function, Functions,
};
use crate::records::{decode_stack_sizes, records_of};
use crate::elf::{
    check_readable, elf_type, elf_type_of, ElfImage, readable, section_count, section_data, section_is_stack_sizes, sections_of,
    symbol_at, symbols_of, symtab_shape, symtab_shape_of, SectionView, SymtabShape,
};
use crate::layout::{is_64, sec_type};
use crate::symbols::{
    is_alias, is_defined_func, is_tag, is_tag_spec, is_undefined_func, SymbolEntry, SymbolKind,
};

verus! {

broadcast use vstd::laws_cmp::group_laws_cmp, vstd::std_specs::btree::group_btree_axioms;

/// Some row before `i` is a defined `Func` at address `a`.
pub open spec fn defined_before(rows: Seq<SymbolEntry>, a: u64, i: int) -> bool {
    exists|k: int| 0 <= k < i && is_defined_func(#[trigger] rows[k]) && rows[k].value == a
}

/// Some row is a defined `Func` at address `a`.
pub open spec fn defined_at(rows: Seq<SymbolEntry>, a: u64) -> bool {
    defined_before(rows, a, rows.len() as int)
}

/// `a` with its low (Thumb) bit cleared.
pub open spec fn clear_thumb(a: u64) -> u64 {
    a & 0xffff_ffff_ffff_fffeu64
}

/// The function that a record at address `a` refers to: the one at `a`,
/// else the one at `a` with its low (Thumb) bit toggled.
pub open spec fn thumb_match(rows: Seq<SymbolEntry>, a: u64) -> Option<u64> {
    if defined_at(rows, a) {
        Some(a)
    } else if defined_at(rows, a ^ 1) {
        Some(a ^ 1)
    } else {
        None
    }
}

/// The function that an alias at address `a` belongs to: the one at `a`
/// with the Thumb bit set, else the one with it clear.
pub open spec fn alias_target(rows: Seq<SymbolEntry>, a: u64) -> Option<u64> {
    if defined_at(rows, a | 1) {
        Some(a | 1)
    } else if defined_at(rows, clear_thumb(a)) {
        Some(clear_thumb(a))
    } else {
        None
    }
}

/// Row `i` is the first defined `Func` at address `a`.
pub open spec fn is_first_def(rows: Seq<SymbolEntry>, a: u64, i: int) -> bool {
    &&& 0 <= i < rows.len()
    &&& is_defined_func(rows[i])
    &&& rows[i].value == a
    &&& !defined_before(rows, a, i)
}

/// `n` names a row before `i` that is a defined `Func` at `a`.
pub open spec fn func_name_before(rows: Seq<SymbolEntry>, a: u64, n: Seq<char>, i: int) -> bool {
    exists|k: int|
        0 <= k < i && is_defined_func(#[trigger] rows[k]) && rows[k].value == a
            && rows[k].name_view() == Some(n)
}

/// `n` names a row before `i` that is an alias of the function at `a`.
pub open spec fn alias_name_before(rows: Seq<SymbolEntry>, a: u64, n: Seq<char>, i: int) -> bool {
    exists|k: int|
        0 <= k < i && is_alias(#[trigger] rows[k]) && alias_target(rows, rows[k].value) == Some(a)
            && rows[k].name_view() == Some(n)
}

/// `n` is a name of the function at `a`: of one of its `Func` rows or of
/// one of its aliases.
pub open spec fn name_at(rows: Seq<SymbolEntry>, a: u64, n: Seq<char>) -> bool {
    func_name_before(rows, a, n, rows.len() as int) || alias_name_before(rows, a, n, rows.len() as int)
}

/// `n` names an undefined `Func` row before `i`.
pub open spec fn undefined_before(rows: Seq<SymbolEntry>, n: Seq<char>, i: int) -> bool {
    exists|k: int| 0 <= k < i && is_undefined_func(#[trigger] rows[k]) && rows[k].name_view() == Some(n)
}

/// Every `Func` and `NoType` row has a name that could be read.
pub open spec fn names_readable(rows: Seq<SymbolEntry>) -> bool {
    forall|k: int| 0 <= k < rows.len() && (#[trigger] rows[k]).kind != SymbolKind::Other ==> rows[k].name is Some
}

/// The stack usage that the records give the function at `a`: the last
/// record that refers to it.
pub open spec fn stack_at(recs: Seq<(u64, u64)>, rows: Seq<SymbolEntry>, a: u64) -> Option<u64>
    decreases recs.len(),
{
    if recs.len() == 0 {
        None
    } else if thumb_match(rows, recs.last().0) == Some(a) {
        Some(recs.last().1)
    } else {
        stack_at(recs.drop_last(), rows, a)
    }
}

/// Every record refers to a defined function.
pub open spec fn records_match(recs: Seq<(u64, u64)>, rows: Seq<SymbolEntry>) -> bool {
    forall|j: int| 0 <= j < recs.len() ==> (#[trigger] thumb_match(rows, recs[j].0)) is Some
}

/// The records of an optional `.stack_sizes` section; none where it is absent.
pub open spec fn section_records(data: Option<Seq<u8>>, have_32_bit_addresses: bool) -> Option<
    Seq<(u64, u64)>,
> {
    match data {
        Some(d) => records_of(d, have_32_bit_addresses),
        None => Some(seq![]),
    }
}

/// `n` is one of the names in `v`.
pub open spec fn seq_has(v: Seq<String>, n: Seq<char>) -> bool {
    has(views(v), n)
}

/// What is known of the function at `a`: the size of its first `Func` row,
/// and all its names, sorted and each once.
pub open spec fn function_described(
    rows: Seq<SymbolEntry>,
    recs: Seq<(u64, u64)>,
    a: u64,
    f: Function,
) -> bool {
    &&& exists|i: int| #![trigger rows[i]] is_first_def(rows, a, i) && f.size_view() == rows[i].size
    &&& strictly_sorted(f.names_view())
    &&& forall|n: Seq<char>| #[trigger] f.has_name(n) <==> name_at(rows, a, n)
    &&& f.stack_view() == stack_at(recs, rows, a)
}

/// `fs` is the analysis of the symbol table `rows` and the records `recs`.
pub open spec fn describes(
    rows: Seq<SymbolEntry>,
    have_32_bit_addresses: bool,
    recs: Seq<(u64, u64)>,
    fs: Functions,
) -> bool {
    &&& fs.have_32_bit_addresses == have_32_bit_addresses
    &&& strictly_sorted(views(fs.undefined@))
    &&& forall|n: Seq<char>| #[trigger] seq_has(fs.undefined@, n) <==> undefined_before(rows, n, rows.len() as int)
    &&& forall|a: u64| #[trigger] fs.defined@.contains_key(a) <==> defined_at(rows, a)
    &&& forall|a: u64| #[trigger] fs.defined@.contains_key(a) ==> function_described(rows, recs, a, fs.defined@[a])
}

/// Adds `n` to the names of the function at `a`.
fn add_name(defined: &mut BTreeMap<u64, Function>, a: u64, n: String)
    requires
        old(defined)@.contains_key(a),
        strictly_sorted(old(defined)@[a].names_view()),
    ensures
        final(defined)@.dom() == old(defined)@.dom(),
        forall|b: u64| b != a && #[trigger] old(defined)@.contains_key(b) ==> final(defined)@[b] == old(defined)@[b],
        strictly_sorted(final(defined)@[a].names_view()),
        forall|x: Seq<char>| #[trigger] final(defined)@[a].has_name(x) <==> (old(defined)@[a].has_name(x) || x == n@),
        final(defined)@[a].size_view() == old(defined)@[a].size_view(),
        final(defined)@[a].stack_view() == old(defined)@[a].stack_view(),
{
    let ghost before = defined@;
    let mut f = defined.remove(&a).unwrap();
    f.add_name(n);
    defined.insert(a, f);
    proof {
        assert(defined@.dom() =~= before.dom());
    }
}

/// Sets the stack usage of the function at `a`.
fn set_stack(defined: &mut BTreeMap<u64, Function>, a: u64, stack: u64)
    requires
        old(defined)@.contains_key(a),
    ensures
        final(defined)@.dom() == old(defined)@.dom(),
        forall|b: u64| b != a && #[trigger] old(defined)@.contains_key(b) ==> final(defined)@[b] == old(defined)@[b],
        final(defined)@[a].names_view() == old(defined)@[a].names_view(),
        final(defined)@[a].size_view() == old(defined)@[a].size_view(),
        final(defined)@[a].stack_view() == Some(stack),
{
    let ghost before = defined@;
    let mut f = defined.remove(&a).unwrap();
    f.set_stack(stack);
    defined.insert(a, f);
    proof {
        assert(defined@.dom() =~= before.dom());
    }
}

/// Candidate aliases seen so far: each pair is an alias row's address and name.
pub open spec fn aliases_complete(rows: Seq<SymbolEntry>, al: Seq<(u64, String)>, i: int) -> bool {
    &&& forall|j: int| #![trigger al[j]] 0 <= j < al.len() ==> alias_row_of(rows, al[j], i)
    &&& forall|k: int| #![trigger rows[k]] 0 <= k < i && is_alias(rows[k]) ==> alias_listed(al, rows[k])
}

/// Some row before `i` is an alias with the address and name of `p`.
pub open spec fn alias_row_of(rows: Seq<SymbolEntry>, p: (u64, String), i: int) -> bool {
    exists|k: int| #![trigger rows[k]] 0 <= k < i && is_alias(rows[k]) && rows[k].value == p.0 && rows[k].name_view() == Some(p.1@)
}

/// `al` holds the address and name of the row `e`.
pub open spec fn alias_listed(al: Seq<(u64, String)>, e: SymbolEntry) -> bool {
    exists|j: int| #![trigger al[j]] 0 <= j < al.len() && al[j].0 == e.value && Some(al[j].1@) == e.name_view()
}

/// The functions that the rows before `i` define, before aliases and
/// records are added.
pub open spec fn defined_from_funcs(rows: Seq<SymbolEntry>, m: Map<u64, Function>, i: int) -> bool {
    &&& forall|a: u64| #[trigger] m.contains_key(a) <==> defined_before(rows, a, i)
    &&& forall|a: u64|
        #[trigger] m.contains_key(a) ==> {
            &&& exists|k: int| #![trigger rows[k]] is_first_def(rows, a, k) && k < i && m[a].size_view() == rows[k].size
            &&& strictly_sorted(m[a].names_view())
            &&& forall|n: Seq<char>| #[trigger] m[a].has_name(n) <==> func_name_before(rows, a, n, i)
            &&& m[a].stack_view() is None
        }
}

/// Whether every `Func` and `NoType` row has a name.
pub(crate) fn check_names(rows: &Vec<SymbolEntry>) -> (r: bool)
    ensures
        r == names_readable(rows@),
{
    let mut i: usize = 0;
    while i < rows.len()
        invariant
            i <= rows@.len(),
            forall|k: int| 0 <= k < i && (#[trigger] rows@[k]).kind != SymbolKind::Other ==> rows@[k].name is Some,
        decreases rows.len() - i,
    {
        if rows[i].kind != SymbolKind::Other && rows[i].name.is_none() {
            return false;
        }
        i = i + 1;
    }
    true
}

/// The names of the undefined functions, sorted, each once.
fn collect_undefined(rows: &Vec<SymbolEntry>) -> (und: Vec<String>)
    requires
        names_readable(rows@),
    ensures
        strictly_sorted(views(und@)),
        forall|n: Seq<char>| #[trigger] seq_has(und@, n) <==> undefined_before(rows@, n, rows@.len() as int),
{
    let mut und: Vec<String> = Vec::new();
    let ghost rs = rows@;
    let mut i: usize = 0;
    proof {
        assert(views(und@) =~= Seq::<Seq<char>>::empty());
    }
    while i < rows.len()
        invariant
            rs == rows@,
            i <= rs.len(),
            names_readable(rs),
            strictly_sorted(views(und@)),
            forall|n: Seq<char>| #[trigger] seq_has(und@, n) <==> undefined_before(rs, n, i as int),
        decreases rs.len() - i,
    {
        let e = &rows[i];
        let ghost ui = und@;
        if e.kind == SymbolKind::Func && e.value == 0 && e.size == 0 {
            assert(rs[i as int].kind == SymbolKind::Func);
            let name = e.name.clone().unwrap();
            insert_sorted(&mut und, name);
            proof {
                assert forall|n: Seq<char>| #[trigger] seq_has(und@, n) <==> undefined_before(rs, n, i + 1) by {
                    assert(seq_has(und@, n) == has(views(und@), n));
                    assert(seq_has(ui, n) == has(views(ui), n));
                    if undefined_before(rs, n, i + 1) && n != name@ {
                        let k = choose|k: int| 0 <= k < i + 1 && is_undefined_func(#[trigger] rs[k]) && rs[k].name_view() == Some(n);
                        assert(k < i);
                    }
                    if n == name@ {
                        assert(is_undefined_func(rs[i as int]));
                    }
                }
            }
        } else {
            proof {
                assert forall|n: Seq<char>| #[trigger] undefined_before(rs, n, i + 1) <==> undefined_before(rs, n, i as int) by {
                    if undefined_before(rs, n, i + 1) {
                        let k = choose|k: int| 0 <= k < i + 1 && is_undefined_func(#[trigger] rs[k]) && rs[k].name_view() == Some(n);
                        assert(k < i);
                    }
                }
            }
        }
        i = i + 1;
    }
    und
}

/// The rows that may be aliases, as (address, name), in table order.
fn collect_aliases(rows: &Vec<SymbolEntry>) -> (al: Vec<(u64, String)>)
    ensures
        aliases_complete(rows@, al@, rows@.len() as int),
{
    let mut al: Vec<(u64, String)> = Vec::new();
    let ghost rs = rows@;
    let mut i: usize = 0;
    while i < rows.len()
        invariant
            rs == rows@,
            i <= rs.len(),
            aliases_complete(rs, al@, i as int),
        decreases rs.len() - i,
    {
        let e = &rows[i];
        let ghost ali = al@;
        if e.kind == SymbolKind::NoType {
            match &e.name {
                Some(n) => {
                    if n.unicode_len() > 0 && !is_tag(n.as_str()) {
                        al.push((e.value, n.clone()));
                        assert(is_alias(rs[i as int]));
                    } else {
                        assert(!is_alias(rs[i as int]));
                    }
                },
                None => {},
            }
        }
        proof {
            assert(is_alias(rs[i as int]) ==> al@ == ali.push(al@.last()) && al@.last().0 == rs[i as int].value && Some(al@.last().1@) == rs[i as int].name_view());
            assert(!is_alias(rs[i as int]) ==> al@ == ali);
            assert forall|k: int| #![trigger rs[k]] 0 <= k < i + 1 && is_alias(rs[k]) implies alias_listed(al@, rs[k]) by {
                if k == i {
                    assert(al@[ali.len() as int].0 == rs[k].value);
                } else {
                    assert(alias_listed(ali, rs[k]));
                    let j = choose|j: int| #![trigger ali[j]] 0 <= j < ali.len() && ali[j].0 == rs[k].value && Some(ali[j].1@) == rs[k].name_view();
                    assert(al@[j] == ali[j]);
                }
            }
            assert forall|j: int| #![trigger al@[j]] 0 <= j < al@.len() implies alias_row_of(rs, al@[j], i + 1) by {
                if j < ali.len() {
                    assert(al@[j] == ali[j]);
                    assert(alias_row_of(rs, ali[j], i as int));
                    let k = choose|k: int| #![trigger rs[k]] 0 <= k < i && is_alias(rs[k]) && rs[k].value == ali[j].0 && rs[k].name_view() == Some(ali[j].1@);
                    assert(rs[k] == rs[k]);
                } else {
                    assert(is_alias(rs[i as int]));
                    assert(rs[i as int] == rs[i as int]);
                }
            }
        }
        i = i + 1;
    }
    al
}

/// The functions that the defined `Func` rows give, by address.
fn collect_defined(rows: &Vec<SymbolEntry>) -> (m: BTreeMap<u64, Function>)
    requires
        names_readable(rows@),
    ensures
        defined_from_funcs(rows@, m@, rows@.len() as int),
{
    let mut m: BTreeMap<u64, Function> = BTreeMap::new();
    let ghost rs = rows@;
    let mut i: usize = 0;
    while i < rows.len()
        invariant
            rs == rows@,
            i <= rs.len(),
            names_readable(rs),
            defined_from_funcs(rs, m@, i as int),
        decreases rs.len() - i,
    {
        let e = &rows[i];
        let ghost mi = m@;
        if e.kind == SymbolKind::Func && !(e.value == 0 && e.size == 0) {
            assert(rs[i as int].kind == SymbolKind::Func);
            let name = e.name.clone().unwrap();
            let v = e.value;
            if m.contains_key(&v) {
                add_name(&mut m, v, name);
            } else {
                m.insert(v, Function::new(name, e.size));
            }
            proof {
                assert(m@.dom() =~= mi.dom().insert(v));
                lemma_defined_step(rs, mi, m@, i as int, v, name@);
            }
        } else {
            proof {
                assert forall|a: u64| #[trigger] defined_before(rs, a, i + 1) <==> defined_before(rs, a, i as int) by {
                    if defined_before(rs, a, i + 1) {
                        let k = choose|k: int| 0 <= k < i + 1 && is_defined_func(#[trigger] rs[k]) && rs[k].value == a;
                        assert(k < i);
                    }
                }
                assert forall|a: u64, n: Seq<char>| #[trigger] func_name_before(rs, a, n, i + 1) <==> func_name_before(rs, a, n, i as int) by {
                    if func_name_before(rs, a, n, i + 1) {
                        let k = choose|k: int| 0 <= k < i + 1 && is_defined_func(#[trigger] rs[k]) && rs[k].value == a && rs[k].name_view() == Some(n);
                        assert(k < i);
                    }
                }
                assert forall|a: u64| #[trigger] m@.contains_key(a) implies exists|k: int|
                    #![trigger rs[k]]
                    is_first_def(rs, a, k) && k < i + 1 && m@[a].size_view() == rs[k].size by {
                    let k = choose|k: int|
                        #![trigger rs[k]]
                        is_first_def(rs, a, k) && k < i && m@[a].size_view() == rs[k].size;
                }
            }
        }
        i = i + 1;
    }
    m
}

proof fn lemma_defined_step(
    rs: Seq<SymbolEntry>,
    mi: Map<u64, Function>,
    m: Map<u64, Function>,
    i: int,
    v: u64,
    name: Seq<char>,
)
    requires
        0 <= i < rs.len(),
        is_defined_func(rs[i]),
        rs[i].value == v,
        rs[i].name_view() == Some(name),
        defined_from_funcs(rs, mi, i),
        m.dom() == mi.dom().insert(v),
        forall|b: u64| b != v && #[trigger] mi.contains_key(b) ==> m[b] == mi[b],
        strictly_sorted(m[v].names_view()),
        mi.contains_key(v) ==> (forall|x: Seq<char>| #[trigger] m[v].has_name(x) <==> (mi[v].has_name(x) || x == name))
            && m[v].size_view() == mi[v].size_view() && m[v].stack_view() == mi[v].stack_view(),
        !mi.contains_key(v) ==> m[v].names_view() == seq![name] && m[v].size_view() == rs[i].size
            && m[v].stack_view() is None,
    ensures
        defined_from_funcs(rs, m, i + 1),
{
    assert forall|a: u64| #[trigger] defined_before(rs, a, i + 1) <==> (defined_before(rs, a, i) || a == v) by {
        if defined_before(rs, a, i + 1) && a != v {
            let k = choose|k: int| 0 <= k < i + 1 && is_defined_func(#[trigger] rs[k]) && rs[k].value == a;
            assert(k < i);
        }
        if a == v {
            assert(is_defined_func(rs[i]));
        }
    }
    assert forall|a: u64, n: Seq<char>| #[trigger] func_name_before(rs, a, n, i + 1) <==> (func_name_before(rs, a, n, i) || (a == v && n == name)) by {
        if func_name_before(rs, a, n, i + 1) && !(a == v && n == name) {
            let k = choose|k: int| 0 <= k < i + 1 && is_defined_func(#[trigger] rs[k]) && rs[k].value == a && rs[k].name_view() == Some(n);
            assert(k < i);
        }
        if a == v && n == name {
            assert(is_defined_func(rs[i]));
        }
    }
    assert forall|a: u64| #[trigger] m.contains_key(a) implies {
            &&& exists|k: int| #![trigger rs[k]] is_first_def(rs, a, k) && k < i + 1 && m[a].size_view() == rs[k].size
            &&& strictly_sorted(m[a].names_view())
            &&& forall|n: Seq<char>| #[trigger] m[a].has_name(n) <==> func_name_before(rs, a, n, i + 1)
            &&& m[a].stack_view() is None
        } by {
        if a == v && !mi.contains_key(v) {
            assert(!defined_before(rs, a, i));
            assert(is_first_def(rs, a, i));
            assert forall|n: Seq<char>| #[trigger] m[a].has_name(n) <==> func_name_before(rs, a, n, i + 1) by {
                if m[a].has_name(n) {
                    let k = choose|k: int| 0 <= k < m[a].names_view().len() && #[trigger] m[a].names_view()[k] == n;
                    assert(k == 0);
                }
                if func_name_before(rs, a, n, i + 1) {
                    if func_name_before(rs, a, n, i) {
                        assert(defined_before(rs, a, i));
                    }
                    assert(m[a].names_view()[0] == n);
                }
            }
        } else if a == v {
            let k = choose|k: int| #![trigger rs[k]] is_first_def(rs, a, k) && k < i && mi[a].size_view() == rs[k].size;
            assert(is_first_def(rs, a, k));
        } else {
            assert(mi.contains_key(a));
            let k = choose|k: int| #![trigger rs[k]] is_first_def(rs, a, k) && k < i && mi[a].size_view() == rs[k].size;
            assert(is_first_def(rs, a, k));
            assert(m[a] == mi[a]);
        }
    }
}

/// Some candidate alias before `t` in `al` belongs to the function at `a`
/// and is named `n`.
pub open spec fn listed_alias_of(rows: Seq<SymbolEntry>, al: Seq<(u64, String)>, a: u64, n: Seq<char>, t: int) -> bool {
    exists|j: int| #![trigger al[j]] 0 <= j < t && alias_target(rows, al[j].0) == Some(a) && al[j].1@ == n
}

/// The functions of `rows` with all their names, by address.
pub open spec fn named_functions(rows: Seq<SymbolEntry>, m: Map<u64, Function>) -> bool {
    &&& forall|a: u64| #[trigger] m.contains_key(a) <==> defined_at(rows, a)
    &&& forall|a: u64|
        #[trigger] m.contains_key(a) ==> {
            &&& exists|k: int| #![trigger rows[k]] is_first_def(rows, a, k) && m[a].size_view() == rows[k].size
            &&& strictly_sorted(m[a].names_view())
            &&& forall|n: Seq<char>| #[trigger] m[a].has_name(n) <==> name_at(rows, a, n)
        }
}

/// The key of `m` that an alias at `a` belongs to (see `alias_target`).
fn find_alias_target(m: &BTreeMap<u64, Function>, a: u64) -> (r: Option<u64>)
    ensures
        r == (if m@.contains_key(a | 1) {
            Some(a | 1)
        } else if m@.contains_key(clear_thumb(a)) {
            Some(clear_thumb(a))
        } else {
            None::<u64>
        }),
{
    if m.contains_key(&(a | 1)) {
        Some(a | 1)
    } else if m.contains_key(&(a & 0xffff_ffff_ffff_fffeu64)) {
        Some(a & 0xffff_ffff_ffff_fffeu64)
    } else {
        None
    }
}

/// The key of `m` that a record at `a` refers to (see `thumb_match`).
fn find_record_target(m: &BTreeMap<u64, Function>, a: u64) -> (r: Option<u64>)
    ensures
        r == (if m@.contains_key(a) {
            Some(a)
        } else if m@.contains_key(a ^ 1) {
            Some(a ^ 1)
        } else {
            None::<u64>
        }),
{
    if m.contains_key(&a) {
        Some(a)
    } else if m.contains_key(&(a ^ 1)) {
        Some(a ^ 1)
    } else {
        None
    }
}

/// Adds each candidate alias to the function it refers to; one that refers
/// to none is dropped.
fn merge_aliases(m: &mut BTreeMap<u64, Function>, rows: &Vec<SymbolEntry>, al: Vec<(u64, String)>)
    requires
        defined_from_funcs(rows@, old(m)@, rows@.len() as int),
        aliases_complete(rows@, al@, rows@.len() as int),
    ensures
        named_functions(rows@, final(m)@),
        forall|a: u64| #[trigger] final(m)@.contains_key(a) ==> final(m)@[a].stack_view() is None,
{
    let ghost rs = rows@;
    let ghost m0 = m@;
    let ghost len = rs.len() as int;
    let mut t: usize = 0;
    while t < al.len()
        invariant
            rs == rows@,
            len == rs.len(),
            defined_from_funcs(rs, m0, len),
            aliases_complete(rs, al@, len),
            m@.dom() == m0.dom(),
            t <= al@.len(),
            forall|a: u64| #[trigger] m@.contains_key(a) ==> {
                &&& strictly_sorted(m@[a].names_view())
                &&& m@[a].size_view() == m0[a].size_view()
                &&& m@[a].stack_view() is None
                &&& forall|n: Seq<char>| #[trigger] m@[a].has_name(n) <==> (m0[a].has_name(n) || listed_alias_of(rs, al@, a, n, t as int))
            },
        decreases al.len() - t,
    {
        let v = al[t].0;
        let target = find_alias_target(m, v);
        let ghost mi = m@;
        proof {
            assert forall|a: u64| #[trigger] defined_at(rs, a) <==> mi.contains_key(a) by {
                assert(mi.contains_key(a) == m0.contains_key(a));
            }
            assert(target == alias_target(rs, v));
        }
        match target {
            Some(a) => {
                let n = al[t].1.clone();
                add_name(m, a, n);
                proof {
                    assert forall|b: u64| #[trigger] m@.contains_key(b) implies {
                        &&& strictly_sorted(m@[b].names_view())
                        &&& m@[b].size_view() == m0[b].size_view()
                        &&& m@[b].stack_view() is None
                        &&& forall|x: Seq<char>| #[trigger] m@[b].has_name(x) <==> (m0[b].has_name(x) || listed_alias_of(rs, al@, b, x, t + 1))
                    } by {
                        assert forall|x: Seq<char>| #[trigger] listed_alias_of(rs, al@, b, x, t + 1) <==> (listed_alias_of(rs, al@, b, x, t as int) || (b == a && x == n@)) by {
                            if listed_alias_of(rs, al@, b, x, t + 1) && !(b == a && x == n@) {
                                let j = choose|j: int| #![trigger al@[j]] 0 <= j < t + 1 && alias_target(rs, al@[j].0) == Some(b) && al@[j].1@ == x;
                                assert(j < t);
                            }
                            if b == a && x == n@ {
                                assert(al@[t as int] == al@[t as int]);
                            }
                        }
                        if b != a {
                            assert(m@[b] == mi[b]);
                        }
                    }
                }
            },
            None => {
                proof {
                    assert forall|b: u64, x: Seq<char>| #[trigger] listed_alias_of(rs, al@, b, x, t + 1) <==> listed_alias_of(rs, al@, b, x, t as int) by {
                        if listed_alias_of(rs, al@, b, x, t + 1) {
                            let j = choose|j: int| #![trigger al@[j]] 0 <= j < t + 1 && alias_target(rs, al@[j].0) == Some(b) && al@[j].1@ == x;
                            assert(j < t);
                        }
                    }
                }
            },
        }
        t = t + 1;
    }
    proof {
        assert forall|a: u64| #[trigger] m@.contains_key(a) implies {
            &&& exists|k: int| #![trigger rs[k]] is_first_def(rs, a, k) && m@[a].size_view() == rs[k].size
            &&& strictly_sorted(m@[a].names_view())
            &&& forall|n: Seq<char>| #[trigger] m@[a].has_name(n) <==> name_at(rs, a, n)
        } by {
            assert(m0.contains_key(a));
            let k = choose|k: int| #![trigger rs[k]] is_first_def(rs, a, k) && k < len && m0[a].size_view() == rs[k].size;
            assert(is_first_def(rs, a, k));
            assert forall|n: Seq<char>| #[trigger] listed_alias_of(rs, al@, a, n, al@.len() as int) <==> alias_name_before(rs, a, n, len) by {
                if listed_alias_of(rs, al@, a, n, al@.len() as int) {
                    let j = choose|j: int| #![trigger al@[j]] 0 <= j < al@.len() && alias_target(rs, al@[j].0) == Some(a) && al@[j].1@ == n;
                    assert(alias_row_of(rs, al@[j], len));
                    let k = choose|k: int| #![trigger rs[k]] 0 <= k < len && is_alias(rs[k]) && rs[k].value == al@[j].0 && rs[k].name_view() == Some(al@[j].1@);
                    assert(is_alias(rs[k]));
                }
                if alias_name_before(rs, a, n, len) {
                    let k = choose|k: int| 0 <= k < len && is_alias(#[trigger] rs[k]) && alias_target(rs, rs[k].value) == Some(a) && rs[k].name_view() == Some(n);
                    assert(alias_listed(al@, rs[k]));
                    let j = choose|j: int| #![trigger al@[j]] 0 <= j < al@.len() && al@[j].0 == rs[k].value && Some(al@[j].1@) == rs[k].name_view();
                    assert(al@[j] == al@[j]);
                }
            }
        }
    }
}

/// Gives each function the stack usage of the last record that refers to
/// it; fails with `InconsistentData` at the first record that refers to none.
fn apply_records(m: &mut BTreeMap<u64, Function>, rows: &Vec<SymbolEntry>, recs: &Vec<(u64, u64)>) -> (r: Result<(), AnalysisError>)
    requires
        named_functions(rows@, old(m)@),
        forall|a: u64| #[trigger] old(m)@.contains_key(a) ==> old(m)@[a].stack_view() is None,
    ensures
        records_match(recs@, rows@) ==> r is Ok,
        !records_match(recs@, rows@) ==> r == Err::<(), AnalysisError>(AnalysisError::InconsistentData),
        r is Ok ==> named_functions(rows@, final(m)@),
        r is Ok ==> forall|a: u64| #[trigger] final(m)@.contains_key(a) ==> final(m)@[a].stack_view() == stack_at(recs@, rows@, a),
{
    let ghost rs = rows@;
    let ghost m0 = m@;
    let mut j: usize = 0;
    while j < recs.len()
        invariant
            rs == rows@,
            named_functions(rs, m0),
            m@.dom() == m0.dom(),
            j <= recs@.len(),
            forall|q: int| 0 <= q < j ==> (#[trigger] thumb_match(rs, recs@[q].0)) is Some,
            forall|a: u64| #[trigger] m@.contains_key(a) ==> {
                &&& m@[a].names_view() == m0[a].names_view()
                &&& m@[a].size_view() == m0[a].size_view()
                &&& m@[a].stack_view() == stack_at(recs@.take(j as int), rs, a)
            },
        decreases recs.len() - j,
    {
        let (addr, stack) = recs[j];
        let target = find_record_target(m, addr);
        let ghost mi = m@;
        proof {
            assert forall|a: u64| #[trigger] defined_at(rs, a) <==> mi.contains_key(a) by {
                assert(mi.contains_key(a) == m0.contains_key(a));
            }
            assert(target == thumb_match(rs, addr));
            assert(recs@.take(j + 1).drop_last() =~= recs@.take(j as int));
            assert(recs@.take(j + 1).last() == recs@[j as int]);
        }
        match target {
            Some(a) => {
                set_stack(m, a, stack);
                proof {
                    assert forall|b: u64| #[trigger] m@.contains_key(b) implies {
                        &&& m@[b].names_view() == m0[b].names_view()
                        &&& m@[b].size_view() == m0[b].size_view()
                        &&& m@[b].stack_view() == stack_at(recs@.take(j + 1), rs, b)
                    } by {
                        if b != a {
                            assert(m@[b] == mi[b]);
                        }
                    }
                }
            },
            None => {
                return Err(AnalysisError::InconsistentData);
            },
        }
        j = j + 1;
    }
    proof {
        assert(recs@.take(recs@.len() as int) =~= recs@);
        assert forall|a: u64| #[trigger] m@.contains_key(a) implies {
            &&& exists|k: int| #![trigger rs[k]] is_first_def(rs, a, k) && m@[a].size_view() == rs[k].size
            &&& strictly_sorted(m@[a].names_view())
            &&& forall|n: Seq<char>| #[trigger] m@[a].has_name(n) <==> name_at(rs, a, n)
        } by {
            assert(m0.contains_key(a));
            let k = choose|k: int| #![trigger rs[k]] is_first_def(rs, a, k) && m0[a].size_view() == rs[k].size;
            assert(is_first_def(rs, a, k));
            assert forall|n: Seq<char>| #[trigger] m@[a].has_name(n) <==> name_at(rs, a, n) by {
                assert(m@[a].has_name(n) == m0[a].has_name(n));
            }
        }
    }
    Ok(())
}

/// Analyses an executable given its symbol table `rows` and the contents of
/// its `.stack_sizes` section, `None` where it has none.
///
/// Fails with `MalformedInput` where a `Func` or `NoType` row has no name or the section
/// does not split into whole records, else with `InconsistentData` where a
/// record refers to no defined function.
pub fn analyze_symbols(
    rows: &Vec<SymbolEntry>,
    have_32_bit_addresses: bool,
    stack_sizes: Option<&[u8]>,
) -> (r: Result<Functions, AnalysisError>)
    ensures
        executable_outcome(
            rows@,
            have_32_bit_addresses,
            match stack_sizes {
                Some(d) => Some(d@),
                None => None,
            },
            r,
        ),
{
    let recs: Vec<(u64, u64)> = match stack_sizes {
        Some(d) => match decode_stack_sizes(d, have_32_bit_addresses) {
            Ok(v) => v,
            Err(e) => {
                return Err(e);
            },
        },
        None => Vec::new(),
    };
    if !check_names(rows) {
        return Err(AnalysisError::MalformedInput);
    }
    let undefined = collect_undefined(rows);
    let mut defined = collect_defined(rows);
    let aliases = collect_aliases(rows);
    merge_aliases(&mut defined, rows, aliases);
    match apply_records(&mut defined, rows, &recs) {
        Ok(()) => {},
        Err(e) => {
            return Err(e);
        },
    }
    let fs = Functions { have_32_bit_addresses, undefined, defined };
    proof {
        assert forall|a: u64| #[trigger] fs.defined@.contains_key(a) implies function_described(rows@, recs@, a, fs.defined@[a]) by {
            let k = choose|k: int| #![trigger rows@[k]] is_first_def(rows@, a, k) && fs.defined@[a].size_view() == rows@[k].size;
        }
    }
    Ok(fs)
}

/// The result of analysing the symbol table `rows` with the optional
/// `.stack_sizes` contents `data`.
pub open spec fn executable_outcome(
    rows: Seq<SymbolEntry>,
    have_32_bit_addresses: bool,
    data: Option<Seq<u8>>,
    r: Result<Functions, AnalysisError>,
) -> bool {
    match section_records(data, have_32_bit_addresses) {
        None => r == Err::<Functions, AnalysisError>(AnalysisError::MalformedInput),
        Some(recs) => {
            &&& !names_readable(rows) ==> r == Err::<Functions, AnalysisError>(
                AnalysisError::MalformedInput,
            )
            &&& names_readable(rows) && !records_match(recs, rows) ==> r == Err::<
                Functions,
                AnalysisError,
            >(AnalysisError::InconsistentData)
            &&& names_readable(rows) && records_match(recs, rows) ==> (r matches Ok(fs)
                && describes(rows, have_32_bit_addresses, recs, fs))
        },
    }
}

/// The contents of the first section from `i` on named `.stack_sizes`.
pub open spec fn stack_sizes_from(secs: Seq<SectionView>, i: int) -> Option<Seq<u8>>
    decreases secs.len() - i,
{
    if i < 0 || i >= secs.len() {
        None
    } else if secs[i].is_stack_sizes() {
        Some(secs[i].data)
    } else {
        stack_sizes_from(secs, i + 1)
    }
}

/// The contents of the file's `.stack_sizes` section, where it has one.
fn find_stack_sizes(b: &[u8], img: &ElfImage) -> (r: Option<Vec<u8>>)
    requires
        readable(b@),
        img.bytes() == b@,
    ensures
        match stack_sizes_from(sections_of(b@), 0) {
            Some(d) => r matches Some(v) && v@ == d,
            None => r is None,
        },
{
    let n = section_count(img);
    let mut i: usize = 0;
    while i < n
        invariant
            img.bytes() == b@,
            readable(b@),
            n == sections_of(b@).len(),
            i <= n,
            stack_sizes_from(sections_of(b@), 0) == stack_sizes_from(sections_of(b@), i as int),
        decreases n - i,
    {
        if section_is_stack_sizes(img, i) {
            assert(sections_of(b@)[i as int].is_stack_sizes());
            return Some(section_data(img, i));
        }
        i = i + 1;
    }
    None
}

/// Parses an executable ELF file and gives its functions and their stack
/// usage. A relocatable file is `UnsupportedFormat`; a file that the ELF
/// reader could not read without fault (see `readable`), or whose `.symtab`
/// is not a symbol table, is `MalformedInput`; a file without `.symtab` has
/// no functions.
pub fn analyze_executable(elf: &[u8]) -> (r: Result<Functions, AnalysisError>)
    ensures
        elf_type_of(elf@) == Some(1u16) ==> r == Err::<Functions, AnalysisError>(AnalysisError::UnsupportedFormat),
        elf_type_of(elf@) != Some(1u16) && !readable(elf@) ==> r == Err::<Functions, AnalysisError>(AnalysisError::MalformedInput),
        elf_type_of(elf@) != Some(1u16) && readable(elf@) ==> match symtab_shape_of(elf@) {
            SymtabShape::Absent => executable_outcome(seq![], !is_64(elf@), stack_sizes_from(sections_of(elf@), 0), r),
            SymtabShape::Table(have_32_bit_addresses, _) => executable_outcome(
                symbols_of(elf@),
                have_32_bit_addresses,
                stack_sizes_from(sections_of(elf@), 0),
                r,
            ),
            _ => r == Err::<Functions, AnalysisError>(AnalysisError::MalformedInput),
        },
{
    let img = ElfImage::new(elf);
    if elf_type(&img) == Some(1u16) {
        return Err(AnalysisError::UnsupportedFormat);
    }
    if !check_readable(elf, &img) {
        return Err(AnalysisError::MalformedInput);
    }
    let (rows, wide32) = match read_symbols(elf, &img) {
        Ok(t) => t,
        Err(e) => {
            return Err(e);
        },
    };
    let data = find_stack_sizes(elf, &img);
    match data {
        Some(d) => analyze_symbols(&rows, wide32, Some(d.as_slice())),
        None => analyze_symbols(&rows, wide32, None),
    }
}

/// The rows of the file's symbol table and whether they are 32-bit; no rows
/// where there is no `.symtab`, and then the width of the file's class.
pub fn read_symbols(elf: &[u8], img: &ElfImage) -> (r: Result<(Vec<SymbolEntry>, bool), AnalysisError>)
    requires
        readable(elf@),
        img.bytes() == elf@,
    ensures
        match symtab_shape_of(elf@) {
            SymtabShape::Absent => r matches Ok((rows, w)) && rows@ == Seq::<SymbolEntry>::empty() && w == !is_64(elf@),
            SymtabShape::Table(w32, _) => r matches Ok((rows, w)) && rows@ == symbols_of(elf@) && w == w32,
            _ => r == Err::<(Vec<SymbolEntry>, bool), AnalysisError>(AnalysisError::MalformedInput),
        },
{
    let (wide32, n) = match symtab_shape(img) {
        SymtabShape::Table(w, n) => (w, n),
        SymtabShape::Absent => {
            return Ok((Vec::new(), elf[4] != 2));
        },
        _ => {
            return Err(AnalysisError::MalformedInput);
        },
    };
    let mut rows: Vec<SymbolEntry> = Vec::new();
    let mut i: usize = 0;
    while i < n
        invariant
            img.bytes() == elf@,
            readable(elf@),
            symtab_shape_of(elf@) == SymtabShape::Table(wide32, n),
            n == symbols_of(elf@).len(),
            i <= n,
            rows@ == symbols_of(elf@).take(i as int),
        decreases n - i,
    {
        match symbol_at(img, i) {
            Some(e) => rows.push(e),
            None => {
                return Err(AnalysisError::MalformedInput);
            },
        }
        proof {
            assert(rows@ =~= symbols_of(elf@).take(i + 1));
        }
        i = i + 1;
    }
    proof {
        assert(rows@ =~= symbols_of(elf@));
    }
    Ok((rows, wide32))
}

/// A record refers to the function at its own address where there is one,
/// else to the function at that address with the Thumb bit toggled, and to
/// no other: so a symbol at `A | 1` takes a record at `A` and a symbol at `A`
/// a record at `A | 1`, where the other address holds no function, and a
/// record never refers to two functions.
pub proof fn lemma_thumb_symmetry(rows: Seq<SymbolEntry>, a: u64)
    ensures
        defined_at(rows, a) ==> thumb_match(rows, a) == Some(a),
        !defined_at(rows, a) && defined_at(rows, a ^ 1) ==> thumb_match(rows, a) == Some(a ^ 1),
        thumb_match(rows, a) matches Some(x) ==> (x == a || x == a ^ 1) && defined_at(rows, x),
        !(defined_at(rows, a) && defined_at(rows, a ^ 1)) ==> thumb_match(rows, a) == thumb_match(rows, a ^ 1),
{
    assert((a ^ 1) ^ 1 == a) by (bit_vector);
}

/// A `NoType` symbol with a plain name at the address of a function, or at
/// that address with the Thumb bit toggled, is one of that function's names.
pub proof fn lemma_alias_included(
    rows: Seq<SymbolEntry>,
    have_32_bit_addresses: bool,
    recs: Seq<(u64, u64)>,
    fs: Functions,
    i: int,
)
    requires
        describes(rows, have_32_bit_addresses, recs, fs),
        0 <= i < rows.len(),
        is_alias(rows[i]),
        alias_target(rows, rows[i].value) is Some,
    ensures
        fs.defined@.contains_key(alias_target(rows, rows[i].value)->Some_0),
        fs.defined@[alias_target(rows, rows[i].value)->Some_0].has_name(rows[i].name_view()->Some_0),
{
    let a = alias_target(rows, rows[i].value)->Some_0;
    assert(defined_at(rows, a));
    assert(fs.defined@.contains_key(a));
    assert(alias_name_before(rows, a, rows[i].name_view()->Some_0, rows.len() as int));
    assert(name_at(rows, a, rows[i].name_view()->Some_0));
}

/// A mapping-symbol name such as `$d.3` is a name of a function only where a
/// `Func` symbol of that function carries it: `NoType` symbols never bring it.
pub proof fn lemma_tags_not_aliases(
    rows: Seq<SymbolEntry>,
    have_32_bit_addresses: bool,
    recs: Seq<(u64, u64)>,
    fs: Functions,
    a: u64,
    n: Seq<char>,
)
    requires
        describes(rows, have_32_bit_addresses, recs, fs),
        is_tag_spec(n),
        fs.defined@.contains_key(a),
        fs.defined@[a].has_name(n),
    ensures
        func_name_before(rows, a, n, rows.len() as int),
{
    assert(name_at(rows, a, n));
    if alias_name_before(rows, a, n, rows.len() as int) {
        let k = choose|k: int|
            0 <= k < rows.len() && is_alias(#[trigger] rows[k]) && alias_target(rows, rows[k].value) == Some(a)
                && rows[k].name_view() == Some(n);
        assert(false);
    }
}

/// A `Func` symbol with value 0 and size 0 is listed as undefined; and a name
/// that only such symbols carry is the name of no defined function.
pub proof fn lemma_undefined_classified(
    rows: Seq<SymbolEntry>,
    have_32_bit_addresses: bool,
    recs: Seq<(u64, u64)>,
    fs: Functions,
    i: int,
)
    requires
        describes(rows, have_32_bit_addresses, recs, fs),
        0 <= i < rows.len(),
        is_undefined_func(rows[i]),
        rows[i].name is Some,
    ensures
        seq_has(fs.undefined@, rows[i].name_view()->Some_0),
        (forall|k: int| 0 <= k < rows.len() && (#[trigger] rows[k]).name_view() == rows[i].name_view() ==> is_undefined_func(rows[k]))
            ==> forall|a: u64| #[trigger] fs.defined@.contains_key(a) ==> !fs.defined@[a].has_name(rows[i].name_view()->Some_0),
{
    let n = rows[i].name_view()->Some_0;
    assert(undefined_before(rows, n, rows.len() as int));
    if forall|k: int| 0 <= k < rows.len() && (#[trigger] rows[k]).name_view() == rows[i].name_view() ==> is_undefined_func(rows[k]) {
        assert forall|a: u64| #[trigger] fs.defined@.contains_key(a) implies !fs.defined@[a].has_name(n) by {
            if fs.defined@[a].has_name(n) {
                assert(name_at(rows, a, n));
                if func_name_before(rows, a, n, rows.len() as int) {
                    let k = choose|k: int| 0 <= k < rows.len() && is_defined_func(#[trigger] rows[k]) && rows[k].value == a && rows[k].name_view() == Some(n);
                    assert(is_undefined_func(rows[k]));
                } else {
                    let k = choose|k: int| 0 <= k < rows.len() && is_alias(#[trigger] rows[k]) && alias_target(rows, rows[k].value) == Some(a) && rows[k].name_view() == Some(n);
                    assert(is_undefined_func(rows[k]));
                }
            }
        }
    }
}

/// Two analyses of the same symbols and records agree exactly: the same
/// undefined names in the same order, the same addresses, and at each the
/// same names in the same order, size and stack usage.
pub proof fn lemma_deterministic(
    rows: Seq<SymbolEntry>,
    have_32_bit_addresses: bool,
    recs: Seq<(u64, u64)>,
    fs1: Functions,
    fs2: Functions,
)
    requires
        describes(rows, have_32_bit_addresses, recs, fs1),
        describes(rows, have_32_bit_addresses, recs, fs2),
    ensures
        fs1.have_32_bit_addresses == fs2.have_32_bit_addresses,
        views(fs1.undefined@) == views(fs2.undefined@),
        fs1.defined@.dom() == fs2.defined@.dom(),
        forall|a: u64| #[trigger] fs1.defined@.contains_key(a) ==> {
            &&& fs1.defined@[a].names_view() == fs2.defined@[a].names_view()
            &&& fs1.defined@[a].size_view() == fs2.defined@[a].size_view()
            &&& fs1.defined@[a].stack_view() == fs2.defined@[a].stack_view()
        },
{
    assert forall|n: Seq<char>| has(views(fs1.undefined@), n) <==> has(views(fs2.undefined@), n) by {
        assert(seq_has(fs1.undefined@, n) == seq_has(fs2.undefined@, n));
    }
    lemma_sorted_unique(views(fs1.undefined@), views(fs2.undefined@));
    assert(fs1.defined@.dom() =~= fs2.defined@.dom());
    assert forall|a: u64| #[trigger] fs1.defined@.contains_key(a) implies {
        &&& fs1.defined@[a].names_view() == fs2.defined@[a].names_view()
        &&& fs1.defined@[a].size_view() == fs2.defined@[a].size_view()
        &&& fs1.defined@[a].stack_view() == fs2.defined@[a].stack_view()
    } by {
        assert(fs2.defined@.contains_key(a));
        let f1 = fs1.defined@[a];
        let f2 = fs2.defined@[a];
        assert forall|n: Seq<char>| has(f1.names_view(), n) <==> has(f2.names_view(), n) by {
            assert(f1.has_name(n) == name_at(rows, a, n));
            assert(f2.has_name(n) == name_at(rows, a, n));
        }
        lemma_sorted_unique(f1.names_view(), f2.names_view());
        let k1 = choose|k: int| #![trigger rows[k]] is_first_def(rows, a, k) && f1.size_view() == rows[k].size;
        let k2 = choose|k: int| #![trigger rows[k]] is_first_def(rows, a, k) && f2.size_view() == rows[k].size;
        if k1 < k2 {
            assert(defined_before(rows, a, k2));
        } else if k2 < k1 {
            assert(defined_before(rows, a, k1));
        }
    }
}

/// With one record `(r, s)`: the function at `r`, where there is one, takes
/// `s`, and one at `r` with the Thumb bit toggled keeps no stack usage; where
/// there is none at `r`, the function at the toggled address takes `s`, and
/// no function is made at `r`.
pub proof fn lemma_one_record(
    rows: Seq<SymbolEntry>,
    have_32_bit_addresses: bool,
    r: u64,
    s: u64,
    fs: Functions,
)
    requires
        describes(rows, have_32_bit_addresses, seq![(r, s)], fs),
    ensures
        defined_at(rows, r) ==> fs.defined@.contains_key(r) && fs.defined@[r].stack_view() == Some(s),
        defined_at(rows, r) && defined_at(rows, r ^ 1) ==> fs.defined@.contains_key(r ^ 1)
            && fs.defined@[r ^ 1].stack_view() is None,
        !defined_at(rows, r) && defined_at(rows, r ^ 1) ==> fs.defined@.contains_key(r ^ 1)
            && fs.defined@[r ^ 1].stack_view() == Some(s) && !fs.defined@.contains_key(r),
{
    let recs = seq![(r, s)];
    assert((r ^ 1) != r) by (bit_vector);
    assert(recs.drop_last() =~= Seq::<(u64, u64)>::empty());
    assert(recs.last() == (r, s));
    reveal_with_fuel(stack_at, 2);
    assert(fs.defined@.contains_key(r) == defined_at(rows, r));
    assert(fs.defined@.contains_key(r ^ 1) == defined_at(rows, r ^ 1));
    if defined_at(rows, r) {
        assert(function_described(rows, recs, r, fs.defined@[r]));
        assert(stack_at(recs, rows, r) == Some(s));
        if defined_at(rows, r ^ 1) {
            assert(function_described(rows, recs, r ^ 1, fs.defined@[r ^ 1]));
            assert(stack_at(Seq::<(u64, u64)>::empty(), rows, r ^ 1) is None);
            assert(stack_at(recs, rows, r ^ 1) is None);
        }
    } else if defined_at(rows, r ^ 1) {
        assert(function_described(rows, recs, r ^ 1, fs.defined@[r ^ 1]));
        assert(stack_at(recs, rows, r ^ 1) == Some(s));
    }
}

proof fn lemma_stack_at_own(recs: Seq<(u64, u64)>, rows: Seq<SymbolEntry>, a: u64)
    requires
        forall|i: int| 0 <= i < recs.len() ==> defined_at(rows, #[trigger] recs[i].0),
        forall|i: int, j: int| 0 <= i < j < recs.len() ==> (#[trigger] recs[i]).0 != (#[trigger] recs[j]).0,
    ensures
        forall|i: int| 0 <= i < recs.len() && (#[trigger] recs[i]).0 == a ==> stack_at(recs, rows, a) == Some(recs[i].1),
        (forall|i: int| 0 <= i < recs.len() ==> (#[trigger] recs[i]).0 != a) ==> stack_at(recs, rows, a) is None,
    decreases recs.len(),
{
    if recs.len() > 0 {
        let d = recs.drop_last();
        let l = recs.len() - 1;
        assert(defined_at(rows, recs[l].0));
        assert(thumb_match(rows, recs[l].0) == Some(recs[l].0));
        assert forall|i: int| 0 <= i < d.len() implies defined_at(rows, #[trigger] d[i].0) by {
            assert(d[i] == recs[i]);
        }
        assert forall|i: int, j: int| 0 <= i < j < d.len() implies (#[trigger] d[i]).0 != (#[trigger] d[j]).0 by {
            assert(d[i] == recs[i] && d[j] == recs[j]);
        }
        lemma_stack_at_own(d, rows, a);
        assert forall|i: int| 0 <= i < recs.len() && (#[trigger] recs[i]).0 == a implies stack_at(recs, rows, a) == Some(recs[i].1) by {
            if i < l {
                assert(d[i] == recs[i]);
                assert(recs[i].0 != recs[l].0);
            }
        }
        if forall|i: int| 0 <= i < recs.len() ==> (#[trigger] recs[i]).0 != a {
            assert forall|i: int| 0 <= i < d.len() implies (#[trigger] d[i]).0 != a by {
                assert(d[i] == recs[i]);
            }
            assert(recs[l].0 != a);
        }
    }
}

/// Stack usages encoded into a `.stack_sizes` section for defined
/// functions at distinct addresses come back to those functions: analysing
/// the symbols with that section gives each of them its own usage and every
/// other function none.
pub proof fn lemma_round_trip_analysis(
    rows: Seq<SymbolEntry>,
    have_32_bit_addresses: bool,
    recs: Seq<(u64, u64)>,
    r: Result<Functions, AnalysisError>,
)
    requires
        names_readable(rows),
        crate::records::addresses_fit(recs, have_32_bit_addresses),
        forall|i: int| 0 <= i < recs.len() ==> defined_at(rows, #[trigger] recs[i].0),
        forall|i: int, j: int| 0 <= i < j < recs.len() ==> (#[trigger] recs[i]).0 != (#[trigger] recs[j]).0,
        executable_outcome(
            rows,
            have_32_bit_addresses,
            Some(crate::records::encode_records(recs, have_32_bit_addresses)),
            r,
        ),
    ensures
        r is Ok,
        forall|i: int| 0 <= i < recs.len() ==> (#[trigger] r->Ok_0.defined@[recs[i].0]).stack_view()
            == Some(recs[i].1) && r->Ok_0.defined@.contains_key(recs[i].0),
        forall|a: u64| #[trigger] r->Ok_0.defined@.contains_key(a) && (forall|i: int| 0 <= i < recs.len() ==> recs[i].0 != a)
            ==> r->Ok_0.defined@[a].stack_view() is None,
{
    crate::records::lemma_round_trip(recs, have_32_bit_addresses);
    assert forall|j: int| 0 <= j < recs.len() implies (#[trigger] thumb_match(rows, recs[j].0)) is Some by {
        assert(defined_at(rows, recs[j].0));
    }
    let fs = r->Ok_0;
    assert forall|i: int| 0 <= i < recs.len() implies (#[trigger] fs.defined@[recs[i].0]).stack_view() == Some(recs[i].1)
        && fs.defined@.contains_key(recs[i].0) by {
        let a = recs[i].0;
        assert(defined_at(rows, a));
        assert(fs.defined@.contains_key(a));
        assert(function_described(rows, recs, a, fs.defined@[a]));
        lemma_stack_at_own(recs, rows, a);
    }
    assert forall|a: u64| #[trigger] fs.defined@.contains_key(a) && (forall|i: int| 0 <= i < recs.len() ==> recs[i].0 != a)
        implies fs.defined@[a].stack_view() is None by {
        assert(function_described(rows, recs, a, fs.defined@[a]));
        lemma_stack_at_own(recs, rows, a);
        assert(forall|i: int| 0 <= i < recs.len() ==> (#[trigger] recs[i]).0 != a);
    }
}

/// A `.stack_sizes` section that ends inside a record (its address cut
/// short, or its stack usage without a final byte) makes the analysis fail
/// with `MalformedInput`: no partial result is given.
pub proof fn lemma_truncated_analysis(
    rows: Seq<SymbolEntry>,
    have_32_bit_addresses: bool,
    recs: Seq<(u64, u64)>,
    last: (u64, u64),
    t: Seq<u8>,
    r: Result<Functions, AnalysisError>,
)
    requires
        crate::records::addresses_fit(recs.push(last), have_32_bit_addresses),
        0 < t.len() < crate::records::record_bytes(last, have_32_bit_addresses).len(),
        t == crate::records::record_bytes(last, have_32_bit_addresses).take(t.len() as int),
        executable_outcome(
            rows,
            have_32_bit_addresses,
            Some(crate::records::encode_records(recs, have_32_bit_addresses) + t),
            r,
        ),
    ensures
        r == Err::<Functions, AnalysisError>(AnalysisError::MalformedInput),
{
    crate::records::lemma_truncated_rejected(recs, last, t, have_32_bit_addresses);
}

} // verus!
