//! Analysis of a relocatable object file: each `.stack_sizes` record is
//! paired, by position, with an entry of the relocation section that follows
//! it, which names the symbol that the record is about.
use vstd::prelude::*;
use crate::error::AnalysisError;
use crate::elf::{
    ElfImage, check_readable, check_relocs, elf_type, elf_type_of, readable, relocs_ok, section_count,
    section_data, section_is_stack_sizes, section_relocs, sections_of, symbols_of, symtab_shape,
    symtab_shape_of, SectionView, SymtabShape,
};
use crate::executable::{check_names, clear_thumb, names_readable, read_symbols};
use crate::records::{decode_stack_sizes, records_of};
use crate::symbols::{is_alias, is_tag, SymbolEntry, SymbolKind};

verus! {

/// A row that gives a name to a place in an object file: a `Func`, or an
/// alias candidate.
pub open spec fn is_named_place(e: SymbolEntry) -> bool {
    e.kind == SymbolKind::Func || is_alias(e)
}

/// The name of the first row from `k` on that names the address `addr`
/// (Thumb bit cleared) of section `shndx`.
pub open spec fn name_from(rows: Seq<SymbolEntry>, shndx: u16, addr: u64, k: int) -> Option<Seq<char>>
    decreases rows.len() - k,
{
    if k < 0 || k >= rows.len() {
        None
    } else if is_named_place(rows[k]) && rows[k].shndx == shndx && clear_thumb(rows[k].value) == addr {
        rows[k].name_view()
    } else {
        name_from(rows, shndx, addr, k + 1)
    }
}

/// The name that stands for the symbol with table index `idx` and a record
/// at address `addr`: the section of that symbol (none for index 0), then
/// the first name at that address in that section.
pub open spec fn resolve(rows: Seq<SymbolEntry>, idx: u32, addr: u64) -> Option<Seq<char>> {
    if idx < rows.len() && rows[idx as int].shndx != 0 {
        name_from(rows, rows[idx as int].shndx, addr, 0)
    } else {
        None
    }
}

pub open spec fn table_has(t: Seq<(Seq<char>, u64)>, n: Seq<char>) -> bool {
    exists|k: int| 0 <= k < t.len() && (#[trigger] t[k]).0 == n
}

/// Adds the records `recs` from `j` on, named through the relocations `idx`,
/// to the table `t`; fails where a name cannot be found or is already there.
pub open spec fn add_records(
    rows: Seq<SymbolEntry>,
    t: Seq<(Seq<char>, u64)>,
    recs: Seq<(u64, u64)>,
    idx: Seq<u32>,
    j: int,
) -> Result<Seq<(Seq<char>, u64)>, AnalysisError>
    decreases recs.len() - j,
{
    if j < 0 || j >= recs.len() || j >= idx.len() {
        Ok(t)
    } else {
        match resolve(rows, idx[j], recs[j].0) {
            None => Err(AnalysisError::InconsistentData),
            Some(n) => if table_has(t, n) {
                Err(AnalysisError::InconsistentData)
            } else {
                add_records(rows, t.push((n, recs[j].1)), recs, idx, j + 1)
            },
        }
    }
}

/// The table after the sections from `i` on, given the table `t` so far.
pub open spec fn object_from(
    b: Seq<u8>,
    rows: Seq<SymbolEntry>,
    is_64_bit: bool,
    secs: Seq<SectionView>,
    i: int,
    t: Seq<(Seq<char>, u64)>,
) -> Result<Seq<(Seq<char>, u64)>, AnalysisError>
    decreases secs.len() - i,
{
    if i < 0 || i >= secs.len() {
        Ok(t)
    } else if !secs[i].is_stack_sizes() {
        object_from(b, rows, is_64_bit, secs, i + 1, t)
    } else if i + 1 >= secs.len() || !relocs_ok(b, i + 1) || !(secs[i + 1].relocs matches Some((w, _))
        && w == is_64_bit) {
        Err(AnalysisError::InconsistentData)
    } else {
        let idx = secs[i + 1].relocs->Some_0.1;
        match records_of(secs[i].data, !is_64_bit) {
            None => Err(AnalysisError::MalformedInput),
            Some(recs) => if recs.len() != idx.len() {
                Err(AnalysisError::InconsistentData)
            } else {
                match add_records(rows, t, recs, idx, 0) {
                    Err(e) => Err(e),
                    Ok(t2) => object_from(b, rows, is_64_bit, secs, i + 2, t2),
                }
            },
        }
    }
}

pub open spec fn table_view(t: Seq<(String, u64)>) -> Seq<(Seq<char>, u64)> {
    t.map_values(|p: (String, u64)| (p.0@, p.1))
}

/// Whether `n` is already a name of `t`.
fn table_contains(t: &Vec<(String, u64)>, n: &String) -> (r: bool)
    ensures
        r == table_has(table_view(t@), n@),
{
    let mut i: usize = 0;
    while i < t.len()
        invariant
            i <= t@.len(),
            forall|k: int| 0 <= k < i ==> (#[trigger] t@[k]).0@ != n@,
        decreases t.len() - i,
    {
        if t[i].0 == *n {
            assert(table_view(t@)[i as int].0 == n@);
            return true;
        }
        i = i + 1;
    }
    proof {
        assert forall|k: int| 0 <= k < t@.len() implies (#[trigger] table_view(t@)[k]).0 != n@ by {
            assert(t@[k].0@ != n@);
        }
    }
    false
}

/// The name that stands for symbol `idx` and address `addr` (see `resolve`).
fn resolve_name(rows: &Vec<SymbolEntry>, idx: u32, addr: u64) -> (r: Option<String>)
    requires
        names_readable(rows@),
    ensures
        match resolve(rows@, idx, addr) {
            Some(n) => r matches Some(s) && s@ == n,
            None => r is None,
        },
{
    if idx as usize >= rows.len() || rows[idx as usize].shndx == 0 {
        return None;
    }
    let shndx = rows[idx as usize].shndx;
    let mut k: usize = 0;
    while k < rows.len()
        invariant
            names_readable(rows@),
            k <= rows@.len(),
            resolve(rows@, idx, addr) == name_from(rows@, shndx, addr, k as int),
        decreases rows.len() - k,
    {
        let e = &rows[k];
        let place = match &e.name {
            Some(n) => e.kind == SymbolKind::Func || (e.kind == SymbolKind::NoType && n.unicode_len() > 0 && !is_tag(n.as_str())),
            None => false,
        };
        proof {
            if rows@[k as int].kind == SymbolKind::Func {
                assert(rows@[k as int].name is Some);
            }
        }
        if place && e.shndx == shndx && (e.value & 0xffff_ffff_ffff_fffeu64) == addr {
            return e.name.clone();
        }
        k = k + 1;
    }
    None
}

/// Adds the records of one `.stack_sizes` section to the table `t`, each
/// under the name that its relocation gives.
fn add_section(
    rows: &Vec<SymbolEntry>,
    t: &mut Vec<(String, u64)>,
    recs: &Vec<(u64, u64)>,
    idx: &Vec<u32>,
) -> (r: Result<(), AnalysisError>)
    requires
        names_readable(rows@),
        recs@.len() == idx@.len(),
    ensures
        match add_records(rows@, table_view(old(t)@), recs@, idx@, 0) {
            Ok(t2) => r is Ok && table_view(final(t)@) == t2,
            Err(e) => r == Err::<(), AnalysisError>(e),
        },
{
    let ghost t0 = table_view(t@);
    let mut j: usize = 0;
    while j < recs.len()
        invariant
            t0 == table_view(old(t)@),
            names_readable(rows@),
            recs@.len() == idx@.len(),
            j <= recs@.len(),
            add_records(rows@, t0, recs@, idx@, 0) == add_records(rows@, table_view(t@), recs@, idx@, j as int),
        decreases recs.len() - j,
    {
        let (addr, stack) = recs[j];
        let ghost tv = table_view(t@);
        proof {
            reveal_with_fuel(add_records, 2);
        }
        match resolve_name(rows, idx[j], addr) {
            None => {
                assert(add_records(rows@, tv, recs@, idx@, j as int) == Err::<Seq<(Seq<char>, u64)>, AnalysisError>(AnalysisError::InconsistentData));
                return Err(AnalysisError::InconsistentData);
            },
            Some(n) => {
                if table_contains(t, &n) {
                    assert(add_records(rows@, tv, recs@, idx@, j as int) == Err::<Seq<(Seq<char>, u64)>, AnalysisError>(AnalysisError::InconsistentData));
                    return Err(AnalysisError::InconsistentData);
                }
                let ghost before = t@;
                t.push((n, stack));
                proof {
                    assert(table_view(t@) =~= table_view(before).push((n@, stack)));
                }
            },
        }
        j = j + 1;
    }
    Ok(())
}

/// The table, or the error, that analysing the object file `obj` gives.
pub open spec fn object_outcome(obj: Seq<u8>, r: Result<Seq<(Seq<char>, u64)>, AnalysisError>) -> bool {
    match elf_type_of(obj) {
        None => r == Err::<Seq<(Seq<char>, u64)>, AnalysisError>(AnalysisError::MalformedInput),
        Some(t) => if t != 1 {
            r == Err::<Seq<(Seq<char>, u64)>, AnalysisError>(AnalysisError::UnsupportedFormat)
        } else if !readable(obj) {
            r == Err::<Seq<(Seq<char>, u64)>, AnalysisError>(AnalysisError::MalformedInput)
        } else { match symtab_shape_of(obj) {
            SymtabShape::Table(w32, _) => if !names_readable(symbols_of(obj)) {
                r == Err::<Seq<(Seq<char>, u64)>, AnalysisError>(AnalysisError::MalformedInput)
            } else {
                r == object_from(obj, symbols_of(obj), !w32, sections_of(obj), 0, seq![])
            },
            _ => r == Err::<Seq<(Seq<char>, u64)>, AnalysisError>(AnalysisError::MalformedInput),
        } },
    }
}

/// Two analyses of the same object file give the same table, entry for
/// entry and in the same order, or the same error.
pub proof fn lemma_object_deterministic(
    obj: Seq<u8>,
    r1: Result<Seq<(Seq<char>, u64)>, AnalysisError>,
    r2: Result<Seq<(Seq<char>, u64)>, AnalysisError>,
)
    requires
        object_outcome(obj, r1),
        object_outcome(obj, r2),
    ensures
        r1 == r2,
{
}

/// Parses a relocatable object file (`.o`) and gives the stack usage of its
/// symbols, one entry per `.stack_sizes` record, each under a name of the
/// symbol that the record's relocation refers to.
///
/// A file whose header cannot be read, without a `.symtab` symbol table, with
/// a `Func` or `NoType` symbol whose name cannot be read or with `.stack_sizes` contents that do not split
/// into whole records is `MalformedInput`; one that is not relocatable is
/// `UnsupportedFormat`; a `.stack_sizes` section not followed by a relocation
/// section of the same width, a count of records other than that of
/// relocations, a record that no name can be found for, and a name given
/// twice are `InconsistentData`.
pub fn analyze_object(obj: &[u8]) -> (r: Result<Vec<(String, u64)>, AnalysisError>)
    ensures
        object_outcome(
            obj@,
            match r {
                Ok(v) => Ok(table_view(v@)),
                Err(e) => Err(e),
            },
        ),
{
    let img = ElfImage::new(obj);
    match elf_type(&img) {
        None => {
            return Err(AnalysisError::MalformedInput);
        },
        Some(t) => {
            if t != 1 {
                return Err(AnalysisError::UnsupportedFormat);
            }
        },
    }
    if !check_readable(obj, &img) {
        return Err(AnalysisError::MalformedInput);
    }
    match symtab_shape(&img) {
        SymtabShape::Table(_, _) => {},
        _ => {
            return Err(AnalysisError::MalformedInput);
        },
    }
    let (rows, wide32) = match read_symbols(obj, &img) {
        Ok(t) => t,
        Err(e) => {
            return Err(e);
        },
    };
    if !check_names(&rows) {
        return Err(AnalysisError::MalformedInput);
    }
    let is_64_bit = !wide32;
    let ghost secs = sections_of(obj@);
    let n = section_count(&img);
    let mut t: Vec<(String, u64)> = Vec::new();
    let mut i: usize = 0;
    proof {
        assert(table_view(t@) =~= seq![]);
    }
    while i < n
        invariant
            elf_type_of(obj@) == Some(1u16),
            readable(obj@),
            img.bytes() == obj@,
            symtab_shape_of(obj@) matches SymtabShape::Table(w, _) && w == wide32,
            rows@ == symbols_of(obj@),
            is_64_bit == !wide32,
            secs == sections_of(obj@),
            n == secs.len(),
            n == crate::layout::sh_num(obj@),
            i <= n,
            names_readable(rows@),
            object_from(obj@, rows@, is_64_bit, secs, 0, seq![]) == object_from(obj@, rows@, is_64_bit, secs, i as int, table_view(t@)),
        decreases n - i,
    {
        if !section_is_stack_sizes(&img, i) {
            i = i + 1;
        } else {
            if i + 1 >= n || !check_relocs(obj, (i + 1) as u64) {
                return Err(AnalysisError::InconsistentData);
            }
            let idx = match section_relocs(&img, i + 1) {
                Some((w, v)) => {
                    if w != is_64_bit {
                        return Err(AnalysisError::InconsistentData);
                    }
                    v
                },
                None => {
                    return Err(AnalysisError::InconsistentData);
                },
            };
            let data = section_data(&img, i);
            let recs = match decode_stack_sizes(data.as_slice(), !is_64_bit) {
                Ok(v) => v,
                Err(e) => {
                    return Err(e);
                },
            };
            if recs.len() != idx.len() {
                return Err(AnalysisError::InconsistentData);
            }
            match add_section(&rows, &mut t, &recs, &idx) {
                Ok(()) => {},
                Err(e) => {
                    return Err(e);
                },
            }
            i = i + 2;
        }
    }
    Ok(t)
}

/// The stack usage that the table `t` gives the name `n`, from entry `k` on.
pub open spec fn lookup_from(t: Seq<(Seq<char>, u64)>, n: Seq<char>, k: int) -> Option<u64>
    decreases t.len() - k,
{
    if k < 0 || k >= t.len() {
        None
    } else if t[k].0 == n {
        Some(t[k].1)
    } else {
        lookup_from(t, n, k + 1)
    }
}

/// The stack usage of the first of `names`, from index `i` on, that the
/// table `t` has.
pub open spec fn first_known(t: Seq<(Seq<char>, u64)>, names: Seq<Seq<char>>, i: int) -> Option<u64>
    decreases names.len() - i,
{
    if i < 0 || i >= names.len() {
        None
    } else {
        match lookup_from(t, names[i], 0) {
            Some(v) => Some(v),
            None => first_known(t, names, i + 1),
        }
    }
}

/// The stack usage that the table `t` gives `n`.
fn lookup(t: &Vec<(String, u64)>, n: &String) -> (r: Option<u64>)
    ensures
        r == lookup_from(table_view(t@), n@, 0),
{
    let mut k: usize = 0;
    while k < t.len()
        invariant
            k <= t@.len(),
            lookup_from(table_view(t@), n@, 0) == lookup_from(table_view(t@), n@, k as int),
        decreases t.len() - k,
    {
        if t[k].0 == *n {
            return Some(t[k].1);
        }
        k = k + 1;
    }
    None
}

/// The stack usage that an object file's table gives a function known by
/// `names`: that of the first of its names that the table has, `None` where
/// it has none of them.
pub fn stack_of_names(table: &Vec<(String, u64)>, names: &[String]) -> (r: Option<u64>)
    ensures
        r == first_known(table_view(table@), names@.map_values(|s: String| s@), 0),
{
    let ghost nv = names@.map_values(|s: String| s@);
    let mut i: usize = 0;
    while i < names.len()
        invariant
            nv == names@.map_values(|s: String| s@),
            i <= names@.len(),
            first_known(table_view(table@), nv, 0) == first_known(table_view(table@), nv, i as int),
        decreases names.len() - i,
    {
        match lookup(table, &names[i]) {
            Some(v) => {
                return Some(v);
            },
            None => {},
        }
        i = i + 1;
    }
    None
}

} // verus!
