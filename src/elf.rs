//! What the analysis reads from an ELF file through `xmas_elf`, as plain
//! values: the symbol table and the list of sections.
//!
//! The reader panics on files whose tables point outside the file, whose
//! names are not NUL-terminated UTF-8, or whose tables are misaligned or cut
//! short. Each wrapper therefore requires `readable` (or the part of it that
//! its call needs), which `check_readable` tests in verified code, and hands
//! the reader the bytes as an `ElfImage` holds them: at an address that is a
//! multiple of 8, which with the aligned table offsets that `readable` asks
//! for covers the alignment of the reader's casts. The reader takes
//! multi-byte fields in the host's byte order, and `layout` reads them
//! little-endian, so the clauses that relate the two assume a little-endian
//! host.
use vstd::prelude::*;
use xmas_elf::sections::SectionData;
use xmas_elf::symbol_table::{Entry, Type};
use xmas_elf::ElfFile;
use crate::symbols::{SymbolEntry, SymbolKind};
use crate::layout::{
    align_of, check_cstr, check_layout, cstr_ok, field, is_64, layout_ok, read_field, read_section, sec_offset,
    sec_size, sec_type, sh_num,
};

verus! {

/// What the ELF reader finds where the symbol table should be.
#[derive(Clone, Copy, Debug, PartialEq, Eq, Structural)]
pub enum SymtabShape {
    /// The header could not be read: not an ELF file.
    NotElf,
    /// No section is named `.symtab`.
    Absent,
    /// The `.symtab` section's contents could not be read.
    Unreadable,
    /// `.symtab` holds something other than symbols.
    Malformed,
    /// A symbol table with 32-bit (`true`) or 64-bit entries, and its length.
    Table(bool, usize),
}

/// One section, as the analysis sees it.
pub struct SectionView {
    /// Its name, where the section-name table gives one.
    pub name: Option<Seq<char>>,
    /// Its bytes (read only for `.stack_sizes`).
    pub data: Seq<u8>,
    /// For a relocation section (with or without addends): whether its
    /// entries are 64-bit, and the symbol-table index of each entry.
    pub relocs: Option<(bool, Seq<u32>)>,
}

/// A copy of a file's bytes, placed in its buffer at an address that is a
/// multiple of 8, as the ELF reader's casts need.
pub struct ElfImage {
    buf: Vec<u8>,
    start: usize,
    end: usize,
}

/// Relies on `<*const u8>::align_offset`: how many bytes past the start of
/// the buffer of `v` the next address that is a multiple of 8 lies.
#[verifier::external_body]
fn align_gap(v: &Vec<u8>) -> (r: usize) {
    v.as_ptr().align_offset(8)
}

impl ElfImage {
    /// The bytes held.
    pub closed spec fn bytes(&self) -> Seq<u8> {
        self.buf@.subrange(self.start as int, self.end as int)
    }

    /// A copy of `b`, aligned.
    pub fn new(b: &[u8]) -> (r: ElfImage)
        ensures
            r.bytes() == b@,
    {
        let n = b.len();
        let mut buf: Vec<u8> = Vec::new();
        let mut i: usize = 0;
        while i < n
            invariant
                n == b@.len(),
                i <= n,
                buf@ == b@.take(i as int),
            decreases n - i,
        {
            buf.push(b[i]);
            proof {
                assert(buf@ =~= b@.take(i + 1));
            }
            i = i + 1;
        }
        let mut k: usize = 0;
        while k < 8
            invariant
                n == b@.len(),
                k <= 8,
                buf@.len() == n + k,
                buf@.take(n as int) == b@,
            decreases 8 - k,
        {
            buf.push(0);
            proof {
                assert(buf@.take(n as int) =~= b@);
            }
            k = k + 1;
        }
        let total = buf.len();
        let gap = align_gap(&buf);
        let gap: usize = if gap <= 8 { gap } else { 0 };
        let mut j: usize = n;
        while j > 0
            invariant
                total == n + 8,
                n == b@.len(),
                gap <= 8,
                buf@.len() == n + 8,
                j <= n,
                forall|q: int| 0 <= q < j ==> buf@[q] == b@[q],
                forall|q: int| j <= q < n ==> buf@[gap + q] == b@[q],
            decreases j,
        {
            let x = buf[j - 1];
            buf.set(gap + j - 1, x);
            j = j - 1;
        }
        let r = ElfImage { buf, start: gap, end: gap + n };
        proof {
            assert(r.bytes() =~= b@);
        }
        r
    }
}

/// The name of the sections that hold stack-size records.
pub open spec fn stack_sizes_name() -> Seq<char> {
    seq!['.', 's', 't', 'a', 'c', 'k', '_', 's', 'i', 'z', 'e', 's']
}

impl SectionView {
    pub open spec fn is_stack_sizes(&self) -> bool {
        self.name == Some(stack_sizes_name())
    }
}

pub open spec fn symtab_name() -> Seq<char> {
    seq!['.', 's', 'y', 'm', 't', 'a', 'b']
}

pub open spec fn strtab_name() -> Seq<char> {
    seq!['.', 's', 't', 'r', 't', 'a', 'b']
}

/// The index of the first section from `i` on named `n`.
pub open spec fn first_named(secs: Seq<SectionView>, n: Seq<char>, i: int) -> Option<int>
    decreases secs.len() - i,
{
    if i < 0 || i >= secs.len() {
        None
    } else if secs[i].name == Some(n) {
        Some(i)
    } else {
        first_named(secs, n, i + 1)
    }
}

pub open spec fn sym_entsize(b: Seq<u8>) -> nat {
    if is_64(b) { 24 } else { 16 }
}

/// The section named `.symtab`, where there is one, is a symbol table whose
/// entries fill it exactly and start aligned.
pub open spec fn symtab_ok(b: Seq<u8>) -> bool {
    match first_named(sections_of(b), symtab_name(), 0) {
        None => true,
        Some(t) => sec_type(b, t) == 2 && sec_size(b, t) % sym_entsize(b) == 0 && sec_offset(b, t)
            % align_of(b) == 0,
    }
}

/// The name of symbol `k` of table `t` is a NUL-terminated UTF-8 string
/// inside the string table `s`.
pub open spec fn symbol_name_ok(b: Seq<u8>, t: int, s: int, k: int) -> bool {
    let n = field(b, sec_offset(b, t) + k * sym_entsize(b), 4);
    cstr_ok(b, (sec_offset(b, s) + n) as int, (sec_offset(b, s) + sec_size(b, s)) as int)
}

/// Where the symbol names are read from `.strtab`, each of them can be.
pub open spec fn symbol_names_ok(b: Seq<u8>) -> bool {
    match first_named(sections_of(b), symtab_name(), 0) {
        Some(t) => match first_named(sections_of(b), strtab_name(), 0) {
            Some(s) => sec_type(b, s) == 3 ==> symbol_names_in(b, t, s),
            None => true,
        },
        None => true,
    }
}

/// Every name of symbol table `t` can be read from string table `s`.
pub open spec fn symbol_names_in(b: Seq<u8>, t: int, s: int) -> bool {
    forall|k: int| 0 <= k < sec_size(b, t) / sym_entsize(b) ==> #[trigger] symbol_name_ok(b, t, s, k)
}

/// Section `i` is a relocation section (with or without addends) whose
/// entries fill it exactly and start aligned.
pub open spec fn relocs_ok(b: Seq<u8>, i: int) -> bool {
    let e: nat = if sec_type(b, i) == 9 {
        if is_64(b) { 16 } else { 8 }
    } else {
        if is_64(b) { 24 } else { 12 }
    };
    &&& (sec_type(b, i) == 9 || sec_type(b, i) == 4)
    &&& sec_size(b, i) % e == 0
    &&& sec_offset(b, i) % align_of(b) == 0
}

/// Every section named `.stack_sizes` has contents in the file.
pub open spec fn stack_sizes_ok(b: Seq<u8>) -> bool {
    forall|j: int| 0 <= j < sections_of(b).len() && (#[trigger] sections_of(b)[j]).is_stack_sizes() ==> sec_type(b, j) != 8
}

/// The file can be read by the ELF reader without fault.
pub open spec fn readable(b: Seq<u8>) -> bool {
    &&& layout_ok(b)
    &&& symtab_ok(b)
    &&& symbol_names_ok(b)
    &&& stack_sizes_ok(b)
}

/// The ELF header of `b`, where it can be read: the object-file type
/// (`e_type`; 1 is relocatable).
pub uninterp spec fn elf_type_of(b: Seq<u8>) -> Option<u16>;

/// What the ELF reader finds of the symbol table of `b`.
pub uninterp spec fn symtab_shape_of(b: Seq<u8>) -> SymtabShape;

/// The rows of the symbol table of `b`, in table order.
pub uninterp spec fn symbols_of(b: Seq<u8>) -> Seq<SymbolEntry>;

/// The sections of `b` in header order, as far as their headers can be read.
pub uninterp spec fn sections_of(b: Seq<u8>) -> Seq<SectionView>;

/// Relies on `ElfFile::new` and the header's `type_`: `None` where the
/// header cannot be parsed (too short, no magic, unknown class), else the
/// object-file type.
#[verifier::external_body]
pub(crate) fn elf_type(img: &ElfImage) -> (r: Option<u16>)
    ensures
        r == elf_type_of(img.bytes()),
        layout_ok(img.bytes()) ==> r == Some(field(img.bytes(), 16, 2) as u16),
{
    let elf = ElfFile::new(&img.buf[img.start..img.end]).ok()?;
    Some(elf.header.pt2.type_().0)
}

/// Relies on `ElfFile::new`, `find_section_by_name(".symtab")` and
/// `get_data`: how the symbol table reads, and how many rows it has.
#[verifier::external_body]
pub(crate) fn symtab_shape(img: &ElfImage) -> (r: SymtabShape)
    requires
        layout_ok(img.bytes()),
        symtab_ok(img.bytes()),
    ensures
        r == symtab_shape_of(img.bytes()),
        elf_type_of(img.bytes()) is None <==> r == SymtabShape::NotElf,
        r matches SymtabShape::Table(_, n) ==> n == symbols_of(img.bytes()).len(),
{
    let b = &img.buf[img.start..img.end];
    let elf = match ElfFile::new(b) {
        Ok(elf) => elf,
        Err(_) => return SymtabShape::NotElf,
    };
    let Some(s) = elf.find_section_by_name(".symtab") else { return SymtabShape::Absent };
    match s.get_data(&elf) {
        Err(_) => SymtabShape::Unreadable,
        Ok(SectionData::SymbolTable32(es)) => SymtabShape::Table(true, es.len()),
        Ok(SectionData::SymbolTable64(es)) => SymtabShape::Table(false, es.len()),
        Ok(_) => SymtabShape::Malformed,
    }
}

/// Relies on the `.symtab` entries of `xmas_elf` (`Entry`): row `i` of the
/// symbol table, its type, value, size, section index and name.
#[verifier::external_body]
pub(crate) fn symbol_at(img: &ElfImage, i: usize) -> (r: Option<SymbolEntry>)
    requires
        readable(img.bytes()),
        symtab_shape_of(img.bytes()) matches SymtabShape::Table(_, n) && i < n,
    ensures
        r == Some(symbols_of(img.bytes())[i as int]),
{
    let elf = ElfFile::new(&img.buf[img.start..img.end]).ok()?;
    let e: &dyn Entry = match elf.find_section_by_name(".symtab")?.get_data(&elf).ok()? {
        SectionData::SymbolTable32(es) => &es[i],
        SectionData::SymbolTable64(es) => &es[i],
        _ => return None,
    };
    let kind = match e.get_type() {
        Ok(Type::Func) => SymbolKind::Func,
        Ok(Type::NoType) => SymbolKind::NoType,
        _ => SymbolKind::Other,
    };
    let name = e.get_name(&elf).ok().map(String::from);
    Some(SymbolEntry { kind, name, value: e.value(), size: e.size(), shndx: e.shndx() })
}

/// Relies on `ElfFile::section_iter`: the number of sections it yields.
#[verifier::external_body]
pub(crate) fn section_count(img: &ElfImage) -> (r: usize)
    requires
        layout_ok(img.bytes()),
    ensures
        r == sections_of(img.bytes()).len(),
        r == sh_num(img.bytes()),
{
    let elf = ElfFile::new(&img.buf[img.start..img.end]).unwrap();
    elf.section_iter().count()
}

/// Relies on `SectionHeader::get_name`: the name of section `i`.
#[verifier::external_body]
pub(crate) fn section_name(img: &ElfImage, i: usize) -> (r: Option<String>)
    requires
        layout_ok(img.bytes()),
        i < sections_of(img.bytes()).len(),
    ensures
        match sections_of(img.bytes())[i as int].name {
            Some(n) => r matches Some(s) && s@ == n,
            None => r is None,
        },
        r is Some ==> sec_type(img.bytes(), i as int) != 0,
{
    let elf = ElfFile::new(&img.buf[img.start..img.end]).unwrap();
    let s = elf.section_iter().nth(i).unwrap();
    s.get_name(&elf).ok().map(String::from)
}

/// Whether `name` reads `target`.
pub(crate) fn same_chars(name: &str, target: &str) -> (r: bool)
    ensures
        r == (name@ == target@),
{
    let len = name.unicode_len();
    if len != target.unicode_len() {
        return false;
    }
    let mut i: usize = 0;
    while i < len
        invariant
            len == name@.len(),
            len == target@.len(),
            i <= len,
            forall|k: int| 0 <= k < i ==> name@[k] == target@[k],
        decreases len - i,
    {
        if name.get_char(i) != target.get_char(i) {
            return false;
        }
        i = i + 1;
    }
    proof {
        assert(name@ =~= target@);
    }
    true
}

/// Whether `name` is `.stack_sizes`.
pub(crate) fn is_stack_sizes_name(name: &str) -> (r: bool)
    ensures
        r == (name@ == stack_sizes_name()),
{
    let target = ".stack_sizes";
    proof {
        reveal_strlit(".stack_sizes");
        assert(target@ =~= stack_sizes_name());
    }
    same_chars(name, target)
}

/// Whether section `i` is named `.stack_sizes`.
pub(crate) fn section_is_stack_sizes(img: &ElfImage, i: usize) -> (r: bool)
    requires
        layout_ok(img.bytes()),
        i < sections_of(img.bytes()).len(),
    ensures
        r == sections_of(img.bytes())[i as int].is_stack_sizes(),
        r ==> sec_type(img.bytes(), i as int) != 0,
{
    match section_name(img, i) {
        Some(n) => is_stack_sizes_name(n.as_str()),
        None => false,
    }
}

/// Relies on `SectionHeader::raw_data`: the bytes of section `i`.
#[verifier::external_body]
pub(crate) fn section_data(img: &ElfImage, i: usize) -> (r: Vec<u8>)
    requires
        layout_ok(img.bytes()),
        i < sections_of(img.bytes()).len(),
        sections_of(img.bytes())[i as int].name is Some,
        sec_type(img.bytes(), i as int) != 8,
    ensures
        r@ == sections_of(img.bytes())[i as int].data,
{
    let elf = ElfFile::new(&img.buf[img.start..img.end]).unwrap();
    let s = elf.section_iter().nth(i).unwrap();
    s.raw_data(&elf).to_vec()
}

/// Relies on `SectionHeader::get_data` and `get_symbol_table_index` of
/// `Rel` and `Rela` entries: the symbol index of each relocation of section
/// `i`, where it is a relocation section.
#[verifier::external_body]
pub(crate) fn section_relocs(img: &ElfImage, i: usize) -> (r: Option<(bool, Vec<u32>)>)
    requires
        layout_ok(img.bytes()),
        i < sections_of(img.bytes()).len(),
        relocs_ok(img.bytes(), i as int),
    ensures
        match sections_of(img.bytes())[i as int].relocs {
            Some((wide, idx)) => r matches Some((w, v)) && w == wide && v@ == idx,
            None => r is None,
        },
{
    let elf = ElfFile::new(&img.buf[img.start..img.end]).ok()?;
    let s = elf.section_iter().nth(i)?;
    Some(match s.get_data(&elf).ok()? {
        SectionData::Rel32(rs) => (false, rs.iter().map(|r| r.get_symbol_table_index()).collect()),
        SectionData::Rela32(rs) => (false, rs.iter().map(|r| r.get_symbol_table_index()).collect()),
        SectionData::Rel64(rs) => (true, rs.iter().map(|r| r.get_symbol_table_index()).collect()),
        SectionData::Rela64(rs) => (true, rs.iter().map(|r| r.get_symbol_table_index()).collect()),
        _ => return None,
    })
}

proof fn lemma_first_named(secs: Seq<SectionView>, n: Seq<char>, i: int)
    ensures
        first_named(secs, n, i) matches Some(x) ==> 0 <= i <= x < secs.len() && secs[x].name == Some(n),
    decreases secs.len() - i,
{
    if 0 <= i < secs.len() && secs[i].name != Some(n) {
        lemma_first_named(secs, n, i + 1);
    }
}

/// Whether section `i` passes `relocs_ok`.
pub(crate) fn check_relocs(b: &[u8], i: u64) -> (r: bool)
    requires
        layout_ok(b@),
        i < sh_num(b@),
    ensures
        r == relocs_ok(b@, i as int),
{
    let (_, ty, off, size) = read_section(b, i);
    let wide = b[4] == 2;
    let e: u64 = if ty == 9 {
        if wide { 16 } else { 8 }
    } else {
        if wide { 24 } else { 12 }
    };
    let align: u64 = if wide { 8 } else { 4 };
    (ty == 9 || ty == 4) && size % e == 0 && off % align == 0
}

/// Whether the name of symbol `k` of table `t` can be read from string
/// table `s`.
fn check_symbol_name(b: &[u8], t: u64, s: u64, k: u64) -> (r: bool)
    requires
        layout_ok(b@),
        t < sh_num(b@),
        s < sh_num(b@),
        sec_type(b@, t as int) == 2,
        sec_type(b@, s as int) == 3,
        k * sym_entsize(b@) + sym_entsize(b@) <= sec_size(b@, t as int),
    ensures
        r == symbol_name_ok(b@, t as int, s as int, k as int),
{
    proof {
        assert(crate::layout::section_ok(b@, t as int));
        assert(crate::layout::section_ok(b@, s as int));
    }
    let (_, _, toff, tsize) = read_section(b, t);
    let (_, _, soff, ssize) = read_section(b, s);
    let e: u64 = if b[4] == 2 { 24 } else { 16 };
    let blen = b.len();
    proof {
        assert(toff as usize == toff);
        assert((k * e) as usize == k * e);
    }
    let pos: usize = toff as usize + (k * e) as usize;
    let nm = read_field(b, pos, 4);
    if nm > blen as u64 || soff > blen as u64 - nm {
        return false;
    }
    check_cstr(b, soff + nm, (soff + ssize) as usize)
}

/// Whether the file `b`, held aligned in `img`, is `readable`.
pub fn check_readable(b: &[u8], img: &ElfImage) -> (r: bool)
    requires
        img.bytes() == b@,
    ensures
        r == readable(b@),
{
    if !check_layout(b) {
        return false;
    }
    let ghost secs = sections_of(b@);
    let n = section_count(img);
    let sym = ".symtab";
    let strs = ".strtab";
    proof {
        reveal_strlit(".symtab");
        reveal_strlit(".strtab");
        assert(sym@ =~= symtab_name());
        assert(strs@ =~= strtab_name());
    }
    let mut t: Option<usize> = None;
    let mut s: Option<usize> = None;
    let mut j: usize = 0;
    while j < n
        invariant
            img.bytes() == b@,
            layout_ok(b@),
            secs == sections_of(b@),
            n == secs.len(),
            n == sh_num(b@),
            sym@ == symtab_name(),
            strs@ == strtab_name(),
            j <= n,
            first_named(secs, symtab_name(), 0) == (match t {
                Some(x) => Some(x as int),
                None => first_named(secs, symtab_name(), j as int),
            }),
            first_named(secs, strtab_name(), 0) == (match s {
                Some(x) => Some(x as int),
                None => first_named(secs, strtab_name(), j as int),
            }),
            forall|k: int| 0 <= k < j && (#[trigger] secs[k]).is_stack_sizes() ==> sec_type(b@, k) != 8,
        decreases n - j,
    {
        match section_name(img, j) {
            Some(nm) => {
                if t.is_none() && same_chars(nm.as_str(), sym) {
                    t = Some(j);
                }
                if s.is_none() && same_chars(nm.as_str(), strs) {
                    s = Some(j);
                }
                if is_stack_sizes_name(nm.as_str()) {
                    let (_, ty, _, _) = read_section(b, j as u64);
                    if ty == 8 {
                        return false;
                    }
                }
            },
            None => {},
        }
        j = j + 1;
    }
    let wide = b[4] == 2;
    let e: u64 = if wide { 24 } else { 16 };
    let align: u64 = if wide { 8 } else { 4 };
    let t = match t {
        None => {
            return true;
        },
        Some(t) => t,
    };
    proof {
        lemma_first_named(secs, symtab_name(), 0);
        lemma_first_named(secs, strtab_name(), 0);
    }
    let (_, tty, toff, tsize) = read_section(b, t as u64);
    if !(tty == 2 && tsize % e == 0 && toff % align == 0) {
        return false;
    }
    let s = match s {
        None => {
            return true;
        },
        Some(s) => s,
    };
    let (_, sty, soff, ssize) = read_section(b, s as u64);
    if sty != 3 {
        return true;
    }
    proof {
        assert(crate::layout::section_ok(b@, t as int));
        assert(crate::layout::section_ok(b@, s as int));
    }
    let count = tsize / e;
    let mut k: u64 = 0;
    while k < count
        invariant
            layout_ok(b@),
            secs == sections_of(b@),
            first_named(secs, symtab_name(), 0) == Some(t as int),
            first_named(secs, strtab_name(), 0) == Some(s as int),
            t < sh_num(b@),
            s < sh_num(b@),
            e == sym_entsize(b@),
            tsize == sec_size(b@, t as int),
            sec_type(b@, t as int) == 2,
            sec_type(b@, s as int) == 3,
            count == tsize / e,
            e > 0,
            k <= count,
            forall|q: int| 0 <= q < k ==> #[trigger] symbol_name_ok(b@, t as int, s as int, q),
        decreases count - k,
    {
        proof {
            assert(k * e + e <= tsize) by (nonlinear_arith)
                requires k < count, count == tsize / e, e > 0;
        }
        if !check_symbol_name(b, t as u64, s as u64, k) {
            proof {
                assert(!symbol_names_in(b@, t as int, s as int));
            }
            return false;
        }
        k = k + 1;
    }
    true
}

} // verus!
