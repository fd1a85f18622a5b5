//! Symbol-table rows as plain values, and how a row is classified.
use vstd::prelude::*;

verus! {

/// The symbol types that the analysis tells apart.
#[derive(Clone, Copy, Debug, PartialEq, Eq, Structural)]
pub enum SymbolKind {
    Func,
    NoType,
    Other,
}

/// One row of an ELF symbol table. `name` is `None` where the string table
/// could not give the name.
#[derive(Clone, Debug)]
pub struct SymbolEntry {
    pub kind: SymbolKind,
    pub value: u64,
    pub size: u64,
    pub shndx: u16,
    pub name: Option<String>,
}

impl SymbolEntry {
    pub open spec fn name_view(&self) -> Option<Seq<char>> {
        match self.name {
            Some(n) => Some(n@),
            None => None,
        }
    }
}

pub open spec fn is_tag_letter(c: char) -> bool {
    c == 'a' || c == 't' || c == 'd'
}

/// Mapping symbols that mark code and data inside a subroutine: `$a`, `$t`,
/// `$d`, or one of them followed by `.` and a decimal numeral.
pub open spec fn is_tag_spec(n: Seq<char>) -> bool {
    &&& n.len() >= 2
    &&& n[0] == '$'
    &&& is_tag_letter(n[1])
    &&& (n.len() == 2 || (n.len() > 3 && n[2] == '.' && forall|i: int|
        3 <= i < n.len() ==> '0' <= #[trigger] n[i] <= '9'))
}

/// Whether `name` is a mapping symbol (see `is_tag_spec`).
pub fn is_tag(name: &str) -> (r: bool)
    ensures
        r == is_tag_spec(name@),
{
    let len = name.unicode_len();
    if len < 2 || name.get_char(0) != '$' {
        return false;
    }
    let c = name.get_char(1);
    if !(c == 'a' || c == 't' || c == 'd') {
        return false;
    }
    if len == 2 {
        return true;
    }
    if len == 3 || name.get_char(2) != '.' {
        return false;
    }
    let mut i: usize = 3;
    while i < len
        invariant
            3 <= i <= len,
            len == name@.len(),
            forall|k: int| 3 <= k < i ==> '0' <= #[trigger] name@[k] <= '9',
        decreases len - i,
    {
        let d = name.get_char(i);
        if !('0' <= d && d <= '9') {
            return false;
        }
        i = i + 1;
    }
    true
}

/// A `Func` row without an address and size: resolved at load time.
pub open spec fn is_undefined_func(e: SymbolEntry) -> bool {
    e.kind == SymbolKind::Func && e.value == 0 && e.size == 0
}

/// A `Func` row with a place in the file.
pub open spec fn is_defined_func(e: SymbolEntry) -> bool {
    e.kind == SymbolKind::Func && !(e.value == 0 && e.size == 0)
}

/// A `NoType` row whose name may be another name of a function.
pub open spec fn is_alias(e: SymbolEntry) -> bool {
    &&& e.kind == SymbolKind::NoType
    &&& e.name_view() matches Some(n) && n.len() > 0 && !is_tag_spec(n)
}

} // verus!
