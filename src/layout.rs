//! The shape an ELF file must have before the ELF reader is let at it: its
//! header and section table inside the file, each section's contents inside
//! the file, and section and symbol names that are NUL-terminated UTF-8
//! inside their string tables. Offsets are read little-endian.
use vstd::prelude::*;
use crate::records::{le_value, read_le_u32, read_le_u64};

verus! {

/// The unsigned little-endian integer of `w` bytes at `pos`; 0 outside `b`.
pub open spec fn field(b: Seq<u8>, pos: int, w: int) -> nat {
    if 0 <= pos && 0 <= w && pos + w <= b.len() {
        le_value(b.subrange(pos, pos + w))
    } else {
        0
    }
}

/// The file uses the 64-bit layout (class 2); else the 32-bit one.
pub open spec fn is_64(b: Seq<u8>) -> bool {
    b.len() > 4 && b[4] == 2
}

pub open spec fn sh_off(b: Seq<u8>) -> nat {
    if is_64(b) { field(b, 40, 8) } else { field(b, 32, 4) }
}

pub open spec fn sh_entsize(b: Seq<u8>) -> nat {
    if is_64(b) { field(b, 58, 2) } else { field(b, 46, 2) }
}

pub open spec fn sh_num(b: Seq<u8>) -> nat {
    if is_64(b) { field(b, 60, 2) } else { field(b, 48, 2) }
}

pub open spec fn sh_strndx(b: Seq<u8>) -> nat {
    if is_64(b) { field(b, 62, 2) } else { field(b, 50, 2) }
}

/// Size of a section header, and alignment of tables, in the file's layout.
pub open spec fn sh_size_of(b: Seq<u8>) -> nat {
    if is_64(b) { 64 } else { 40 }
}

pub open spec fn align_of(b: Seq<u8>) -> nat {
    if is_64(b) { 8 } else { 4 }
}

/// Where the header of section `j` starts.
pub open spec fn sec_base(b: Seq<u8>, j: int) -> int {
    sh_off(b) + j * sh_size_of(b)
}

pub open spec fn sec_name(b: Seq<u8>, j: int) -> nat {
    field(b, sec_base(b, j), 4)
}

pub open spec fn sec_type(b: Seq<u8>, j: int) -> nat {
    field(b, sec_base(b, j) + 4, 4)
}

pub open spec fn sec_offset(b: Seq<u8>, j: int) -> nat {
    if is_64(b) { field(b, sec_base(b, j) + 24, 8) } else { field(b, sec_base(b, j) + 16, 4) }
}

pub open spec fn sec_size(b: Seq<u8>, j: int) -> nat {
    if is_64(b) { field(b, sec_base(b, j) + 32, 8) } else { field(b, sec_base(b, j) + 20, 4) }
}

/// Byte `i` lies before `z` and is a UTF-8 continuation byte.
pub open spec fn cont(b: Seq<u8>, i: int, z: int) -> bool {
    0 <= i < z && 0x80 <= b[i] <= 0xbf
}

/// The second byte of a sequence at `i` lies before `z`, in `lo..=hi`.
pub open spec fn second_in(b: Seq<u8>, i: int, z: int, lo: u8, hi: u8) -> bool {
    0 <= i + 1 < z && lo <= b[i + 1] <= hi
}

/// The length of the well-formed UTF-8 sequence at `i` that ends before
/// `z`; 0 where there is none.
pub open spec fn char_len(b: Seq<u8>, i: int, z: int) -> int {
    let c = b[i];
    if c < 0x80 {
        1
    } else if 0xc2 <= c <= 0xdf && cont(b, i + 1, z) {
        2
    } else if c == 0xe0 && second_in(b, i, z, 0xa0, 0xbf) && cont(b, i + 2, z) {
        3
    } else if ((0xe1 <= c <= 0xec) || c == 0xee || c == 0xef) && cont(b, i + 1, z) && cont(b, i + 2, z) {
        3
    } else if c == 0xed && second_in(b, i, z, 0x80, 0x9f) && cont(b, i + 2, z) {
        3
    } else if c == 0xf0 && second_in(b, i, z, 0x90, 0xbf) && cont(b, i + 2, z) && cont(b, i + 3, z) {
        4
    } else if 0xf1 <= c <= 0xf3 && cont(b, i + 1, z) && cont(b, i + 2, z) && cont(b, i + 3, z) {
        4
    } else if c == 0xf4 && second_in(b, i, z, 0x80, 0x8f) && cont(b, i + 2, z) && cont(b, i + 3, z) {
        4
    } else {
        0
    }
}

/// The bytes from `i` up to `z` are well-formed UTF-8.
pub open spec fn utf8_range(b: Seq<u8>, i: int, z: int) -> bool
    decreases z - i,
{
    if i >= z {
        true
    } else {
        let n = char_len(b, i, z);
        n > 0 && utf8_range(b, i + n, z)
    }
}

/// From `p` on, before `end`, a NUL comes, and the bytes before it are
/// well-formed UTF-8.
pub open spec fn cstr_ok(b: Seq<u8>, p: int, end: int) -> bool {
    exists|z: int|
        #![trigger b[z]]
        0 <= p <= z < end && end <= b.len() && b[z] == 0 && (forall|q: int| p <= q < z ==> b[q] != 0)
            && utf8_range(b, p, z)
}

/// The header: magic, class, section headers of the size of the class,
/// fewer than 0xff00 of them, aligned and inside the file, and a section-name
/// table among them.
pub open spec fn header_ok(b: Seq<u8>) -> bool {
    &&& b.len() >= 64
    &&& b[0] == 0x7f && b[1] == 0x45 && b[2] == 0x4c && b[3] == 0x46
    &&& (b[4] == 1 || b[4] == 2)
    &&& sh_entsize(b) == sh_size_of(b)
    &&& sh_num(b) < 0xff00
    &&& sh_off(b) % align_of(b) == 0
    &&& sh_off(b) + sh_num(b) * sh_size_of(b) <= b.len()
    &&& sh_strndx(b) < sh_num(b)
}

/// Section `j` of a file whose header is well formed: a null section, or
/// one whose contents (unless it occupies no file space) lie in the file and
/// whose name is NUL-terminated UTF-8 inside the file.
pub open spec fn section_ok(b: Seq<u8>, j: int) -> bool {
    sec_type(b, j) == 0 || ((sec_type(b, j) == 8 || sec_offset(b, j) + sec_size(b, j) <= b.len())
        && cstr_ok(b, (sec_offset(b, sh_strndx(b) as int) + sec_name(b, j)) as int, b.len() as int))
}

/// The file's header and all its sections are well formed.
pub open spec fn layout_ok(b: Seq<u8>) -> bool {
    &&& header_ok(b)
    &&& forall|j: int| 0 <= j < sh_num(b) ==> #[trigger] section_ok(b, j)
}

/// The integer of `w` bytes at `pos`.
pub(crate) fn read_field(b: &[u8], pos: usize, w: usize) -> (r: u64)
    requires
        w == 2 || w == 4 || w == 8,
        pos + w <= b@.len(),
    ensures
        r as nat == field(b@, pos as int, w as int),
{
    if w == 8 {
        read_le_u64(b, pos)
    } else if w == 4 {
        read_le_u32(b, pos) as u64
    } else {
        let ghost s = b@.subrange(pos as int, pos + 2);
        proof {
            reveal_with_fuel(le_value, 3);
            assert(s.skip(1).skip(1).len() == 0);
            assert(s.skip(1)[0] == s[1]);
        }
        b[pos] as u64 + 256 * (b[pos + 1] as u64)
    }
}

/// The length of the well-formed UTF-8 sequence at `i` before `z`, or 0.
fn check_char(b: &[u8], i: usize, z: usize) -> (r: usize)
    requires
        i < z <= b@.len(),
    ensures
        r as int == char_len(b@, i as int, z as int),
{
    let c = b[i];
    let c1 = |k: usize| -> (r: bool)
        requires
            k <= 3,
            i < z <= b@.len(),
        ensures
            r == cont(b@, i + k, z as int),
        { k < z - i && 0x80 <= b[i + k] && b[i + k] <= 0xbf };
    let s2 = |lo: u8, hi: u8| -> (r: bool)
        requires
            i < z <= b@.len(),
        ensures
            r == second_in(b@, i as int, z as int, lo, hi),
        { 1 < z - i && lo <= b[i + 1] && b[i + 1] <= hi };
    if c < 0x80 {
        1
    } else if 0xc2 <= c && c <= 0xdf && c1(1) {
        2
    } else if c == 0xe0 && s2(0xa0, 0xbf) && c1(2) {
        3
    } else if ((0xe1 <= c && c <= 0xec) || c == 0xee || c == 0xef) && c1(1) && c1(2) {
        3
    } else if c == 0xed && s2(0x80, 0x9f) && c1(2) {
        3
    } else if c == 0xf0 && s2(0x90, 0xbf) && c1(2) && c1(3) {
        4
    } else if 0xf1 <= c && c <= 0xf3 && c1(1) && c1(2) && c1(3) {
        4
    } else if c == 0xf4 && s2(0x80, 0x8f) && c1(2) && c1(3) {
        4
    } else {
        0
    }
}

/// Whether `cstr_ok(b, p, end)`.
pub fn check_cstr(b: &[u8], p: u64, end: usize) -> (r: bool)
    ensures
        r == cstr_ok(b@, p as int, end as int),
{
    if p > end as u64 || end > b.len() {
        return false;
    }
    let mut z: usize = p as usize;
    while z < end && b[z] != 0
        invariant
            p <= z <= end <= b@.len(),
            forall|q: int| p <= q < z ==> b@[q] != 0,
        decreases end - z,
    {
        z = z + 1;
    }
    if z >= end {
        return false;
    }
    let mut i: usize = p as usize;
    while i < z
        invariant
            p <= i <= z < end <= b@.len(),
            b@[z as int] == 0,
            forall|q: int| p <= q < z ==> b@[q] != 0,
            utf8_range(b@, p as int, z as int) == utf8_range(b@, i as int, z as int),
        decreases z - i,
    {
        let n = check_char(b, i, z);
        if n == 0 {
            proof {
                assert(!utf8_range(b@, i as int, z as int));
                assert forall|w: int| 0 <= p <= w < end && end <= b@.len() && b@[w] == 0 && (forall|q: int| p <= q < w ==> b@[q] != 0)
                    implies w == z by {
                    if w < z {
                        assert(b@[w] != 0);
                    }
                    if w > z {
                        assert(b@[z as int] != 0);
                    }
                }
            }
            return false;
        }
        i = i + n;
    }
    assert(b@[z as int] == 0);
    true
}

/// The offset of the section header table's entry `j`, with its fields.
pub(crate) fn read_section(b: &[u8], j: u64) -> (r: (u64, u64, u64, u64))
    requires
        header_ok(b@),
        j < sh_num(b@),
    ensures
        r.0 as nat == sec_name(b@, j as int),
        r.1 as nat == sec_type(b@, j as int),
        r.2 as nat == sec_offset(b@, j as int),
        r.3 as nat == sec_size(b@, j as int),
{
    let wide = b[4] == 2;
    let off: u64 = if wide { read_field(b, 40, 8) } else { read_field(b, 32, 4) };
    let ent: u64 = if wide { 64 } else { 40 };
    proof {
        assert(j * ent + ent <= sh_num(b@) * ent) by (nonlinear_arith)
            requires j < sh_num(b@), ent > 0;
    }
    let base = (off + j * ent) as usize;
    let name = read_field(b, base, 4);
    let ty = read_field(b, base + 4, 4);
    if wide {
        (name, ty, read_field(b, base + 24, 8), read_field(b, base + 32, 8))
    } else {
        (name, ty, read_field(b, base + 16, 4), read_field(b, base + 20, 4))
    }
}

/// Whether `header_ok(b)`.
fn check_header(b: &[u8]) -> (r: bool)
    ensures
        r == header_ok(b@),
{
    if b.len() < 64 || b[0] != 0x7f || b[1] != 0x45 || b[2] != 0x4c || b[3] != 0x46 {
        return false;
    }
    if b[4] != 1 && b[4] != 2 {
        return false;
    }
    let wide = b[4] == 2;
    let off: u64 = if wide { read_field(b, 40, 8) } else { read_field(b, 32, 4) };
    let entsize: u64 = if wide { read_field(b, 58, 2) } else { read_field(b, 46, 2) };
    let num: u64 = if wide { read_field(b, 60, 2) } else { read_field(b, 48, 2) };
    let strndx: u64 = if wide { read_field(b, 62, 2) } else { read_field(b, 50, 2) };
    let ent: u64 = if wide { 64 } else { 40 };
    let align: u64 = if wide { 8 } else { 4 };
    if entsize != ent || num >= 0xff00 || off % align != 0 || strndx >= num {
        return false;
    }
    off <= b.len() as u64 && num * ent <= b.len() as u64 - off
}

/// Whether `layout_ok(b)`.
pub fn check_layout(b: &[u8]) -> (r: bool)
    ensures
        r == layout_ok(b@),
{
    if !check_header(b) {
        return false;
    }
    let wide = b[4] == 2;
    let num: u64 = if wide { read_field(b, 60, 2) } else { read_field(b, 48, 2) };
    let strndx: u64 = if wide { read_field(b, 62, 2) } else { read_field(b, 50, 2) };
    let (_, _, str_off, _) = read_section(b, strndx);
    let mut j: u64 = 0;
    while j < num
        invariant
            header_ok(b@),
            num == sh_num(b@),
            str_off == sec_offset(b@, sh_strndx(b@) as int),
            j <= num,
            forall|k: int| 0 <= k < j ==> #[trigger] section_ok(b@, k),
        decreases num - j,
    {
        let (name, ty, off, size) = read_section(b, j);
        if ty != 0 {
            if ty != 8 && (off > b.len() as u64 || size > b.len() as u64 - off) {
                assert(!section_ok(b@, j as int));
                return false;
            }
            if name > b.len() as u64 || str_off > b.len() as u64 - name {
                assert(!section_ok(b@, j as int));
                return false;
            }
            if !check_cstr(b, str_off + name, b.len()) {
                assert(!section_ok(b@, j as int));
                return false;
            }
        }
        j = j + 1;
    }
    true
}

} // verus!
