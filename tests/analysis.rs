use stack_sizes::error::AnalysisError;
use stack_sizes::executable::{analyze_executable, analyze_symbols};
use stack_sizes::object::{analyze_object, stack_of_names};
use stack_sizes::order::report_order;
use stack_sizes::records::decode_stack_sizes;
use stack_sizes::symbols::{is_tag, SymbolEntry, SymbolKind};

struct Sec {
    name: &'static str,
    ty: u32,
    data: Vec<u8>,
    link: u32,
    entsize: u64,
}

fn pad8(v: &mut Vec<u8>) {
    while v.len() % 8 != 0 {
        v.push(0);
    }
}

/// A little-endian ELF64 file of type `ty` with the given sections after the
/// null one, and `.shstrtab` last.
fn build_elf(ty: u16, secs: Vec<Sec>) -> Vec<u8> {
    let mut shstr = vec![0u8];
    let mut name_offs = vec![];
    for s in &secs {
        name_offs.push(shstr.len() as u32);
        shstr.extend_from_slice(s.name.as_bytes());
        shstr.push(0);
    }
    let shstr_name = shstr.len() as u32;
    shstr.extend_from_slice(b".shstrtab\0");
    let mut out = vec![0u8; 64];
    let mut offs = vec![];
    for s in &secs {
        pad8(&mut out);
        offs.push(out.len() as u64);
        out.extend_from_slice(&s.data);
    }
    pad8(&mut out);
    let shstr_off = out.len() as u64;
    out.extend_from_slice(&shstr);
    pad8(&mut out);
    let sh_off = out.len() as u64;
    let count = secs.len() as u16 + 2;
    out.extend_from_slice(&[0u8; 64]);
    let mut sh = |name: u32, ty: u32, off: u64, size: u64, link: u32, entsize: u64| {
        out.extend_from_slice(&name.to_le_bytes());
        out.extend_from_slice(&ty.to_le_bytes());
        out.extend_from_slice(&0u64.to_le_bytes());
        out.extend_from_slice(&0u64.to_le_bytes());
        out.extend_from_slice(&off.to_le_bytes());
        out.extend_from_slice(&size.to_le_bytes());
        out.extend_from_slice(&link.to_le_bytes());
        out.extend_from_slice(&0u32.to_le_bytes());
        out.extend_from_slice(&8u64.to_le_bytes());
        out.extend_from_slice(&entsize.to_le_bytes());
    };
    for (i, s) in secs.iter().enumerate() {
        sh(name_offs[i], s.ty, offs[i], s.data.len() as u64, s.link, s.entsize);
    }
    sh(shstr_name, 3, shstr_off, shstr.len() as u64, 0, 0);
    out[0..4].copy_from_slice(&[0x7f, b'E', b'L', b'F']);
    out[4] = 2;
    out[5] = 1;
    out[6] = 1;
    out[16..18].copy_from_slice(&ty.to_le_bytes());
    out[18..20].copy_from_slice(&62u16.to_le_bytes());
    out[20..24].copy_from_slice(&1u32.to_le_bytes());
    out[40..48].copy_from_slice(&sh_off.to_le_bytes());
    out[52..54].copy_from_slice(&64u16.to_le_bytes());
    out[58..60].copy_from_slice(&64u16.to_le_bytes());
    out[60..62].copy_from_slice(&count.to_le_bytes());
    out[62..64].copy_from_slice(&(count - 1).to_le_bytes());
    out
}

/// `.strtab` and `.symtab` contents for symbols (name, type, section, value, size).
fn symtab(syms: &[(&str, u8, u16, u64, u64)]) -> (Vec<u8>, Vec<u8>) {
    let mut strtab = vec![0u8];
    let mut tab = vec![0u8; 24];
    for (name, ty, shndx, value, size) in syms {
        tab.extend_from_slice(&(strtab.len() as u32).to_le_bytes());
        strtab.extend_from_slice(name.as_bytes());
        strtab.push(0);
        tab.push(0x10 | ty);
        tab.push(0);
        tab.extend_from_slice(&shndx.to_le_bytes());
        tab.extend_from_slice(&value.to_le_bytes());
        tab.extend_from_slice(&size.to_le_bytes());
    }
    (strtab, tab)
}

fn uleb(mut v: u64) -> Vec<u8> {
    let mut out = vec![];
    loop {
        let b = (v & 0x7f) as u8;
        v >>= 7;
        if v == 0 {
            out.push(b);
            return out;
        }
        out.push(b | 0x80);
    }
}

fn records64(recs: &[(u64, u64)]) -> Vec<u8> {
    let mut out = vec![];
    for (a, s) in recs {
        out.extend_from_slice(&a.to_le_bytes());
        out.extend(uleb(*s));
    }
    out
}

fn relas(syms: &[u32]) -> Vec<u8> {
    let mut out = vec![];
    for s in syms {
        out.extend_from_slice(&0u64.to_le_bytes());
        out.extend_from_slice(&(((*s as u64) << 32) | 1).to_le_bytes());
        out.extend_from_slice(&0u64.to_le_bytes());
    }
    out
}

fn object_file(with_relocs: bool) -> Vec<u8> {
    let (strtab, tab) = symtab(&[("foo", 2, 1, 0, 16), ("bar", 2, 1, 0x10, 16)]);
    let mut secs = vec![
        Sec { name: ".text", ty: 1, data: vec![0u8; 32], link: 0, entsize: 0 },
        Sec { name: ".strtab", ty: 3, data: strtab, link: 0, entsize: 0 },
        Sec { name: ".symtab", ty: 2, data: tab, link: 2, entsize: 24 },
        Sec { name: ".stack_sizes", ty: 1, data: records64(&[(0, 24), (0x10, 40)]), link: 0, entsize: 0 },
    ];
    if with_relocs {
        secs.push(Sec { name: ".rela.stack_sizes", ty: 4, data: relas(&[1, 2]), link: 3, entsize: 24 });
    }
    build_elf(1, secs)
}

fn executable_file(syms: &[(&str, u8, u16, u64, u64)], recs: Option<&[(u64, u64)]>) -> Vec<u8> {
    let (strtab, tab) = symtab(syms);
    let mut secs = vec![
        Sec { name: ".text", ty: 1, data: vec![0u8; 32], link: 0, entsize: 0 },
        Sec { name: ".strtab", ty: 3, data: strtab, link: 0, entsize: 0 },
        Sec { name: ".symtab", ty: 2, data: tab, link: 2, entsize: 24 },
    ];
    if let Some(r) = recs {
        secs.push(Sec { name: ".stack_sizes", ty: 1, data: records64(r), link: 0, entsize: 0 });
    }
    build_elf(2, secs)
}

fn row(kind: SymbolKind, name: &str, value: u64, size: u64) -> SymbolEntry {
    SymbolEntry { kind, value, size, shndx: 1, name: Some(name.to_string()) }
}

fn names_of(fs: &stack_sizes::function::Functions, a: u64) -> Vec<String> {
    fs.defined[&a].names().to_vec()
}

#[test]
fn object_records_named_through_relocations() {
    let r = analyze_object(&object_file(true)).unwrap();
    assert_eq!(r, vec![("foo".to_string(), 24), ("bar".to_string(), 40)]);
}

#[test]
fn object_without_relocation_section_is_inconsistent() {
    assert_eq!(analyze_object(&object_file(false)), Err(AnalysisError::InconsistentData));
}

#[test]
fn object_analysis_refuses_executable() {
    let exe = executable_file(&[("main", 2, 1, 0x8000, 32)], Some(&[(0x8000, 16)]));
    assert_eq!(analyze_object(&exe), Err(AnalysisError::UnsupportedFormat));
}

#[test]
fn not_an_elf_file_is_malformed() {
    assert_eq!(analyze_object(b"not an elf file at all"), Err(AnalysisError::MalformedInput));
    assert!(matches!(analyze_executable(b"short"), Err(AnalysisError::MalformedInput)));
}

#[test]
fn executable_main_gets_its_stack() {
    let exe = executable_file(&[("main", 2, 1, 0x8000, 32)], Some(&[(0x8000, 16)]));
    let fs = analyze_executable(&exe).unwrap();
    assert!(!fs.have_32_bit_addresses);
    assert_eq!(fs.defined.len(), 1);
    let f = &fs.defined[&0x8000];
    assert_eq!(f.names().to_vec(), vec!["main".to_string()]);
    assert_eq!(f.size(), 32);
    assert_eq!(f.stack(), Some(16));
}

#[test]
fn executable_without_stack_sizes_has_no_usage() {
    let exe = executable_file(&[("main", 2, 1, 0x8000, 32), ("init", 2, 1, 0x8020, 8)], None);
    let fs = analyze_executable(&exe).unwrap();
    assert_eq!(fs.defined.len(), 2);
    assert!(fs.defined.values().all(|f| f.stack().is_none()));
}

#[test]
fn executable_record_without_function_is_inconsistent() {
    let exe = executable_file(&[("main", 2, 1, 0x8000, 32)], Some(&[(0x9000, 16)]));
    assert!(matches!(analyze_executable(&exe), Err(AnalysisError::InconsistentData)));
}

#[test]
fn undefined_function_is_not_defined() {
    let rows = vec![row(SymbolKind::Func, "memcpy", 0, 0), row(SymbolKind::Func, "main", 0x8000, 32)];
    let fs = analyze_symbols(&rows, false, None).unwrap();
    assert_eq!(fs.undefined, vec!["memcpy".to_string()]);
    assert!(!fs.defined.contains_key(&0));
    assert_eq!(fs.defined.len(), 1);
}

#[test]
fn thumb_symbol_takes_record_with_bit_clear() {
    let rows = vec![row(SymbolKind::Func, "reset", 0x101, 20)];
    let data = records64(&[(0x100, 8)]);
    let fs = analyze_symbols(&rows, false, Some(&data)).unwrap();
    assert_eq!(fs.defined[&0x101].stack(), Some(8));
    assert!(!fs.defined.contains_key(&0x100));
}

#[test]
fn symbol_with_bit_clear_takes_record_with_bit_set() {
    let rows = vec![row(SymbolKind::Func, "f", 0x200, 20)];
    let data = records64(&[(0x201, 12)]);
    let fs = analyze_symbols(&rows, false, Some(&data)).unwrap();
    assert_eq!(fs.defined[&0x200].stack(), Some(12));
}

#[test]
fn alias_joins_function_and_tag_does_not() {
    let rows = vec![
        row(SymbolKind::Func, "foo", 0x400, 8),
        row(SymbolKind::NoType, "foo_alias", 0x400, 0),
        row(SymbolKind::NoType, "$d.3", 0x400, 0),
        row(SymbolKind::NoType, "$t", 0x400, 0),
    ];
    let fs = analyze_symbols(&rows, true, None).unwrap();
    assert_eq!(names_of(&fs, 0x400), vec!["foo".to_string(), "foo_alias".to_string()]);
    assert!(fs.have_32_bit_addresses);
}

#[test]
fn later_record_overrides_earlier() {
    let rows = vec![row(SymbolKind::Func, "f", 0x10, 4)];
    let data = records64(&[(0x10, 8), (0x10, 24)]);
    let fs = analyze_symbols(&rows, false, Some(&data)).unwrap();
    assert_eq!(fs.defined[&0x10].stack(), Some(24));
}

#[test]
fn unnamed_function_is_malformed() {
    let rows = vec![SymbolEntry { kind: SymbolKind::Func, value: 4, size: 4, shndx: 1, name: None }];
    assert!(matches!(analyze_symbols(&rows, false, None), Err(AnalysisError::MalformedInput)));
}

#[test]
fn two_analyses_agree() {
    let exe = executable_file(
        &[("a", 2, 1, 0x10, 4), ("b", 2, 1, 0x20, 4), ("b_alias", 0, 1, 0x20, 0)],
        Some(&[(0x10, 64), (0x20, 128)]),
    );
    let x = analyze_executable(&exe).unwrap();
    let y = analyze_executable(&exe).unwrap();
    assert_eq!(format!("{:?}", x), format!("{:?}", y));
}

#[test]
fn records_round_trip() {
    let recs = vec![(0x1000u64, 0u64), (0x2000, 127), (0x3000, 128), (u64::MAX, u64::MAX)];
    assert_eq!(decode_stack_sizes(&records64(&recs), false), Ok(recs));
    assert_eq!(decode_stack_sizes(&[], true), Ok(vec![]));
    let mut short = vec![];
    short.extend_from_slice(&0x8000u32.to_le_bytes());
    short.extend(uleb(300));
    assert_eq!(decode_stack_sizes(&short, true), Ok(vec![(0x8000, 300)]));
}

#[test]
fn truncated_records_are_malformed() {
    let bytes = records64(&[(0x1000, 300)]);
    for cut in 1..bytes.len() {
        assert_eq!(
            decode_stack_sizes(&bytes[..bytes.len() - cut], false),
            Err(AnalysisError::MalformedInput)
        );
    }
}

#[test]
fn overlong_stack_value_is_malformed() {
    let mut bytes = 0u32.to_le_bytes().to_vec();
    bytes.extend_from_slice(&[0xff; 9]);
    bytes.push(0x02);
    assert_eq!(decode_stack_sizes(&bytes, true), Err(AnalysisError::MalformedInput));
}

#[test]
fn tag_names() {
    for t in ["$a", "$t", "$d", "$a.0", "$d.3", "$t.1234"] {
        assert!(is_tag(t), "{}", t);
    }
    for t in ["$x", "$a.", "$d.x", "$d3", "a", "", "$", "foo_alias", "$t.1a"] {
        assert!(!is_tag(t), "{}", t);
    }
}

#[test]
fn report_order_by_stack_then_address() {
    let (a, b, c) = (0x100u64, 0x200u64, 0x300u64);
    let entries = vec![(a, Some(64)), (b, Some(128)), (c, Some(64))];
    let order: Vec<u64> = report_order(&entries).into_iter().map(|e| e.0).collect();
    assert_eq!(order, vec![b, a, c]);
}

#[test]
fn report_order_puts_unknown_usage_last() {
    let entries = vec![(0x10u64, None), (0x20, Some(8)), (0x30, None), (0x40, Some(8))];
    assert_eq!(
        report_order(&entries),
        vec![(0x20, Some(8)), (0x40, Some(8)), (0x10, None), (0x30, None)]
    );
    assert_eq!(report_order(&vec![]), vec![]);
}

/// A little-endian ELF32 file of type `ty` with the given sections after the
/// null one, and `.shstrtab` last.
fn build_elf32(ty: u16, secs: Vec<Sec>) -> Vec<u8> {
    let mut shstr = vec![0u8];
    let mut name_offs = vec![];
    for s in &secs {
        name_offs.push(shstr.len() as u32);
        shstr.extend_from_slice(s.name.as_bytes());
        shstr.push(0);
    }
    let shstr_name = shstr.len() as u32;
    shstr.extend_from_slice(b".shstrtab\0");
    let mut out = vec![0u8; 52];
    let mut offs = vec![];
    for s in &secs {
        pad8(&mut out);
        offs.push(out.len() as u32);
        out.extend_from_slice(&s.data);
    }
    pad8(&mut out);
    let shstr_off = out.len() as u32;
    out.extend_from_slice(&shstr);
    pad8(&mut out);
    let sh_off = out.len() as u32;
    let count = secs.len() as u16 + 2;
    out.extend_from_slice(&[0u8; 40]);
    let mut sh = |name: u32, ty: u32, off: u32, size: u32, link: u32, entsize: u32| {
        for w in [name, ty, 0, 0, off, size, link, 0, 4, entsize] {
            out.extend_from_slice(&w.to_le_bytes());
        }
    };
    for (i, s) in secs.iter().enumerate() {
        sh(name_offs[i], s.ty, offs[i], s.data.len() as u32, s.link, s.entsize as u32);
    }
    sh(shstr_name, 3, shstr_off, shstr.len() as u32, 0, 0);
    out[0..4].copy_from_slice(&[0x7f, b'E', b'L', b'F']);
    out[4] = 1;
    out[5] = 1;
    out[6] = 1;
    out[16..18].copy_from_slice(&ty.to_le_bytes());
    out[18..20].copy_from_slice(&40u16.to_le_bytes());
    out[20..24].copy_from_slice(&1u32.to_le_bytes());
    out[32..36].copy_from_slice(&sh_off.to_le_bytes());
    out[40..42].copy_from_slice(&52u16.to_le_bytes());
    out[46..48].copy_from_slice(&40u16.to_le_bytes());
    out[48..50].copy_from_slice(&count.to_le_bytes());
    out[50..52].copy_from_slice(&(count - 1).to_le_bytes());
    out
}

fn symtab32(syms: &[(&str, u8, u16, u32, u32)]) -> (Vec<u8>, Vec<u8>) {
    let mut strtab = vec![0u8];
    let mut tab = vec![0u8; 16];
    for (name, ty, shndx, value, size) in syms {
        tab.extend_from_slice(&(strtab.len() as u32).to_le_bytes());
        strtab.extend_from_slice(name.as_bytes());
        strtab.push(0);
        tab.extend_from_slice(&value.to_le_bytes());
        tab.extend_from_slice(&size.to_le_bytes());
        tab.push(0x10 | ty);
        tab.push(0);
        tab.extend_from_slice(&shndx.to_le_bytes());
    }
    (strtab, tab)
}

fn records32(recs: &[(u32, u64)]) -> Vec<u8> {
    let mut out = vec![];
    for (a, s) in recs {
        out.extend_from_slice(&a.to_le_bytes());
        out.extend(uleb(*s));
    }
    out
}

#[test]
fn thumb_executable_32_bit() {
    let (strtab, tab) = symtab32(&[("reset", 2, 1, 0x101, 20), ("$t", 0, 1, 0x100, 0)]);
    let elf = build_elf32(2, vec![
        Sec { name: ".text", ty: 1, data: vec![0u8; 32], link: 0, entsize: 0 },
        Sec { name: ".strtab", ty: 3, data: strtab, link: 0, entsize: 0 },
        Sec { name: ".symtab", ty: 2, data: tab, link: 2, entsize: 16 },
        Sec { name: ".stack_sizes", ty: 1, data: records32(&[(0x100, 40)]), link: 0, entsize: 0 },
    ]);
    let fs = analyze_executable(&elf).unwrap();
    assert!(fs.have_32_bit_addresses);
    assert_eq!(fs.defined.len(), 1);
    assert_eq!(fs.defined[&0x101].stack(), Some(40));
    assert_eq!(fs.defined[&0x101].names().to_vec(), vec!["reset".to_string()]);
}

#[test]
fn object_32_bit_with_rel_entries() {
    let (strtab, tab) = symtab32(&[("a", 2, 1, 0x1, 8), ("b", 2, 1, 0x9, 8)]);
    let mut rel = vec![];
    for sym in [2u32, 1u32] {
        rel.extend_from_slice(&0u32.to_le_bytes());
        rel.extend_from_slice(&((sym << 8) | 2).to_le_bytes());
    }
    let elf = build_elf32(1, vec![
        Sec { name: ".text", ty: 1, data: vec![0u8; 16], link: 0, entsize: 0 },
        Sec { name: ".strtab", ty: 3, data: strtab, link: 0, entsize: 0 },
        Sec { name: ".symtab", ty: 2, data: tab, link: 2, entsize: 16 },
        Sec { name: ".stack_sizes", ty: 1, data: records32(&[(0x8, 16), (0x0, 200)]), link: 0, entsize: 0 },
        Sec { name: ".rel.stack_sizes", ty: 9, data: rel, link: 3, entsize: 8 },
    ]);
    let r = analyze_object(&elf).unwrap();
    assert_eq!(r, vec![("b".to_string(), 16), ("a".to_string(), 200)]);
}

#[test]
fn object_with_more_records_than_relocations_is_inconsistent() {
    let (strtab, tab) = symtab(&[("foo", 2, 1, 0, 16)]);
    let elf = build_elf(1, vec![
        Sec { name: ".text", ty: 1, data: vec![0u8; 16], link: 0, entsize: 0 },
        Sec { name: ".strtab", ty: 3, data: strtab, link: 0, entsize: 0 },
        Sec { name: ".symtab", ty: 2, data: tab, link: 2, entsize: 24 },
        Sec { name: ".stack_sizes", ty: 1, data: records64(&[(0, 8), (0, 8)]), link: 0, entsize: 0 },
        Sec { name: ".rela.stack_sizes", ty: 4, data: relas(&[1]), link: 3, entsize: 24 },
    ]);
    assert_eq!(analyze_object(&elf), Err(AnalysisError::InconsistentData));
}

#[test]
fn object_naming_one_symbol_twice_is_inconsistent() {
    let (strtab, tab) = symtab(&[("foo", 2, 1, 0, 16)]);
    let elf = build_elf(1, vec![
        Sec { name: ".text", ty: 1, data: vec![0u8; 16], link: 0, entsize: 0 },
        Sec { name: ".strtab", ty: 3, data: strtab, link: 0, entsize: 0 },
        Sec { name: ".symtab", ty: 2, data: tab, link: 2, entsize: 24 },
        Sec { name: ".stack_sizes", ty: 1, data: records64(&[(0, 8), (0, 8)]), link: 0, entsize: 0 },
        Sec { name: ".rela.stack_sizes", ty: 4, data: relas(&[1, 1]), link: 3, entsize: 24 },
    ]);
    assert_eq!(analyze_object(&elf), Err(AnalysisError::InconsistentData));
}

#[test]
fn record_prefers_its_own_address() {
    let rows = vec![row(SymbolKind::Func, "even", 0x100, 4), row(SymbolKind::Func, "odd", 0x101, 4)];
    let data = records64(&[(0x100, 32)]);
    let fs = analyze_symbols(&rows, false, Some(&data)).unwrap();
    assert_eq!(fs.defined[&0x100].stack(), Some(32));
    assert_eq!(fs.defined[&0x101].stack(), None);
}

#[test]
fn names_are_sorted_and_unique() {
    let rows = vec![
        row(SymbolKind::Func, "b", 0x40, 4),
        row(SymbolKind::NoType, "a", 0x40, 0),
        row(SymbolKind::NoType, "b", 0x40, 0),
        row(SymbolKind::Func, "z", 0, 0),
        row(SymbolKind::Func, "m", 0, 0),
        row(SymbolKind::Func, "z", 0, 0),
    ];
    let fs = analyze_symbols(&rows, false, None).unwrap();
    assert_eq!(names_of(&fs, 0x40), vec!["a".to_string(), "b".to_string()]);
    assert_eq!(fs.undefined, vec!["m".to_string(), "z".to_string()]);
}

#[test]
fn unreadable_notype_name_is_malformed() {
    let rows = vec![
        row(SymbolKind::Func, "f", 0x10, 4),
        SymbolEntry { kind: SymbolKind::NoType, value: 0x10, size: 0, shndx: 1, name: None },
    ];
    assert!(matches!(analyze_symbols(&rows, false, None), Err(AnalysisError::MalformedInput)));
}

#[test]
fn truncated_or_corrupt_elf_is_malformed() {
    let exe = executable_file(&[("main", 2, 1, 0x8000, 32)], Some(&[(0x8000, 16)]));
    for cut in [1usize, 40, 64, 200] {
        assert!(matches!(analyze_executable(&exe[..exe.len() - cut]), Err(AnalysisError::MalformedInput)));
    }
    let mut bad = exe.clone();
    bad[40] = 3;
    assert!(matches!(analyze_executable(&bad), Err(AnalysisError::MalformedInput)));
    let obj = object_file(true);
    assert_eq!(analyze_object(&obj[..obj.len() - 10]), Err(AnalysisError::MalformedInput));
}

#[test]
fn stack_of_first_known_name() {
    let table = vec![("b".to_string(), 16u64), ("c".to_string(), 32)];
    let names = vec!["a".to_string(), "c".to_string(), "b".to_string()];
    assert_eq!(stack_of_names(&table, &names), Some(32));
    assert_eq!(stack_of_names(&table, &["x".to_string()]), None);
    assert_eq!(stack_of_names(&table, &[]), None);
}

#[test]
fn utf8_symbol_names_are_read() {
    let exe = executable_file(&[("größe", 2, 1, 0x8000, 32)], Some(&[(0x8000, 16)]));
    let fs = analyze_executable(&exe).unwrap();
    assert_eq!(fs.defined[&0x8000].names().to_vec(), vec!["größe".to_string()]);
}

#[test]
fn invalid_utf8_symbol_name_is_malformed() {
    let mut exe = executable_file(&[("main", 2, 1, 0x8000, 32)], Some(&[(0x8000, 16)]));
    let at = exe.windows(5).position(|w| w == b"main\0").unwrap();
    exe[at + 1] = 0xc0;
    assert!(matches!(analyze_executable(&exe), Err(AnalysisError::MalformedInput)));
}

#[test]
fn executable_analysis_refuses_object() {
    assert_eq!(analyze_executable(&object_file(true)).map(|_| ()), Err(AnalysisError::UnsupportedFormat));
}
