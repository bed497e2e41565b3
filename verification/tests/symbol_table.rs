use vm_perf::symbols::{bounds_from_symbols, symbol_bounds, Symbol};

fn put16(b: &mut Vec<u8>, x: u16) {
    b.extend_from_slice(&x.to_le_bytes());
}

fn put32(b: &mut Vec<u8>, x: u32) {
    b.extend_from_slice(&x.to_le_bytes());
}

fn put64(b: &mut Vec<u8>, x: u64) {
    b.extend_from_slice(&x.to_le_bytes());
}

fn pad_to(b: &mut Vec<u8>, n: usize) {
    while b.len() < n {
        b.push(0);
    }
}

fn section_header(b: &mut Vec<u8>, name: u32, ty: u32, off: u64, size: u64, link: u32, info: u32, align: u64, entsize: u64) {
    put32(b, name);
    put32(b, ty);
    put64(b, 0);
    put64(b, 0);
    put64(b, off);
    put64(b, size);
    put32(b, link);
    put32(b, info);
    put64(b, align);
    put64(b, entsize);
}

/// A relocatable little-endian ELF64 file whose symbol table holds
/// `syms` (name, address) after the null symbol.
fn elf_with_symbols(syms: &[(&str, u64)]) -> Vec<u8> {
    let mut strtab = vec![0u8];
    let mut name_off = Vec::new();
    for (n, _) in syms {
        name_off.push(strtab.len() as u32);
        strtab.extend_from_slice(n.as_bytes());
        strtab.push(0);
    }
    let shstrtab = b"\0.symtab\0.strtab\0.shstrtab\0".to_vec();
    let strtab_off = 64usize;
    let shstrtab_off = strtab_off + strtab.len();
    let symtab_off = (shstrtab_off + shstrtab.len() + 7) / 8 * 8;
    let symtab_size = 24 * (syms.len() + 1);
    let shoff = symtab_off + symtab_size;

    let mut b = Vec::new();
    b.extend_from_slice(&[0x7f, b'E', b'L', b'F', 2, 1, 1, 0]);
    pad_to(&mut b, 16);
    put16(&mut b, 1); // relocatable
    put16(&mut b, 0xB7); // AArch64
    put32(&mut b, 1);
    put64(&mut b, 0); // entry
    put64(&mut b, 0); // no program headers
    put64(&mut b, shoff as u64);
    put32(&mut b, 0);
    put16(&mut b, 64);
    put16(&mut b, 0);
    put16(&mut b, 0);
    put16(&mut b, 64);
    put16(&mut b, 4);
    put16(&mut b, 3);
    assert_eq!(b.len(), 64);

    b.extend_from_slice(&strtab);
    b.extend_from_slice(&shstrtab);
    pad_to(&mut b, symtab_off);
    b.extend_from_slice(&[0u8; 24]);
    for (k, (_, addr)) in syms.iter().enumerate() {
        put32(&mut b, name_off[k]);
        b.push(0x12); // global function
        b.push(0);
        put16(&mut b, 0xfff1); // absolute
        put64(&mut b, *addr);
        put64(&mut b, 0);
    }
    assert_eq!(b.len(), shoff);

    section_header(&mut b, 0, 0, 0, 0, 0, 0, 0, 0);
    section_header(&mut b, 1, 2, symtab_off as u64, symtab_size as u64, 2, 1, 8, 24);
    section_header(&mut b, 9, 3, strtab_off as u64, strtab.len() as u64, 0, 0, 1, 0);
    section_header(&mut b, 17, 3, shstrtab_off as u64, shstrtab.len() as u64, 0, 0, 1, 0);
    b
}

#[test]
fn bounds_in_an_object_file() {
    let elf = elf_with_symbols(&[
        ("other", 0x1100),
        ("tj_a", 0x1000),
        ("_tj_b", 0x1040),
        ("zero", 0),
        ("tj_a", 0x0800),
    ]);
    assert_eq!(symbol_bounds(&elf, &["tj_a", "tj_b"]), Some(vec![(0x0800, 0x800), (0x1040, 0xC0)]));
    assert_eq!(symbol_bounds(&elf, &["other"]), Some(vec![(0x1100, 0)]));
    assert_eq!(symbol_bounds(&elf, &[]), Some(vec![]));
    assert_eq!(symbol_bounds(&elf, &["tj_a", "missing"]), None);
    // A symbol at address 0 does not count.
    assert_eq!(symbol_bounds(&elf, &["zero"]), None);
}

#[test]
fn unparsable_data_has_no_bounds() {
    assert_eq!(symbol_bounds(b"not an object file at all", &["tj_a"]), None);
    assert_eq!(symbol_bounds(&[], &[]), None);
}

#[test]
fn bounds_from_a_symbol_list() {
    let syms: Vec<Symbol> = vec![
        (Some("_tj_marker".to_string()), 0x2000),
        (None, 0x1FC0),
        (Some("tj_ret".to_string()), 0x1F80),
        (Some("tj_marker".to_string()), 0x3000),
        (Some("zero".to_string()), 0),
    ];
    // The lowest address of a match wins; the end is the next higher live address.
    assert_eq!(bounds_from_symbols(&syms, &["tj_marker"]), Some(vec![(0x2000, 0x1000)]));
    // Unnamed symbols take no part, so tj_ret runs up to tj_marker.
    assert_eq!(bounds_from_symbols(&syms, &["tj_ret"]), Some(vec![(0x1F80, 0x80)]));
    assert_eq!(bounds_from_symbols(&syms, &["marker"]), None);
    assert_eq!(bounds_from_symbols(&syms, &["_tj_marker", "tj_ret"]), Some(vec![(0x2000, 0x1000), (0x1F80, 0x80)]));
}
