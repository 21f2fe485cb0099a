use elf_linker::elf64::{ELF64_R_INFO, ELF64_R_SYM, ELF64_R_TYPE, ELF64_ST_INFO, R_X86_64_JUMP_SLOT, R_X86_64_PLT32};
use elf_linker::linker::dynamic::{build_interp, DynsymHashTable, DYNAMIC_FIXED_ENTRY_COUNT};
use elf_linker::linker::output::{OutputFileLayout, Strtab};
use elf_linker::linker::relocation::pc32_value;
use elf_linker::linker::section::{
    align_to_page, OutputSection, OutputSectionBytesKind, OutputSectionList, PAGE_SIZE, TEXT_BASE_ADDR,
};
use elf_linker::linker::symbol::{ResolvedObjIndexKind, ResolvedSym};
use elf_linker::linker::{Linker, LinkerError};
use elf_linker::parser::{Elf64Parser, ElfParseError};

/* ---- building ELF files for the tests ---- */

struct Sec {
    name: &'static str,
    sh_type: u32,
    flags: u64,
    link: u32,
    info: u32,
    entsize: u64,
    data: Vec<u8>,
    nobits: Option<u64>,
}

fn sec(name: &'static str, sh_type: u32, data: Vec<u8>) -> Sec {
    Sec { name, sh_type, flags: 0, link: 0, info: 0, entsize: 0, data, nobits: None }
}

fn put(out: &mut Vec<u8>, v: u64, n: usize) {
    for i in 0..n {
        out.push((v >> (8 * i)) as u8);
    }
}

fn get(b: &[u8], off: usize, n: usize) -> u64 {
    let mut v = 0u64;
    for i in 0..n {
        v |= (b[off + i] as u64) << (8 * i);
    }
    v
}

fn set(b: &mut [u8], off: usize, v: u64, n: usize) {
    for i in 0..n {
        b[off + i] = (v >> (8 * i)) as u8;
    }
}

fn shdr_bytes(out: &mut Vec<u8>, f: [u64; 10]) {
    let sizes = [4, 4, 8, 8, 8, 8, 4, 4, 8, 8];
    for i in 0..10 {
        put(out, f[i], sizes[i]);
    }
}

fn sym(name: u32, info: u8, shndx: u16, value: u64) -> Vec<u8> {
    let mut v = Vec::new();
    put(&mut v, name as u64, 4);
    v.push(info);
    v.push(0);
    put(&mut v, shndx as u64, 2);
    put(&mut v, value, 8);
    put(&mut v, 0, 8);
    v
}

fn rela(off: u64, sym: u32, typ: u32, addend: i64) -> Vec<u8> {
    let mut v = Vec::new();
    put(&mut v, off, 8);
    put(&mut v, ELF64_R_INFO(sym, typ), 8);
    put(&mut v, addend as u64, 8);
    v
}

/// An x86_64 ELF64 file of type `e_type` with these sections (index 1 on),
/// followed by `.shstrtab`.
fn build_elf(e_type: u16, secs: Vec<Sec>) -> Vec<u8> {
    let mut shstr = vec![0u8];
    let mut name_offs = Vec::new();
    for s in &secs {
        name_offs.push(shstr.len() as u64);
        shstr.extend_from_slice(s.name.as_bytes());
        shstr.push(0);
    }
    let shstr_name = shstr.len() as u64;
    shstr.extend_from_slice(b".shstrtab\0");
    let mut out = vec![0u8; 64];
    let mut offs = Vec::new();
    for s in &secs {
        while out.len() % 8 != 0 {
            out.push(0);
        }
        offs.push(out.len() as u64);
        out.extend_from_slice(&s.data);
    }
    let shstr_off = out.len() as u64;
    out.extend_from_slice(&shstr);
    while out.len() % 8 != 0 {
        out.push(0);
    }
    let shoff = out.len() as u64;
    let shnum = secs.len() as u64 + 2;
    shdr_bytes(&mut out, [0; 10]);
    for (i, s) in secs.iter().enumerate() {
        let size = match s.nobits {
            Some(n) => n,
            None => s.data.len() as u64,
        };
        shdr_bytes(
            &mut out,
            [name_offs[i], s.sh_type as u64, s.flags, 0, offs[i], size, s.link as u64, s.info as u64, 1, s.entsize],
        );
    }
    shdr_bytes(&mut out, [shstr_name, 3, 0, 0, shstr_off, shstr.len() as u64, 0, 0, 1, 0]);
    out[0..8].copy_from_slice(&[0x7f, b'E', b'L', b'F', 2, 1, 1, 0]);
    set(&mut out, 16, e_type as u64, 2);
    set(&mut out, 18, 62, 2);
    set(&mut out, 20, 1, 4);
    set(&mut out, 40, shoff, 8);
    set(&mut out, 52, 64, 2);
    set(&mut out, 58, 64, 2);
    set(&mut out, 60, shnum, 2);
    set(&mut out, 62, shnum - 1, 2);
    out
}

/// `main.o`: `_start` calls `foo` (another object) and `puts` (a shared
/// object).
fn main_o_with(start_name: &str, rela_type: u32, second_offset: u64) -> Vec<u8> {
    let mut strtab = b"\0".to_vec();
    let start_off = strtab.len() as u32;
    strtab.extend_from_slice(start_name.as_bytes());
    strtab.push(0);
    let foo_off = strtab.len() as u32;
    strtab.extend_from_slice(b"foo\0");
    let puts_off = strtab.len() as u32;
    strtab.extend_from_slice(b"puts\0");
    let text = vec![0xe8, 0, 0, 0, 0, 0xe8, 0, 0, 0, 0, 0xc3, 0x90, 0x90, 0x90, 0x90, 0x90];
    let mut syms = sym(0, 0, 0, 0);
    syms.extend(sym(start_off, 0x12, 1, 0));
    syms.extend(sym(foo_off, 0x10, 0, 0));
    syms.extend(sym(puts_off, 0x10, 0, 0));
    let mut relas = rela(1, 2, rela_type, -4);
    relas.extend(rela(second_offset, 3, R_X86_64_PLT32, -4));
    let mut t = sec(".text", 1, text);
    t.flags = 6;
    let mut st = sec(".symtab", 2, syms);
    st.link = 3;
    st.entsize = 24;
    let mut rt = sec(".rela.text", 4, relas);
    rt.link = 2;
    rt.info = 1;
    rt.entsize = 24;
    build_elf(1, vec![t, st, sec(".strtab", 3, strtab), rt])
}

fn main_o() -> Vec<u8> {
    main_o_with("_start", R_X86_64_PLT32, 6)
}

/// `foo.o`: defines `foo` in `.text` and `counter` in `.bss`.
fn foo_o() -> Vec<u8> {
    let mut syms = sym(0, 0, 0, 0);
    syms.extend(sym(1, 0x12, 1, 0));
    syms.extend(sym(5, 0x11, 3, 4));
    let mut t = sec(".text", 1, vec![0xc3, 0x90, 0x90, 0x90]);
    t.flags = 6;
    let mut bss = sec(".bss", 8, Vec::new());
    bss.nobits = Some(16);
    let mut st = sec(".symtab", 2, syms);
    st.link = 5;
    st.entsize = 24;
    let mut rt = sec(".rela.text", 4, Vec::new());
    rt.link = 4;
    rt.info = 1;
    rt.entsize = 24;
    build_elf(1, vec![t, sec(".data", 1, vec![1, 2, 3, 4, 5, 6, 7, 8]), bss, st, sec(".strtab", 3, b"\0foo\0counter\0".to_vec()), rt])
}

/// An object with code but no `.rela.text`.
fn bare_o() -> Vec<u8> {
    let mut syms = sym(0, 0, 0, 0);
    syms.extend(sym(1, 0x12, 1, 0));
    let mut t = sec(".text", 1, vec![0xc3]);
    t.flags = 6;
    let mut st = sec(".symtab", 2, syms);
    st.link = 3;
    st.entsize = 24;
    build_elf(1, vec![t, st, sec(".strtab", 3, b"\0bar\0".to_vec())])
}

/// `libc.so`: defines `puts`, and calls itself `libc.so.6`.
fn libc_so() -> Vec<u8> {
    let mut syms = sym(0, 0, 0, 0);
    syms.extend(sym(1, 0x12, 1, 0x1000));
    let mut dynsym = sec(".dynsym", 11, syms);
    dynsym.link = 2;
    dynsym.entsize = 24;
    let mut dynamic = Vec::new();
    put(&mut dynamic, 14, 8);
    put(&mut dynamic, 6, 8);
    put(&mut dynamic, 0, 16);
    let mut d = sec(".dynamic", 6, dynamic);
    d.link = 2;
    build_elf(3, vec![dynsym, sec(".dynstr", 3, b"\0puts\0libc.so.6\0".to_vec()), d])
}

fn parse(bin: &[u8]) -> Elf64Parser<'_> {
    Elf64Parser::new(bin, "test.o".to_string()).unwrap()
}

fn section<'b>(p: &Elf64Parser<'b>, name: &str) -> (elf_linker::elf64::Elf64_Shdr, &'b [u8]) {
    p.get_section_by_name(name.as_bytes()).unwrap().unwrap()
}

fn link(objs: &[&Vec<u8>], shared: &[&Vec<u8>], dyn_linker: Option<Vec<u8>>) -> Result<Vec<u8>, LinkerError> {
    let l = Linker::new(
        objs.iter().map(|b| (b.as_slice(), "a.o".to_string())).collect(),
        shared.iter().map(|b| (b.as_slice(), "a.so".to_string())).collect(),
        dyn_linker,
    )?;
    l.link()
}

fn names_of(p: &Elf64Parser) -> Vec<String> {
    p.shdrs.iter().map(|e| String::from_utf8(e.name.clone()).unwrap()).collect()
}

/* ---- the parser ---- */

#[test]
fn parser_reads_section_names() {
    let bin = main_o();
    let p = parse(&bin);
    assert_eq!(names_of(&p), vec!["", ".text", ".symtab", ".strtab", ".rela.text", ".shstrtab"]);
    assert_eq!(p.path, "test.o");
    assert_eq!(p.hdr.e_machine, 62);
    assert_eq!(p.find_section(b".strtab"), Some(3));
    assert_eq!(p.find_section(b".data"), None);
    assert_eq!(p.find_section_by_type(4, 4), Some(4));
}

#[test]
fn parser_gives_section_bytes() {
    let bin = main_o();
    let p = parse(&bin);
    let (h, body) = section(&p, ".text");
    assert_eq!(h.sh_size, 16);
    assert_eq!(body[0], 0xe8);
    assert!(p.get_section_by_name(b".bss").is_none());
    let (_, text) = p.section_text().unwrap().unwrap();
    assert_eq!(text.len(), 16);
    assert!(p.section_data().unwrap().is_none());
    assert!(p.section_rodata().unwrap().is_none());
}

#[test]
fn parser_rejects_short_file() {
    let bin = main_o();
    assert_eq!(Elf64Parser::new(&bin[..63], String::new()).err(), Some(ElfParseError::TooShort));
    assert_eq!(Elf64Parser::new(&[], String::new()).err(), Some(ElfParseError::TooShort));
}

#[test]
fn parser_rejects_bad_identification() {
    let good = main_o();
    let mut b = good.clone();
    b[1] = b'X';
    assert_eq!(Elf64Parser::new(&b, String::new()).err(), Some(ElfParseError::InvalidMagic));
    let mut b = good.clone();
    b[4] = 1;
    assert_eq!(Elf64Parser::new(&b, String::new()).err(), Some(ElfParseError::InvalidClass));
    let mut b = good.clone();
    b[5] = 2;
    assert_eq!(Elf64Parser::new(&b, String::new()).err(), Some(ElfParseError::InvalidEndian));
    let mut b = good.clone();
    b[6] = 0;
    assert_eq!(Elf64Parser::new(&b, String::new()).err(), Some(ElfParseError::InvalidVersion));
    let mut b = good.clone();
    set(&mut b, 20, 2, 4);
    assert_eq!(Elf64Parser::new(&b, String::new()).err(), Some(ElfParseError::InvalidVersion));
    let mut b = good.clone();
    set(&mut b, 18, 3, 2);
    assert_eq!(Elf64Parser::new(&b, String::new()).err(), Some(ElfParseError::InvalidMachine));
}

#[test]
fn parser_rejects_bad_section_table() {
    let good = main_o();
    let mut b = good.clone();
    set(&mut b, 60, 200, 2);
    assert_eq!(Elf64Parser::new(&b, String::new()).err(), Some(ElfParseError::TooShort));
    let mut b = good.clone();
    set(&mut b, 62, 6, 2);
    assert_eq!(Elf64Parser::new(&b, String::new()).err(), Some(ElfParseError::InvalidShstrIndex));
    // the name table runs past the end of the file
    let shoff = get(&good, 40, 8) as usize;
    let mut b = good.clone();
    set(&mut b, shoff + 5 * 64 + 32, 0x10000, 8);
    assert_eq!(Elf64Parser::new(&b, String::new()).err(), Some(ElfParseError::TooShort));
}

#[test]
fn parser_rejects_bad_section_names() {
    let good = main_o();
    let shoff = get(&good, 40, 8) as usize;
    // the last name loses its NUL byte
    let mut b = good.clone();
    let size = get(&good, shoff + 5 * 64 + 32, 8);
    set(&mut b, shoff + 5 * 64 + 32, size - 1, 8);
    assert_eq!(Elf64Parser::new(&b, String::new()).err(), Some(ElfParseError::InvalidShstrEnd));
    // a name starts past the end of the table
    let mut b = good.clone();
    set(&mut b, shoff + 64, 0x1000, 4);
    assert_eq!(Elf64Parser::new(&b, String::new()).err(), Some(ElfParseError::TooShort));
}

#[test]
fn parser_reads_symbols() {
    let bin = main_o();
    let p = parse(&bin);
    let (symtab, strtab) = p.section_symtab().unwrap();
    assert_eq!(symtab.syms.len(), 4);
    let names: Vec<Vec<u8>> = symtab.syms.iter().map(|s| s.name.clone()).collect();
    assert_eq!(names, vec![b"".to_vec(), b"_start".to_vec(), b"foo".to_vec(), b"puts".to_vec()]);
    assert_eq!(symtab.syms[1].sym.st_info, ELF64_ST_INFO(1, 2));
    assert!(symtab.syms.iter().all(|s| s.resolved_sym.is_none()));
    assert_eq!(symtab.get(3).unwrap().name, b"puts".to_vec());
    assert!(symtab.get(4).is_none());
    assert_eq!(strtab.get(1), b"_start".to_vec());
    assert_eq!(strtab.shdr.sh_type, 3);
}

#[test]
fn parser_reads_relocations_with_symbol_names() {
    let bin = main_o();
    let p = parse(&bin);
    let (symtab, strtab) = p.section_symtab().unwrap();
    let relas = p.section_rela_text(&symtab, &strtab).unwrap();
    assert_eq!(relas.len(), 2);
    assert_eq!(relas[0].name, b"foo".to_vec());
    assert_eq!(relas[0].rela.r_offset, 1);
    assert_eq!(relas[0].rela.r_addend, -4);
    assert_eq!(ELF64_R_SYM(relas[1].rela.r_info), 3);
    assert_eq!(ELF64_R_TYPE(relas[1].rela.r_info), R_X86_64_PLT32);
    assert_eq!(relas[1].name, b"puts".to_vec());
}

#[test]
fn parser_reports_missing_sections() {
    let bin = bare_o();
    let p = parse(&bin);
    let (symtab, strtab) = p.section_symtab().unwrap();
    assert_eq!(
        p.section_rela_text(&symtab, &strtab).err(),
        Some(ElfParseError::SectionNotFound { name: b".rela.text".to_vec() })
    );
    assert_eq!(p.section_dynamic().err(), Some(ElfParseError::SectionNotFound { name: b".dynamic".to_vec() }));
    let bare = build_elf(1, vec![sec(".text", 1, vec![0x90])]);
    let p = parse(&bare);
    assert_eq!(p.section_symtab().err(), Some(ElfParseError::SectionNotFound { name: b".symtab".to_vec() }));
    assert_eq!(p.section_strtab().err(), Some(ElfParseError::SectionNotFound { name: b".strtab".to_vec() }));
    assert!(p.section_bss().is_none());
}

#[test]
fn parser_rejects_relocation_of_unknown_symbol() {
    let mut bin = main_o();
    let p = parse(&bin);
    let (h, _) = section(&p, ".rela.text");
    let off = h.sh_offset as usize;
    set(&mut bin, off + 8, ELF64_R_INFO(9, R_X86_64_PLT32), 8);
    let p = parse(&bin);
    let (symtab, strtab) = p.section_symtab().unwrap();
    assert_eq!(p.section_rela_text(&symtab, &strtab).err(), Some(ElfParseError::SymbolNotFound { index: 9 }));
}

#[test]
fn parser_reads_bss_and_strtab() {
    let bin = foo_o();
    let p = parse(&bin);
    let bss = p.section_bss().unwrap();
    assert_eq!(bss.sh_size, 16);
    assert_eq!(bss.sh_type, 8);
    let strtab = p.section_strtab().unwrap();
    assert_eq!(strtab.get(5), b"counter".to_vec());
    let (_, data) = p.section_data().unwrap().unwrap();
    assert_eq!(data, &[1, 2, 3, 4, 5, 6, 7, 8]);
}

#[test]
fn parser_reads_dynamic_section() {
    let bin = libc_so();
    let p = parse(&bin);
    let (d, strtab) = p.section_dynamic().unwrap();
    assert_eq!(d.sect_index, 3);
    assert_eq!(d.dyns.len(), 1);
    assert_eq!(d.dyns[0].d_tag, 14);
    assert_eq!(strtab.get(d.dyns[0].d_un as usize), b"libc.so.6".to_vec());
}

/* ---- reading the inputs of the linker ---- */

#[test]
fn linker_new_reads_objects() {
    let (a, b, so) = (main_o(), foo_o(), libc_so());
    let l = Linker::new(
        vec![(a.as_slice(), "main.o".to_string()), (b.as_slice(), "foo.o".to_string())],
        vec![(so.as_slice(), "libc.so".to_string())],
        None,
    )
    .unwrap();
    assert_eq!(l.objs.len(), 2);
    assert_eq!(l.objs[0].elf.path, "main.o");
    assert_eq!(l.objs[0].rela_text.as_ref().unwrap().len(), 2);
    assert_eq!(l.objs[1].rela_text.as_ref().unwrap().len(), 0);
    assert_eq!(l.shared_objs.len(), 1);
    assert_eq!(l.shared_objs[0].soname, Some(b"libc.so.6".to_vec()));
    assert_eq!(l.shared_objs[0].symtab.syms.len(), 2);
    assert!(l.resolved_syms.is_empty());
    assert!(l.dyn_linker.is_none());
}

#[test]
fn linker_new_collects_every_error_in_order() {
    let (a, so) = (main_o(), libc_so());
    let short = vec![0u8; 10];
    let mut bad_magic = foo_o();
    bad_magic[0] = 0;
    let no_dynamic = foo_o();
    let r = Linker::new(
        vec![(short.as_slice(), "x.o".to_string()), (a.as_slice(), "a.o".to_string()), (bad_magic.as_slice(), "y.o".to_string())],
        vec![(so.as_slice(), "libc.so".to_string()), (no_dynamic.as_slice(), "z.so".to_string())],
        None,
    );
    match r {
        Err(LinkerError::ParseError { errors }) => assert_eq!(
            errors,
            vec![
                ElfParseError::TooShort,
                ElfParseError::InvalidMagic,
                ElfParseError::SectionNotFound { name: b".dynamic".to_vec() },
            ]
        ),
        _ => panic!("expected parse errors"),
    }
}

#[test]
fn linker_new_rejects_object_without_relocations() {
    let (a, bare, so) = (main_o(), bare_o(), libc_so());
    let r = Linker::new(
        vec![(a.as_slice(), "a.o".to_string()), (bare.as_slice(), "bare.o".to_string())],
        vec![(so.as_slice(), "libc.so".to_string())],
        None,
    );
    match r {
        Err(LinkerError::ParseError { errors }) => {
            assert_eq!(errors, vec![ElfParseError::SectionNotFound { name: b".rela.text".to_vec() }])
        },
        _ => panic!("expected a missing .rela.text"),
    }
}

#[test]
fn linker_new_rejects_soname_past_its_table() {
    let mut so = libc_so();
    let p = parse(&so);
    let (h, _) = section(&p, ".dynamic");
    let off = h.sh_offset as usize;
    set(&mut so, off + 8, 100, 8);
    let r = Linker::new(Vec::new(), vec![(so.as_slice(), "libc.so".to_string())], None);
    assert!(matches!(r, Err(LinkerError::ParseError { errors }) if errors == vec![ElfParseError::TooShort]));
}

/* ---- symbol resolution ---- */

#[test]
fn resolve_binds_undefined_symbols() {
    let (a, b, so) = (main_o(), foo_o(), libc_so());
    let mut l = Linker::new(
        vec![(a.as_slice(), "main.o".to_string()), (b.as_slice(), "foo.o".to_string())],
        vec![(so.as_slice(), "libc.so".to_string())],
        None,
    )
    .unwrap();
    let dyn_syms = l.resolve_symbols().unwrap();
    assert_eq!(dyn_syms.len(), 1);
    assert_eq!(dyn_syms[0].name, b"puts".to_vec());
    assert_eq!(dyn_syms[0].sym.shared_obj_index, 0);
    // the shared definition is counted past the null symbol
    assert_eq!(dyn_syms[0].sym.sym_index, 0);
    let syms = &l.objs[0].symtab.syms;
    assert_eq!(syms[0].resolved_sym, None);
    assert_eq!(syms[1].resolved_sym, Some(ResolvedSym { obj_index: ResolvedObjIndexKind::Obj(0), sym_index: 1 }));
    assert_eq!(syms[2].resolved_sym, Some(ResolvedSym { obj_index: ResolvedObjIndexKind::Obj(1), sym_index: 1 }));
    assert_eq!(syms[3].resolved_sym, Some(ResolvedSym { obj_index: ResolvedObjIndexKind::Shared(0), sym_index: 0 }));
    assert_eq!(l.resolved_syms.len(), 2);
    assert_eq!(l.resolved_syms[0][2], Some(ResolvedSym { obj_index: ResolvedObjIndexKind::Obj(1), sym_index: 1 }));
    assert_eq!(l.resolved_syms[0][1], None);
}

#[test]
fn resolve_reports_missing_symbols() {
    let a = main_o();
    let r = link(&[&a], &[], None);
    match r {
        Err(LinkerError::SymbolResolveFailed { duplicated_syms, mut missing_syms }) => {
            assert!(duplicated_syms.is_empty());
            missing_syms.sort();
            assert_eq!(missing_syms, vec![b"foo".to_vec(), b"puts".to_vec()]);
        },
        other => panic!("unexpected: {:?}", other.err()),
    }
}

#[test]
fn resolve_reports_duplicated_symbols() {
    let (a, b, so) = (main_o(), foo_o(), libc_so());
    let r = link(&[&a, &b, &b], &[&so], None);
    match r {
        Err(LinkerError::SymbolResolveFailed { duplicated_syms, missing_syms }) => {
            assert_eq!(duplicated_syms, vec![b"foo".to_vec()]);
            assert!(missing_syms.is_empty());
        },
        other => panic!("unexpected: {:?}", other.err()),
    }
}

/* ---- linking ---- */

fn linked() -> Vec<u8> {
    let (a, b, so) = (main_o(), foo_o(), libc_so());
    link(&[&a, &b], &[&so], None).unwrap()
}

#[test]
fn link_writes_an_executable_header() {
    let img = linked();
    assert_eq!(&img[0..8], &[0x7f, b'E', b'L', b'F', 2, 1, 1, 3]);
    assert_eq!(get(&img, 16, 2), 2);
    assert_eq!(get(&img, 18, 2), 62);
    assert_eq!(get(&img, 24, 8), 0x400000);
    assert_eq!(get(&img, 32, 8), 64);
    assert_eq!(get(&img, 56, 2), 5);
    assert_eq!(get(&img, 60, 2), 14);
    assert_eq!(get(&img, 62, 2), 13);
    let shoff = get(&img, 40, 8) as usize;
    assert_eq!(img.len(), shoff + 14 * 64);
}

#[test]
fn link_output_reads_back() {
    let img = linked();
    let p = Elf64Parser::new(&img, "a.out".to_string()).unwrap();
    assert_eq!(
        names_of(&p),
        vec![
            "", ".text", ".plt", ".rodata", ".interp", ".dynsym", ".dynstr", ".hash", ".rela.plt", ".dynamic",
            ".data", ".bss", ".got", ".shstrtab"
        ]
    );
    let (text, body) = section(&p, ".text");
    assert_eq!(text.sh_addr, 0x400000);
    assert_eq!(text.sh_offset, 344);
    assert_eq!(text.sh_size, 20);
    assert_eq!(body[0], 0xe8);
    // foo.o's .text follows main.o's in the merged .text
    assert_eq!(&body[16..20], &[0xc3, 0x90, 0x90, 0x90]);
    let (_, interp) = section(&p, ".interp");
    assert_eq!(interp, b"/lib64/ld-linux-x86-64.so.2\0");
    let (_, data) = section(&p, ".data");
    assert_eq!(data, &[1, 2, 3, 4, 5, 6, 7, 8]);
    let bss = p.section_bss().unwrap();
    assert_eq!(bss.sh_size, 16);
    assert_eq!(bss.sh_type, 8);
}

#[test]
fn link_relocates_calls_between_objects() {
    let img = linked();
    // foo sits right after main.o's 16 bytes of .text: S + A - P = 16 - 4 - 1
    assert_eq!(&img[345..349], &11i32.to_le_bytes());
    // a call into a shared object is left for the loader
    assert_eq!(&img[350..354], &[0, 0, 0, 0]);
    assert_eq!(pc32_value(0x400168, -4, 0x400159), 11);
    assert_eq!(pc32_value(0, -4, 0x10), 0xffff_ffec);
}

#[test]
fn pc32_displacement_reaches_target() {
    for (s, a, p) in [(0x400168usize, -4i64, 0x400159usize), (0x1000, 0, 0x2000), (0x7fff_0000, 8, 0x10)] {
        let v = pc32_value(s, a, p) as u32 as i32 as i64;
        assert_eq!(p as i64 + v, s as i64 + a);
    }
}

#[test]
fn link_fills_plt_through_got() {
    let img = linked();
    let p = Elf64Parser::new(&img, String::new()).unwrap();
    let (plt, plt_bytes) = section(&p, ".plt");
    let got = p.shdrs[12].hdr;
    assert_eq!(plt.sh_size, 6);
    assert_eq!(&plt_bytes[0..2], &[0xff, 0x25]);
    let disp = i32::from_le_bytes([plt_bytes[2], plt_bytes[3], plt_bytes[4], plt_bytes[5]]) as i64;
    assert_eq!(plt.sh_addr as i64 + 6 + disp, got.sh_addr as i64);
    assert_eq!(got.sh_size, 8);
    let (rela_plt, rp) = section(&p, ".rela.plt");
    assert_eq!(rela_plt.sh_size, 24);
    assert_eq!(get(rp, 0, 8), got.sh_addr);
    assert_eq!(get(rp, 8, 8), ELF64_R_INFO(1, R_X86_64_JUMP_SLOT));
    assert_eq!(get(rp, 16, 8), 0);
}

#[test]
fn link_writes_dynamic_tables() {
    let img = linked();
    let p = Elf64Parser::new(&img, String::new()).unwrap();
    let (dynsym, strtab) = p.section_symtab().unwrap();
    assert_eq!(dynsym.syms.len(), 2);
    assert_eq!(dynsym.syms[1].name, b"puts".to_vec());
    assert_eq!(dynsym.syms[1].sym.st_info, 0x12);
    assert_eq!(dynsym.syms[1].sym.st_shndx, 0);
    let (d, _) = p.section_dynamic().unwrap();
    assert_eq!(d.dyns.len(), 1 + DYNAMIC_FIXED_ENTRY_COUNT - 1);
    assert_eq!(d.dyns[0].d_tag, 1);
    assert_eq!(strtab.get(d.dyns[0].d_un as usize), b"libc.so.6".to_vec());
    let (hash, hash_bytes) = section(&p, ".hash");
    let tags: Vec<i64> = d.dyns.iter().map(|e| e.d_tag).collect();
    assert_eq!(tags, vec![1, 4, 5, 6, 10, 11, 23, 2, 20, 24]);
    assert_eq!(d.dyns[1].d_un, hash.sh_addr);
    assert_eq!(d.dyns[8].d_un, 7);
    assert_eq!(hash_bytes, &[1, 0, 0, 0, 2, 0, 0, 0, 1, 0, 0, 0, 0, 0, 0, 0, 0, 0, 0, 0]);
}

/// A shared object that gives itself no name.
fn nameless_so() -> Vec<u8> {
    let mut syms = sym(0, 0, 0, 0);
    syms.extend(sym(1, 0x12, 1, 0x1000));
    let mut dynsym = sec(".dynsym", 11, syms);
    dynsym.link = 2;
    dynsym.entsize = 24;
    let mut d = sec(".dynamic", 6, vec![0u8; 16]);
    d.link = 2;
    build_elf(3, vec![dynsym, sec(".dynstr", 3, b"\0bar\0".to_vec()), d])
}

#[test]
fn link_sizes_dynamic_by_shared_objects() {
    let (a, b, so, anon) = (main_o(), foo_o(), libc_so(), nameless_so());
    let img = link(&[&a, &b], &[&so, &anon], None).unwrap();
    let p = Elf64Parser::new(&img, String::new()).unwrap();
    let (d, _) = p.section_dynamic().unwrap();
    assert_eq!(d.dyns.len(), 1 + DYNAMIC_FIXED_ENTRY_COUNT - 1);
    let (shdr, bytes) = section(&p, ".dynamic");
    assert_eq!(shdr.sh_size, 16 * (2 + DYNAMIC_FIXED_ENTRY_COUNT as u64));
    assert!(bytes[16 * (1 + DYNAMIC_FIXED_ENTRY_COUNT)..].iter().all(|&x| x == 0));
}

#[test]
fn link_segments_hold_their_sections() {
    let img = linked();
    let p = Elf64Parser::new(&img, String::new()).unwrap();
    let (rodata, _) = section(&p, ".rodata");
    let (data, _) = section(&p, ".data");
    // the text segment maps the file from its start to the base address
    assert_eq!(get(&img, 64, 4), 1);
    assert_eq!(get(&img, 64 + 8, 8), 0);
    assert_eq!(get(&img, 64 + 16, 8), TEXT_BASE_ADDR as u64);
    // the read-only and the writable segments start at their first section
    for (i, shdr) in [(1usize, rodata), (2, data)] {
        let ph = 64 + 56 * i;
        assert_eq!(get(&img, ph, 4), 1);
        assert_eq!(get(&img, ph + 8, 8), shdr.sh_offset);
        assert_eq!(get(&img, ph + 16, 8), shdr.sh_addr);
        assert_eq!(shdr.sh_offset % PAGE_SIZE as u64, 0);
        assert_eq!(shdr.sh_addr % PAGE_SIZE as u64, 0);
    }
    // PT_INTERP points at .interp
    let p = Elf64Parser::new(&img, String::new()).unwrap();
    let interp = p.shdrs[4].hdr;
    assert_eq!(get(&img, 64 + 56 * 3, 4), 3);
    assert_eq!(get(&img, 64 + 56 * 3 + 8, 8), interp.sh_offset);
    assert_eq!(get(&img, 64 + 56 * 3 + 16, 8), interp.sh_addr);
    assert_eq!(get(&img, 64 + 56 * 3 + 32, 8), interp.sh_size);
}

#[test]
fn link_uses_given_dynamic_linker() {
    let (a, b, so) = (main_o(), foo_o(), libc_so());
    let img = link(&[&a, &b], &[&so], Some(b"/opt/ld.so".to_vec())).unwrap();
    let p = Elf64Parser::new(&img, String::new()).unwrap();
    let (_, interp) = section(&p, ".interp");
    assert_eq!(interp, b"/opt/ld.so\0");
    assert_eq!(build_interp(&None), b"/lib64/ld-linux-x86-64.so.2\0".to_vec());
}

#[test]
fn link_without_start_fails() {
    let (a, b, so) = (main_o_with("begin", R_X86_64_PLT32, 6), foo_o(), libc_so());
    assert!(matches!(link(&[&a, &b], &[&so], None), Err(LinkerError::EntryPointNotFound)));
}

#[test]
fn link_rejects_unsupported_relocation() {
    let (a, b, so) = (main_o_with("_start", 10, 6), foo_o(), libc_so());
    assert!(matches!(link(&[&a, &b], &[&so], None), Err(LinkerError::UnsupportedRelocationType { r_type: 10 })));
}

#[test]
fn link_rejects_relocation_past_text() {
    let (a, b, so) = (main_o_with("_start", R_X86_64_PLT32, 6), foo_o(), libc_so());
    // the first relocation is fine; move it past the end of .text
    let p = parse(&a);
    let (h, _) = section(&p, ".rela.text");
    let mut a2 = a.clone();
    set(&mut a2, h.sh_offset as usize, 30, 8);
    assert!(matches!(
        link(&[&a2, &b], &[&so], None),
        Err(LinkerError::RelocationOutOfRange { obj_index: 0, r_offset: 30 })
    ));
}

/* ---- layout and tables ---- */

fn section_of(base: usize, bytes: OutputSectionBytesKind) -> OutputSection {
    OutputSection { base, bytes, section_offsets: Vec::new() }
}

fn sections(tl: usize, pl: usize, rl: usize, dl: usize) -> OutputSectionList {
    OutputSectionList {
        text: section_of(0, OutputSectionBytesKind::Bytes(vec![0; tl])),
        plt: section_of(0, OutputSectionBytesKind::Bytes(vec![0; pl])),
        rodata: section_of(0, OutputSectionBytesKind::Bytes(vec![0; rl])),
        data: section_of(0, OutputSectionBytesKind::Bytes(vec![0; dl])),
        bss: section_of(0, OutputSectionBytesKind::NobitsLen(4)),
        got: section_of(0, OutputSectionBytesKind::NobitsLen(8)),
    }
}

#[test]
fn page_alignment_rounds_up() {
    assert_eq!(align_to_page(0), Some(0));
    assert_eq!(align_to_page(1), Some(0x1000));
    assert_eq!(align_to_page(0x1000), Some(0x1000));
    assert_eq!(align_to_page(0x1001), Some(0x2000));
    assert_eq!(align_to_page(usize::MAX), None);
}

#[test]
fn file_layout_places_parts() {
    let s = sections(20, 6, 3, 8);
    let l = OutputFileLayout::new(&s, 28, 48, 17, 20, 24, 176, 95).unwrap();
    assert_eq!(l.text, 344);
    assert_eq!(l.plt, 364);
    assert_eq!(l.rodata, 0x1000);
    assert_eq!(l.interp, 0x1003);
    assert_eq!(l.dynsym, 0x1003 + 28);
    assert_eq!(l.dynstr, 0x1003 + 28 + 48);
    assert_eq!(l.hash, 0x1003 + 28 + 48 + 17);
    assert_eq!(l.rela_plt, 0x1003 + 28 + 48 + 17 + 20);
    assert_eq!(l.dynamic, 0x1003 + 28 + 48 + 17 + 20 + 24);
    assert_eq!(l.data, 0x2000);
    assert_eq!(l.shstrtab, 0x2008);
    assert_eq!(l.shdrs, 0x2008 + 95);
    assert_eq!(l.addr_in_rodata_segment(&sections_at(0x401000), 0x1003), 0x401003);
    assert!(OutputFileLayout::new(&s, usize::MAX, 0, 0, 0, 0, 0, 0).is_none());
}

fn sections_at(rodata_base: usize) -> OutputSectionList {
    let mut s = sections(0, 0, 0, 0);
    s.rodata.base = rodata_base;
    s
}

#[test]
fn output_section_lengths() {
    let s = OutputSection { base: 0x1000, bytes: OutputSectionBytesKind::NobitsLen(0x20), section_offsets: Vec::new() };
    assert_eq!(s.bytes_len(), 0x20);
    assert_eq!(s.end_addr(), 0x1020);
    let t = OutputSection { base: 8, bytes: OutputSectionBytesKind::Bytes(vec![1, 2, 3]), section_offsets: Vec::new() };
    assert_eq!(t.bytes_len(), 3);
    assert_eq!(t.end_addr(), 11);
}

#[test]
fn hash_table_chains_every_symbol() {
    let t = DynsymHashTable::new(4);
    assert_eq!(t.nbucket, 1);
    assert_eq!(t.nchain, 4);
    assert_eq!(t.buckets, vec![3]);
    assert_eq!(t.chains, vec![0, 0, 1, 2]);
    assert_eq!(t.bytes_len(), 4 * 7);
    assert_eq!(t.as_bytes(), vec![1, 0, 0, 0, 4, 0, 0, 0, 3, 0, 0, 0, 0, 0, 0, 0, 0, 0, 0, 0, 1, 0, 0, 0, 2, 0, 0, 0]);
    // a lookup walks 3, 2, 1, then ends at the null symbol
    let mut seen = Vec::new();
    let mut i = t.buckets[0];
    while i != 0 {
        seen.push(i);
        i = t.chains[i as usize];
    }
    assert_eq!(seen, vec![3, 2, 1]);
}

#[test]
fn strtab_of_section_names_has_every_name() {
    let t = Strtab::new(
        [".text", ".plt", ".rodata", ".interp", ".dynsym", ".dynstr", ".hash", ".rela.plt", ".dynamic", ".data", ".bss", ".got", ".shstrtab"]
            .iter()
            .map(|s| s.as_bytes().to_vec())
            .collect(),
    );
    assert_eq!(t.bytes.len(), 95);
    assert_eq!(t.offset_of(b".shstrtab"), 85);
}

#[test]
fn fill_plt_writes_entries_and_keeps_the_rest() {
    let l = Linker::new(Vec::new(), Vec::new(), None).unwrap();
    let mut s = sections(0, 9, 0, 0);
    s.plt.base = 0x1000;
    s.got.base = 0x3000;
    if let OutputSectionBytesKind::Bytes(b) = &mut s.plt.bytes {
        b[8] = 7;
    }
    l.fill_plt(&mut s, 1);
    // jmp [rip + 0x3000 - 0x1006]
    match &s.plt.bytes {
        OutputSectionBytesKind::Bytes(b) => assert_eq!(b, &vec![0xff, 0x25, 0xfa, 0x1f, 0, 0, 0, 0, 7]),
        _ => panic!("expected bytes"),
    }
    let mut n = sections(0, 0, 0, 0);
    n.plt.bytes = OutputSectionBytesKind::NobitsLen(12);
    l.fill_plt(&mut n, 2);
    assert!(matches!(n.plt.bytes, OutputSectionBytesKind::NobitsLen(12)));
}

#[test]
fn arrange_sections_places_segments_on_pages() {
    let l = Linker::new(Vec::new(), Vec::new(), None).unwrap();
    let mut s = sections(0x10, 0, 0x1001, 3);
    s.bss.bytes = OutputSectionBytesKind::NobitsLen(5);
    s.got.bytes = OutputSectionBytesKind::NobitsLen(0);
    let r = l.arrange_sections(s).ok().unwrap();
    assert_eq!(r.text.base, 0x400000);
    assert_eq!(r.plt.base, 0x400010);
    assert_eq!(r.rodata.base, 0x401000);
    assert_eq!(r.data.base, 0x403000);
    assert_eq!(r.bss.base, 0x403003);
    assert_eq!(r.got.base, 0x403008);
    assert!(matches!(&r.rodata.bytes, OutputSectionBytesKind::Bytes(b) if b.len() == 0x1001));
    let mut big = sections(0, 0, 0, 0);
    big.got.bytes = OutputSectionBytesKind::NobitsLen(usize::MAX);
    assert!(matches!(l.arrange_sections(big), Err(LinkerError::AddressOverflow)));
}
