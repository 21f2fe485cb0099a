use elf_linker::codec::{
    i64_to_word, parse_dyn, parse_ehdr, parse_rela, parse_shdr, parse_sym, read_le, word_to_i64, write_dyn, write_ehdr,
    write_le, write_phdr, write_records, write_rela, write_shdr, write_sym, DYN_SIZE, EHDR_SIZE, PHDR_SIZE, RELA_SIZE,
    SHDR_SIZE, SYM_SIZE,
};
use elf_linker::elf64::{Elf64_Dyn, Elf64_Ehdr, Elf64_Phdr, Elf64_Rela, Elf64_Shdr, Elf64_Sym};

fn sample_ehdr() -> Elf64_Ehdr {
    Elf64_Ehdr {
        e_ident: [0x7f, b'E', b'L', b'F', 2, 1, 1, 3, 0, 0, 0, 0, 0, 0, 0, 0],
        e_type: 2,
        e_machine: 62,
        e_version: 1,
        e_entry: 0x401000,
        e_phoff: 64,
        e_shoff: 0x1234,
        e_flags: 0,
        e_ehsize: 64,
        e_phentsize: 56,
        e_phnum: 5,
        e_shentsize: 64,
        e_shnum: 14,
        e_shstrndx: 13,
    }
}

fn sample_shdr() -> Elf64_Shdr {
    Elf64_Shdr {
        sh_name: 7,
        sh_type: 1,
        sh_flags: 6,
        sh_addr: 0x401000,
        sh_offset: 0x158,
        sh_size: 0x20,
        sh_link: 3,
        sh_info: 9,
        sh_addralign: 16,
        sh_entsize: 24,
    }
}

#[test]
fn le_writes_least_significant_byte_first() {
    let mut out = vec![0xaa];
    write_le(&mut out, 0x0102_0304, 4);
    assert_eq!(out, vec![0xaa, 0x04, 0x03, 0x02, 0x01]);
    let mut out = Vec::new();
    write_le(&mut out, 0x1_0000_0001, 4);
    assert_eq!(out, vec![1, 0, 0, 0]);
}

#[test]
fn le_reads_back_what_was_written() {
    let bin = [0x78, 0x56, 0x34, 0x12, 0xff, 0xee, 0xdd, 0xcc, 0xbb, 0xaa];
    assert_eq!(read_le(&bin, 0, 4), 0x1234_5678);
    assert_eq!(read_le(&bin, 2, 2), 0x1234);
    assert_eq!(read_le(&bin, 2, 8), 0xaabb_ccdd_eeff_1234);
    assert_eq!(read_le(&bin, 9, 1), 0xaa);
    for v in [0u64, 1, 0xdead_beef, u64::MAX] {
        let mut out = Vec::new();
        write_le(&mut out, v, 8);
        assert_eq!(read_le(&out, 0, 8), v);
    }
}

#[test]
fn signed_words_convert_both_ways() {
    assert_eq!(i64_to_word(-1), u64::MAX);
    assert_eq!(i64_to_word(-4), 0xffff_ffff_ffff_fffc);
    assert_eq!(word_to_i64(0xffff_ffff_ffff_fffc), -4);
    assert_eq!(word_to_i64(5), 5);
    for x in [0i64, 1, -1, i64::MIN, i64::MAX, -4] {
        assert_eq!(word_to_i64(i64_to_word(x)), x);
    }
}

#[test]
fn ehdr_roundtrip_and_layout() {
    let h = sample_ehdr();
    let mut out = Vec::new();
    write_ehdr(&mut out, &h);
    assert_eq!(out.len(), EHDR_SIZE);
    assert_eq!(&out[0..4], &[0x7f, b'E', b'L', b'F']);
    assert_eq!(&out[16..18], &[2, 0]);
    assert_eq!(&out[18..20], &[62, 0]);
    assert_eq!(&out[24..32], &[0x00, 0x10, 0x40, 0, 0, 0, 0, 0]);
    assert_eq!(&out[62..64], &[13, 0]);
    assert_eq!(parse_ehdr(&out), h);
    assert_eq!(h.as_bytes(), out);
}

#[test]
fn shdr_roundtrip_and_layout() {
    let h = sample_shdr();
    let mut out = vec![0u8; 3];
    write_shdr(&mut out, &h);
    assert_eq!(out.len(), 3 + SHDR_SIZE);
    assert_eq!(&out[3..7], &[7, 0, 0, 0]);
    assert_eq!(&out[3 + 56..3 + 64], &[24, 0, 0, 0, 0, 0, 0, 0]);
    assert_eq!(parse_shdr(&out, 3), h);
    assert_eq!(h.as_bytes(), out[3..].to_vec());
}

#[test]
fn sym_roundtrip_and_layout() {
    let h = Elf64_Sym { st_name: 5, st_info: 0x12, st_other: 1, st_shndx: 2, st_value: 0x10, st_size: 8 };
    let mut out = Vec::new();
    write_sym(&mut out, &h);
    assert_eq!(out.len(), SYM_SIZE);
    assert_eq!(out, vec![5, 0, 0, 0, 0x12, 1, 2, 0, 0x10, 0, 0, 0, 0, 0, 0, 0, 8, 0, 0, 0, 0, 0, 0, 0]);
    assert_eq!(parse_sym(&out, 0), h);
    assert_eq!(h.as_bytes(), out);
}

#[test]
fn rela_roundtrip_and_layout() {
    let h = Elf64_Rela { r_offset: 1, r_info: 0x2_0000_0004, r_addend: -4 };
    let mut out = Vec::new();
    write_rela(&mut out, &h);
    assert_eq!(out.len(), RELA_SIZE);
    assert_eq!(&out[16..24], &[0xfc, 0xff, 0xff, 0xff, 0xff, 0xff, 0xff, 0xff]);
    assert_eq!(parse_rela(&out, 0), h);
    assert_eq!(h.as_bytes(), out);
}

#[test]
fn dyn_roundtrip_and_layout() {
    let h = Elf64_Dyn { d_tag: 14, d_un: 0x33 };
    let mut out = Vec::new();
    write_dyn(&mut out, &h);
    assert_eq!(out.len(), DYN_SIZE);
    assert_eq!(out, vec![14, 0, 0, 0, 0, 0, 0, 0, 0x33, 0, 0, 0, 0, 0, 0, 0]);
    assert_eq!(parse_dyn(&out, 0), h);
}

#[test]
fn phdr_layout() {
    let h = Elf64_Phdr {
        p_type: 1,
        p_flags: 5,
        p_offset: 0,
        p_vaddr: 0x400000,
        p_paddr: 0x400000,
        p_filesz: 0x200,
        p_memsz: 0x300,
        p_align: 0x1000,
    };
    let mut out = Vec::new();
    write_phdr(&mut out, &h);
    assert_eq!(out.len(), PHDR_SIZE);
    assert_eq!(&out[0..8], &[1, 0, 0, 0, 5, 0, 0, 0]);
    assert_eq!(&out[16..24], &[0, 0, 0x40, 0, 0, 0, 0, 0]);
    assert_eq!(&out[48..56], &[0, 0x10, 0, 0, 0, 0, 0, 0]);
    assert_eq!(h.as_bytes(), out);
}

#[test]
fn records_lie_one_after_the_other() {
    let a = sample_shdr();
    let mut b = sample_shdr();
    b.sh_name = 99;
    let mut out = Vec::new();
    write_records(&mut out, &[a, b]);
    assert_eq!(out.len(), 2 * SHDR_SIZE);
    assert_eq!(parse_shdr(&out, 0), a);
    assert_eq!(parse_shdr(&out, SHDR_SIZE), b);
    let mut words = Vec::new();
    write_records(&mut words, &[1u32, 0x0203_0405]);
    assert_eq!(words, vec![1, 0, 0, 0, 5, 4, 3, 2]);
}
