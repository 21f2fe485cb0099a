use elf_linker::elf64::{
    Elf64_Rela, Elf64_Sym, ELF64_R_INFO, ELF64_R_SYM, ELF64_R_TYPE, ELF64_ST_BIND, ELF64_ST_INFO, ELF64_ST_TYPE,
    ELF64_ST_VISIBILITY, R_X86_64_JUMP_SLOT, R_X86_64_PC32, SHN_ABS, SHN_COMMON, SHN_LORESERVE, SHN_UNDEF, STB_GLOBAL,
    STB_LOCAL, STB_WEAK, STT_FUNC, STT_OBJECT, STT_SECTION,
};

fn sym_with_shndx(shndx: u16) -> Elf64_Sym {
    Elf64_Sym { st_name: 0, st_info: 0, st_other: 0, st_shndx: shndx, st_value: 0, st_size: 0 }
}

#[test]
fn st_info_packs_binding_and_type() {
    assert_eq!(ELF64_ST_INFO(STB_GLOBAL, STT_FUNC), 0x12);
    assert_eq!(ELF64_ST_INFO(STB_WEAK, STT_OBJECT), 0x21);
    assert_eq!(ELF64_ST_INFO(STB_LOCAL, STT_SECTION), 0x03);
    // only the low nibble of each part is kept
    assert_eq!(ELF64_ST_INFO(0x31, 0x42), 0x12);
}

#[test]
fn st_info_unpacks_binding_and_type() {
    assert_eq!(ELF64_ST_BIND(0x12), STB_GLOBAL);
    assert_eq!(ELF64_ST_TYPE(0x12), STT_FUNC);
    assert_eq!(ELF64_ST_BIND(0xff), 0x0f);
    assert_eq!(ELF64_ST_TYPE(0xff), 0x0f);
}

#[test]
fn st_info_roundtrip_on_all_values() {
    for b in 0u8..16 {
        for t in 0u8..16 {
            let info = ELF64_ST_INFO(b, t);
            assert_eq!(ELF64_ST_BIND(info), b);
            assert_eq!(ELF64_ST_TYPE(info), t);
        }
    }
    for info in 0u8..=255 {
        assert_eq!(ELF64_ST_INFO(ELF64_ST_BIND(info), ELF64_ST_TYPE(info)), info);
    }
}

#[test]
fn st_visibility_takes_low_two_bits() {
    assert_eq!(ELF64_ST_VISIBILITY(0), 0);
    assert_eq!(ELF64_ST_VISIBILITY(3), 3);
    assert_eq!(ELF64_ST_VISIBILITY(0xfe), 2);
}

#[test]
fn r_info_packs_symbol_and_type() {
    assert_eq!(ELF64_R_INFO(1, R_X86_64_JUMP_SLOT), 0x1_0000_0007);
    assert_eq!(ELF64_R_INFO(0xffff_ffff, 0xffff_ffff), u64::MAX);
    assert_eq!(ELF64_R_INFO(0, 0), 0);
}

#[test]
fn r_info_unpacks_symbol_and_type() {
    assert_eq!(ELF64_R_SYM(0x0000_0005_0000_0002), 5);
    assert_eq!(ELF64_R_TYPE(0x0000_0005_0000_0002), R_X86_64_PC32);
    let rela = Elf64_Rela { r_offset: 0, r_info: ELF64_R_INFO(42, 4), r_addend: -4 };
    assert_eq!(rela.r_sym(), 42);
    assert_eq!(rela.r_type(), 4);
}

#[test]
fn r_info_roundtrip() {
    for (s, t) in [(0u32, 0u32), (1, 2), (0xdead_beef, 0x1234), (u32::MAX, 7)] {
        let info = ELF64_R_INFO(s, t);
        assert_eq!(ELF64_R_SYM(info), s);
        assert_eq!(ELF64_R_TYPE(info), t);
    }
    for info in [0u64, 1, 0x1234_5678_9abc_def0, u64::MAX] {
        assert_eq!(ELF64_R_INFO(ELF64_R_SYM(info), ELF64_R_TYPE(info)), info);
    }
}

#[test]
fn resolved_index_excludes_undefined_and_reserved() {
    assert!(!sym_with_shndx(SHN_UNDEF).is_resolved_index());
    assert!(sym_with_shndx(1).is_resolved_index());
    assert!(sym_with_shndx(SHN_LORESERVE - 1).is_resolved_index());
    assert!(!sym_with_shndx(SHN_LORESERVE).is_resolved_index());
    assert!(!sym_with_shndx(SHN_ABS).is_resolved_index());
    assert!(!sym_with_shndx(SHN_COMMON).is_resolved_index());
}
