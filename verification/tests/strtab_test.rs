use elf_linker::linker::output::{strtab_size_bound, Strtab};
use elf_linker::parser::section::strtab::ElfSectionStrtab;
use elf_linker::elf64::Elf64_Shdr;

fn names(v: &[&str]) -> Vec<Vec<u8>> {
    v.iter().map(|s| s.as_bytes().to_vec()).collect()
}

fn empty_shdr() -> Elf64_Shdr {
    Elf64_Shdr {
        sh_name: 0,
        sh_type: 3,
        sh_flags: 0,
        sh_addr: 0,
        sh_offset: 0,
        sh_size: 0,
        sh_link: 0,
        sh_info: 0,
        sh_addralign: 1,
        sh_entsize: 0,
    }
}

#[test]
fn strtab_starts_with_nul_and_keeps_order() {
    let t = Strtab::new(names(&[".text", ".data"]));
    assert_eq!(t.bytes, b"\0.text\0.data\0".to_vec());
    assert_eq!(t.offset_of(b".text"), 1);
    assert_eq!(t.offset_of(b".data"), 7);
}

#[test]
fn strtab_of_no_names_is_one_nul() {
    let t = Strtab::new(Vec::new());
    assert_eq!(t.bytes, vec![0]);
    assert!(t.offsets.is_empty());
}

#[test]
fn strtab_stores_a_repeated_name_once() {
    let t = Strtab::new(names(&["puts", "libc.so.6", "puts", "exit"]));
    assert_eq!(t.bytes, b"\0puts\0libc.so.6\0exit\0".to_vec());
    assert_eq!(t.offset_of(b"puts"), 1);
    assert_eq!(t.offset_of(b"libc.so.6"), 6);
    assert_eq!(t.offset_of(b"exit"), 16);
    assert_eq!(t.offsets.len(), 3);
}

#[test]
fn strtab_empty_name_gets_its_own_entry() {
    let t = Strtab::new(names(&["", "a"]));
    assert_eq!(t.bytes, vec![0, 0, b'a', 0]);
    assert_eq!(t.offset_of(b""), 1);
    assert_eq!(t.offset_of(b"a"), 2);
}

#[test]
fn strtab_lookup_reads_back_each_name() {
    let list = [".text", ".plt", ".rodata", "puts", ".text", "x"];
    let t = Strtab::new(names(&list));
    let reader = ElfSectionStrtab { shdr: empty_shdr(), bin: &t.bytes };
    for n in list {
        let off = t.offset_of(n.as_bytes()) as usize;
        assert_eq!(reader.get(off), n.as_bytes().to_vec());
    }
    assert_eq!(reader.get(0), Vec::<u8>::new());
}

#[test]
fn strtab_size_bound_counts_every_name() {
    assert_eq!(strtab_size_bound(&names(&[])), Some(1));
    assert_eq!(strtab_size_bound(&names(&["ab", "ab", "c"])), Some(1 + 3 + 3 + 2));
}

#[test]
fn strtab_get_stops_at_end_without_nul() {
    let bytes = b"\0abc".to_vec();
    let reader = ElfSectionStrtab { shdr: empty_shdr(), bin: &bytes };
    assert_eq!(reader.get(1), b"abc".to_vec());
    assert_eq!(reader.get(4), Vec::<u8>::new());
}
