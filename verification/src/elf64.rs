//! ELF64 definitions for x86_64 Linux (System-V ABI), after `<elf.h>`.
//! Only the ELF64 subset that this linker reads or writes is kept.
use vstd::prelude::*;

verus! {

/* Type for a 16-bit quantity.  */
pub type Elf64_Half = u16;

/* Types for signed and unsigned 32-bit quantities.  */
pub type Elf64_Word = u32;

pub type Elf64_Sword = i32;

/* Types for signed and unsigned 64-bit quantities.  */
pub type Elf64_Xword = u64;

pub type Elf64_Sxword = i64;

/* Type of addresses.  */
pub type Elf64_Addr = u64;

/* Type of file offsets.  */
pub type Elf64_Off = u64;

/* Type for section indices, which are 16-bit quantities.  */
pub type Elf64_Section = u16;

/* Type for version symbol information.  */
pub type Elf64_Versym = Elf64_Half;

pub const EI_NIDENT: usize = 16;

/// The ELF file header.  This appears at the start of every ELF file.
#[derive(Debug, Clone, Copy, PartialEq, Eq)]
pub struct Elf64_Ehdr {
    pub e_ident: [u8; 16],  /* Magic number and other info */
    pub e_type: Elf64_Half,  /* Object file type */
    pub e_machine: Elf64_Half,  /* Architecture */
    pub e_version: Elf64_Word,  /* Object file version */
    pub e_entry: Elf64_Addr,  /* Entry point virtual address */
    pub e_phoff: Elf64_Off,  /* Program header table file offset */
    pub e_shoff: Elf64_Off,  /* Section header table file offset */
    pub e_flags: Elf64_Word,  /* Processor-specific flags */
    pub e_ehsize: Elf64_Half,  /* ELF header size in bytes */
    pub e_phentsize: Elf64_Half,  /* Program header table entry size */
    pub e_phnum: Elf64_Half,  /* Program header table entry count */
    pub e_shentsize: Elf64_Half,  /* Section header table entry size */
    pub e_shnum: Elf64_Half,  /* Section header table entry count */
    pub e_shstrndx: Elf64_Half,  /* Section header string table index */
}

/* Fields in the e_ident array. */
pub const EI_MAG0: usize = 0;

pub const ELFMAG0: u8 = 0x7f;

pub const EI_MAG1: usize = 1;

pub const ELFMAG1: u8 = 0x45;  /* 'E' */

pub const EI_MAG2: usize = 2;

pub const ELFMAG2: u8 = 0x4c;  /* 'L' */

pub const EI_MAG3: usize = 3;

pub const ELFMAG3: u8 = 0x46;  /* 'F' */

pub const SELFMAG: usize = 4;

pub const EI_CLASS: usize = 4;

pub const ELFCLASSNONE: u8 = 0;

pub const ELFCLASS32: u8 = 1;

pub const ELFCLASS64: u8 = 2;

pub const EI_DATA: usize = 5;

pub const ELFDATANONE: u8 = 0;

pub const ELFDATA2LSB: u8 = 1;

pub const ELFDATA2MSB: u8 = 2;

pub const EI_VERSION: usize = 6;

pub const EI_OSABI: usize = 7;

pub const ELFOSABI_NONE: u8 = 0;

pub const ELFOSABI_GNU: u8 = 3;

pub const ELFOSABI_LINUX: u8 = 3;

pub const EI_ABIVERSION: usize = 8;

pub const EI_PAD: usize = 9;

/* Legal values for e_type (object file type).  */
pub const ET_NONE: Elf64_Half = 0;

pub const ET_REL: Elf64_Half = 1;

pub const ET_EXEC: Elf64_Half = 2;

pub const ET_DYN: Elf64_Half = 3;

pub const ET_CORE: Elf64_Half = 4;

/* Legal values for e_machine (architecture).  */
pub const EM_NONE: Elf64_Half = 0;

pub const EM_X86_64: Elf64_Half = 62;

/* Legal values for e_version (version).  */
pub const EV_NONE: Elf64_Word = 0;

pub const EV_CURRENT: Elf64_Word = 1;

/// Section header.
#[derive(Debug, Clone, Copy, PartialEq, Eq)]
pub struct Elf64_Shdr {
    pub sh_name: Elf64_Word,  /* Section name (string tbl index) */
    pub sh_type: Elf64_Word,  /* Section type */
    pub sh_flags: Elf64_Xword,  /* Section flags */
    pub sh_addr: Elf64_Addr,  /* Section virtual addr at execution */
    pub sh_offset: Elf64_Off,  /* Section file offset */
    pub sh_size: Elf64_Xword,  /* Section size in bytes */
    pub sh_link: Elf64_Word,  /* Link to another section */
    pub sh_info: Elf64_Word,  /* Additional section information */
    pub sh_addralign: Elf64_Xword,  /* Section alignment */
    pub sh_entsize: Elf64_Xword,  /* Entry size if section holds table */
}

/* Special section indices.  */
pub const SHN_UNDEF: Elf64_Section = 0;

pub const SHN_LORESERVE: Elf64_Section = 0xff00;

pub const SHN_ABS: Elf64_Section = 0xfff1;

pub const SHN_COMMON: Elf64_Section = 0xfff2;

pub const SHN_XINDEX: Elf64_Section = 0xffff;

pub const SHN_HIRESERVE: Elf64_Section = 0xffff;

/* Legal values for sh_type (section type).  */
pub const SHT_NULL: Elf64_Word = 0;

pub const SHT_PROGBITS: Elf64_Word = 1;

pub const SHT_SYMTAB: Elf64_Word = 2;

pub const SHT_STRTAB: Elf64_Word = 3;

pub const SHT_RELA: Elf64_Word = 4;

pub const SHT_HASH: Elf64_Word = 5;

pub const SHT_DYNAMIC: Elf64_Word = 6;

pub const SHT_NOTE: Elf64_Word = 7;

pub const SHT_NOBITS: Elf64_Word = 8;

pub const SHT_REL: Elf64_Word = 9;

pub const SHT_DYNSYM: Elf64_Word = 11;

/* Legal values for sh_flags (section flags).  */
pub const SHF_WRITE: Elf64_Xword = 1;

pub const SHF_ALLOC: Elf64_Xword = 2;

pub const SHF_EXECINSTR: Elf64_Xword = 4;

pub const SHF_MERGE: Elf64_Xword = 16;

pub const SHF_STRINGS: Elf64_Xword = 32;

/// Section compression header.  Used when SHF_COMPRESSED is set.
#[derive(Debug, Clone, Copy, PartialEq, Eq)]
pub struct Elf64_Chdr {
    pub ch_type: Elf64_Word,  /* Compression format.  */
    pub ch_reserved: Elf64_Word,
    pub ch_size: Elf64_Xword,  /* Uncompressed data size.  */
    pub ch_addralign: Elf64_Xword,  /* Uncompressed data alignment.  */
}

/// Symbol table entry.
#[derive(Debug, Clone, Copy, PartialEq, Eq)]
pub struct Elf64_Sym {
    pub st_name: Elf64_Word,  /* Symbol name (string tbl index) */
    pub st_info: u8,  /* Symbol type and binding */
    pub st_other: u8,  /* Symbol visibility */
    pub st_shndx: Elf64_Section,  /* Section index */
    pub st_value: Elf64_Addr,  /* Symbol value */
    pub st_size: Elf64_Xword,  /* Symbol size */
}

/// The symbol is defined in an ordinary section of its file: its section
/// index is neither undefined nor one of the reserved indices.
pub open spec fn spec_is_resolved_index(shndx: u16) -> bool {
    shndx != SHN_UNDEF && shndx < SHN_LORESERVE
}

impl Elf64_Sym {
    pub fn is_resolved_index(&self) -> (r: bool)
        ensures
            r == spec_is_resolved_index(self.st_shndx),
    {
        self.st_shndx != SHN_UNDEF && self.st_shndx < SHN_LORESERVE
    }
}

/// Additional information about a dynamic symbol.
#[derive(Debug, Clone, Copy, PartialEq, Eq)]
pub struct Elf64_Syminfo {
    pub si_boundto: Elf64_Half,  /* Direct bindings, symbol bound to */
    pub si_flags: Elf64_Half,  /* Per symbol flags */
}

/* How to extract and insert information held in the st_info field.  */
pub open spec fn spec_st_bind(val: u8) -> u8 {
    val / 16
}

pub open spec fn spec_st_type(val: u8) -> u8 {
    val % 16
}

pub open spec fn spec_st_info(bind: u8, typ: u8) -> u8 {
    ((bind % 16) * 16 + typ % 16) as u8
}

/// The binding of a symbol: the high nibble of `st_info`.
pub fn ELF64_ST_BIND(val: u8) -> (r: u8)
    ensures
        r == spec_st_bind(val),
{
    assert(val >> 4 == val / 16) by (bit_vector);
    val >> 4
}

/// The type of a symbol: the low nibble of `st_info`.
pub fn ELF64_ST_TYPE(val: u8) -> (r: u8)
    ensures
        r == spec_st_type(val),
{
    assert(val & 0xf == val % 16) by (bit_vector);
    val & 0xf
}

/// Packs a binding and a type into `st_info`; only the low nibble of each
/// is kept, the binding's shifted into the high nibble.
pub fn ELF64_ST_INFO(bind: u8, typ: u8) -> (r: u8)
    ensures
        r == spec_st_info(bind, typ),
{
    assert((bind << 4u8) as u8 + (typ & 0xf) == (bind % 16) * 16 + typ % 16
        && (bind % 16) * 16 + typ % 16 < 256) by (bit_vector);
    (bind << 4u8) + (typ & 0xf)
}

/* Legal values for ST_BIND subfield of st_info (symbol binding).  */
pub const STB_LOCAL: u8 = 0;

pub const STB_GLOBAL: u8 = 1;

pub const STB_WEAK: u8 = 2;

/* Legal values for ST_TYPE subfield of st_info (symbol type).  */
pub const STT_NOTYPE: u8 = 0;

pub const STT_OBJECT: u8 = 1;

pub const STT_FUNC: u8 = 2;

pub const STT_SECTION: u8 = 3;

pub const STT_FILE: u8 = 4;

/* Symbol table index of the undefined symbol; also the end of a hash chain.  */
pub const STN_UNDEF: Elf64_Word = 0;

pub open spec fn spec_st_visibility(o: u8) -> u8 {
    o % 4
}

/// The visibility of a symbol: the low two bits of `st_other`.
pub fn ELF64_ST_VISIBILITY(o: u8) -> (r: u8)
    ensures
        r == spec_st_visibility(o),
{
    assert(o & 0x03 == o % 4) by (bit_vector);
    o & 0x03
}

/* Symbol visibility specification encoded in the st_other field.  */
pub const STV_DEFAULT: u8 = 0;

pub const STV_INTERNAL: u8 = 1;

pub const STV_HIDDEN: u8 = 2;

pub const STV_PROTECTED: u8 = 3;

/// Relocation table entry without addend (in section of type SHT_REL).
#[derive(Debug, Clone, Copy, PartialEq, Eq)]
pub struct Elf64_Rel {
    pub r_offset: Elf64_Addr,  /* Address */
    pub r_info: Elf64_Xword,  /* Relocation type and symbol index */
}

/// Relocation table entry with addend (in section of type SHT_RELA).
#[derive(Debug, Clone, Copy, PartialEq, Eq)]
pub struct Elf64_Rela {
    pub r_offset: Elf64_Addr,  /* Address */
    pub r_info: Elf64_Xword,  /* Relocation type and symbol index */
    pub r_addend: Elf64_Sxword,  /* Addend */
}

/* How to extract and insert information held in the r_info field.  */
pub open spec fn spec_r_sym(info: u64) -> u32 {
    (info / 0x1_0000_0000) as u32
}

pub open spec fn spec_r_type(info: u64) -> u32 {
    (info % 0x1_0000_0000) as u32
}

pub open spec fn spec_r_info(sym: u32, typ: u32) -> u64 {
    (sym * 0x1_0000_0000 + typ) as u64
}

/// The symbol index of a relocation: the high 32 bits of `r_info`.
pub fn ELF64_R_SYM(info: Elf64_Xword) -> (r: Elf64_Word)
    ensures
        r == spec_r_sym(info),
{
    assert(info >> 32u64 == info / 0x1_0000_0000) by (bit_vector);
    (info >> 32u64) as Elf64_Word
}

/// The type of a relocation: the low 32 bits of `r_info`.
pub fn ELF64_R_TYPE(info: Elf64_Xword) -> (r: Elf64_Word)
    ensures
        r == spec_r_type(info),
{
    assert(info & 0xffffffff == info % 0x1_0000_0000) by (bit_vector);
    (info & 0xffffffff) as Elf64_Word
}

/// Packs a symbol index and a relocation type into `r_info`.
pub fn ELF64_R_INFO(sym: Elf64_Word, typ: Elf64_Word) -> (r: Elf64_Xword)
    ensures
        r == spec_r_info(sym, typ),
{
    let s = sym as u64;
    assert((s << 32u64) == s * 0x1_0000_0000) by (bit_vector)
        requires
            s < 0x1_0000_0000,
    ;
    (s << 32u64) + (typ as Elf64_Xword)
}

impl Elf64_Rela {
    /// The symbol index of this relocation.
    pub fn r_sym(&self) -> (r: Elf64_Word)
        ensures
            r == spec_r_sym(self.r_info),
    {
        ELF64_R_SYM(self.r_info)
    }

    /// The type of this relocation.
    pub fn r_type(&self) -> (r: Elf64_Word)
        ensures
            r == spec_r_type(self.r_info),
    {
        ELF64_R_TYPE(self.r_info)
    }
}

/// Unpacking `st_info` gives back the binding and the type that were packed,
/// each cut to its nibble.
pub proof fn lemma_st_info_roundtrip(bind: u8, typ: u8)
    ensures
        spec_st_bind(spec_st_info(bind, typ)) == bind % 16,
        spec_st_type(spec_st_info(bind, typ)) == typ % 16,
{
}

/// Packing the binding and the type of `st_info` gives back `st_info`.
pub proof fn lemma_st_info_unpack_pack(info: u8)
    ensures
        spec_st_info(spec_st_bind(info), spec_st_type(info)) == info,
{
}

/// Unpacking `r_info` gives back the symbol index and the relocation type
/// that were packed.
pub proof fn lemma_r_info_roundtrip(sym: u32, typ: u32)
    ensures
        spec_r_sym(spec_r_info(sym, typ)) == sym,
        spec_r_type(spec_r_info(sym, typ)) == typ,
{
    assert(sym * 0x1_0000_0000 + typ <= 0xffff_ffff_ffff_ffff) by (nonlinear_arith)
        requires
            sym < 0x1_0000_0000,
            typ < 0x1_0000_0000,
    ;
}

/// Packing the symbol index and the type of `r_info` gives back `r_info`.
pub proof fn lemma_r_info_unpack_pack(info: u64)
    ensures
        spec_r_info(spec_r_sym(info), spec_r_type(info)) == info,
{
}

/// Program segment header.
#[derive(Debug, Clone, Copy, PartialEq, Eq)]
pub struct Elf64_Phdr {
    pub p_type: Elf64_Word,  /* Segment type */
    pub p_flags: Elf64_Word,  /* Segment flags */
    pub p_offset: Elf64_Off,  /* Segment file offset */
    pub p_vaddr: Elf64_Addr,  /* Segment virtual address */
    pub p_paddr: Elf64_Addr,  /* Segment physical address */
    pub p_filesz: Elf64_Xword,  /* Segment size in file */
    pub p_memsz: Elf64_Xword,  /* Segment size in memory */
    pub p_align: Elf64_Xword,  /* Segment alignment */
}

/* Legal values for p_type (segment type).  */
pub const PT_NULL: Elf64_Word = 0;

pub const PT_LOAD: Elf64_Word = 1;

pub const PT_DYNAMIC: Elf64_Word = 2;

pub const PT_INTERP: Elf64_Word = 3;

pub const PT_NOTE: Elf64_Word = 4;

pub const PT_PHDR: Elf64_Word = 6;

/* Legal values for p_flags (segment flags).  */
pub const PF_X: Elf64_Word = 1;

pub const PF_W: Elf64_Word = 2;

pub const PF_R: Elf64_Word = 4;

/// Note section entry header.
#[derive(Debug, Clone, Copy, PartialEq, Eq)]
pub struct Elf64_Nhdr {
    pub n_namesz: Elf64_Word,  /* Length of the note's name.  */
    pub n_descsz: Elf64_Word,  /* Length of the note's descriptor.  */
    pub n_type: Elf64_Word,  /* Type of the note.  */
}

/// Dynamic section entry.  Both members of the value union (`d_val` and
/// `d_ptr`) are 64-bit unsigned words, so the union is held as one word.
#[derive(Debug, Clone, Copy, PartialEq, Eq)]
pub struct Elf64_Dyn {
    pub d_tag: Elf64_Sxword,  /* Dynamic entry type */
    pub d_un: Elf64_Xword,  /* Integer or address value */
}

/* Legal values for d_tag (dynamic entry type).  */
pub const DT_NULL: Elf64_Sxword = 0;

pub const DT_NEEDED: Elf64_Sxword = 1;

pub const DT_PLTRELSZ: Elf64_Sxword = 2;

pub const DT_PLTGOT: Elf64_Sxword = 3;

pub const DT_HASH: Elf64_Sxword = 4;

pub const DT_STRTAB: Elf64_Sxword = 5;

pub const DT_SYMTAB: Elf64_Sxword = 6;

pub const DT_RELA: Elf64_Sxword = 7;

pub const DT_RELASZ: Elf64_Sxword = 8;

pub const DT_RELAENT: Elf64_Sxword = 9;

pub const DT_STRSZ: Elf64_Sxword = 10;

pub const DT_SYMENT: Elf64_Sxword = 11;

pub const DT_SONAME: Elf64_Sxword = 14;

pub const DT_PLTREL: Elf64_Sxword = 20;

pub const DT_JMPREL: Elf64_Sxword = 23;

pub const DT_BIND_NOW: Elf64_Sxword = 24;

/// Version definition entry.
#[derive(Debug, Clone, Copy, PartialEq, Eq)]
pub struct Elf64_Verdef {
    pub vd_version: Elf64_Half,  /* Version revision */
    pub vd_flags: Elf64_Half,  /* Version information */
    pub vd_ndx: Elf64_Half,  /* Version Index */
    pub vd_cnt: Elf64_Half,  /* Number of associated aux entries */
    pub vd_hash: Elf64_Word,  /* Version name hash value */
    pub vd_aux: Elf64_Word,  /* Offset in bytes to verdaux array */
    pub vd_next: Elf64_Word,  /* Offset in bytes to next verdef entry */
}

/// Auxiliary version information.
#[derive(Debug, Clone, Copy, PartialEq, Eq)]
pub struct Elf64_Verdaux {
    pub vda_name: Elf64_Word,  /* Version or dependency names */
    pub vda_next: Elf64_Word,  /* Offset in bytes to next verdaux entry */
}

/// Version dependency entry.
#[derive(Debug, Clone, Copy, PartialEq, Eq)]
pub struct Elf64_Verneed {
    pub vn_version: Elf64_Half,  /* Version of structure */
    pub vn_cnt: Elf64_Half,  /* Number of associated aux entries */
    pub vn_file: Elf64_Word,  /* Offset of filename for this dependency */
    pub vn_aux: Elf64_Word,  /* Offset in bytes to vernaux array */
    pub vn_next: Elf64_Word,  /* Offset in bytes to next verneed entry */
}

/// Auxiliary needed version information.
#[derive(Debug, Clone, Copy, PartialEq, Eq)]
pub struct Elf64_Vernaux {
    pub vna_hash: Elf64_Word,  /* Hash value of dependency name */
    pub vna_flags: Elf64_Half,  /* Dependency specific information */
    pub vna_other: Elf64_Half,  /* Unused */
    pub vna_name: Elf64_Word,  /* Dependency name string offset */
    pub vna_next: Elf64_Word,  /* Offset in bytes to next vernaux entry */
}

/* AMD x86-64 relocations.  */
pub const R_X86_64_NONE: Elf64_Word = 0;

pub const R_X86_64_64: Elf64_Word = 1;

pub const R_X86_64_PC32: Elf64_Word = 2;

pub const R_X86_64_GOT32: Elf64_Word = 3;

pub const R_X86_64_PLT32: Elf64_Word = 4;

pub const R_X86_64_COPY: Elf64_Word = 5;

pub const R_X86_64_GLOB_DAT: Elf64_Word = 6;

pub const R_X86_64_JUMP_SLOT: Elf64_Word = 7;

pub const R_X86_64_RELATIVE: Elf64_Word = 8;

} // verus!
