//! Reading relocatable and shared ELF64 objects: the file header, the
//! section header table and the names of the sections.
use vstd::prelude::*;

use crate::codec::{ehdr_matches, field, parse_ehdr, parse_shdr, spec_shdr, EHDR_SIZE, SHDR_SIZE};
use crate::elf64::{
    Elf64_Ehdr, Elf64_Shdr, ELFCLASS64, ELFDATA2LSB, ELFMAG0, ELFMAG1, ELFMAG2, ELFMAG3, EM_X86_64,
    EV_CURRENT,
};

pub mod section;

verus! {

/// A parsed ELF64 object: its bytes, the path it was read from, its file
/// header, and its section headers with their names.
#[derive(Debug)]
pub struct Elf64Parser<'a> {
    pub bin: &'a [u8],
    pub path: String,
    pub hdr: Elf64_Ehdr,
    pub shdrs: Vec<ElfSectionHeaderEntry>,
}

/// A section header and the name that `.shstrtab` gives it.
#[derive(Debug)]
pub struct ElfSectionHeaderEntry {
    pub name: Vec<u8>,
    pub hdr: Elf64_Shdr,
}

#[derive(Debug, PartialEq, Eq)]
pub enum ElfParseError {
    TooShort,
    InvalidShstrIndex,
    InvalidShstrEnd,
    InvalidMagic,
    InvalidClass,
    InvalidEndian,
    InvalidVersion,
    InvalidMachine,
    SectionNotFound { name: Vec<u8> },
    SectionNotFoundByIndex { index: usize },
    SymbolNotFound { index: usize },
}

/// What an error says, with the name of a missing section as its bytes.
pub enum ParseErrorView {
    TooShort,
    InvalidShstrIndex,
    InvalidShstrEnd,
    InvalidMagic,
    InvalidClass,
    InvalidEndian,
    InvalidVersion,
    InvalidMachine,
    SectionNotFound { name: Seq<u8> },
    SectionNotFoundByIndex { index: usize },
    SymbolNotFound { index: usize },
}

impl View for ElfParseError {
    type V = ParseErrorView;

    open spec fn view(&self) -> ParseErrorView {
        match self {
            ElfParseError::TooShort => ParseErrorView::TooShort,
            ElfParseError::InvalidShstrIndex => ParseErrorView::InvalidShstrIndex,
            ElfParseError::InvalidShstrEnd => ParseErrorView::InvalidShstrEnd,
            ElfParseError::InvalidMagic => ParseErrorView::InvalidMagic,
            ElfParseError::InvalidClass => ParseErrorView::InvalidClass,
            ElfParseError::InvalidEndian => ParseErrorView::InvalidEndian,
            ElfParseError::InvalidVersion => ParseErrorView::InvalidVersion,
            ElfParseError::InvalidMachine => ParseErrorView::InvalidMachine,
            ElfParseError::SectionNotFound { name } => ParseErrorView::SectionNotFound {
                name: name@,
            },
            ElfParseError::SectionNotFoundByIndex { index } =>
                ParseErrorView::SectionNotFoundByIndex { index: *index },
            ElfParseError::SymbolNotFound { index } => ParseErrorView::SymbolNotFound {
                index: *index,
            },
        }
    }
}

/// The index of the first NUL byte of `tab` at or after `i`, or the length of
/// `tab` when there is none.
pub open spec fn first_nul(tab: Seq<u8>, i: int) -> int
    decreases tab.len() - i,
{
    if i < 0 || i >= tab.len() {
        tab.len() as int
    } else if tab[i] == 0 {
        i
    } else {
        first_nul(tab, i + 1)
    }
}

/// The string that starts at `start` in a string table: the bytes up to the
/// next NUL byte, or up to the end of the table when there is none.
pub open spec fn cstr_at(tab: Seq<u8>, start: int) -> Seq<u8> {
    tab.subrange(start, first_nul(tab, start))
}

/// What is wrong with a section name that starts at `start` in the section
/// name table, if anything.
pub open spec fn name_error(tab: Seq<u8>, start: int) -> Option<ElfParseError> {
    if start > tab.len() {
        Some(ElfParseError::TooShort)
    } else if first_nul(tab, start) >= tab.len() {
        Some(ElfParseError::InvalidShstrEnd)
    } else {
        None
    }
}

pub open spec fn spec_shoff(bin: Seq<u8>) -> int {
    field(bin, 40, 8) as int
}

pub open spec fn spec_shnum(bin: Seq<u8>) -> int {
    field(bin, 60, 2) as int
}

pub open spec fn spec_shstrndx(bin: Seq<u8>) -> int {
    field(bin, 62, 2) as int
}

/// The `i`-th section header of the table at `shoff`.
pub open spec fn shdr_at(bin: Seq<u8>, shoff: int, i: int) -> Elf64_Shdr {
    spec_shdr(bin.subrange(shoff + 64 * i, shoff + 64 * i + 64))
}

/// The section header of the section name table.
pub open spec fn shstr_hdr(bin: Seq<u8>) -> Elf64_Shdr {
    shdr_at(bin, spec_shoff(bin), spec_shstrndx(bin))
}

/// The bytes of the section name table.
pub open spec fn shstrtab_of(bin: Seq<u8>) -> Seq<u8> {
    let st = shstr_hdr(bin);
    bin.subrange(st.sh_offset as int, st.sh_offset + st.sh_size)
}

/// What is wrong with the file header or the section header table, if
/// anything, checked in this order.
pub open spec fn header_error(bin: Seq<u8>) -> Option<ElfParseError> {
    if bin.len() < 64 {
        Some(ElfParseError::TooShort)
    } else if !(bin[0] == ELFMAG0 && bin[1] == ELFMAG1 && bin[2] == ELFMAG2 && bin[3] == ELFMAG3) {
        Some(ElfParseError::InvalidMagic)
    } else if bin[4] != ELFCLASS64 {
        Some(ElfParseError::InvalidClass)
    } else if bin[5] != ELFDATA2LSB {
        Some(ElfParseError::InvalidEndian)
    } else if bin[6] != EV_CURRENT || field(bin, 20, 4) != EV_CURRENT {
        Some(ElfParseError::InvalidVersion)
    } else if field(bin, 18, 2) != EM_X86_64 {
        Some(ElfParseError::InvalidMachine)
    } else if bin.len() < spec_shoff(bin) + 64 * spec_shnum(bin) {
        Some(ElfParseError::TooShort)
    } else if spec_shstrndx(bin) >= spec_shnum(bin) {
        Some(ElfParseError::InvalidShstrIndex)
    } else if bin.len() < shstr_hdr(bin).sh_offset + shstr_hdr(bin).sh_size {
        Some(ElfParseError::TooShort)
    } else {
        None
    }
}

/// The name error of the `j`-th section header.
pub open spec fn name_error_at(bin: Seq<u8>, j: int) -> Option<ElfParseError> {
    name_error(shstrtab_of(bin), shdr_at(bin, spec_shoff(bin), j).sh_name as int)
}

/// The names of the first `n` section headers are well formed.
pub open spec fn names_ok_upto(bin: Seq<u8>, n: int) -> bool {
    forall|j: int| 0 <= j < n ==> #[trigger] name_error_at(bin, j) is None
}

/// `j` is the first section header whose name is not well formed.
pub open spec fn is_first_bad_name(bin: Seq<u8>, j: int) -> bool {
    &&& 0 <= j < spec_shnum(bin)
    &&& name_error_at(bin, j) is Some
    &&& names_ok_upto(bin, j)
}

/// The name of the `j`-th section.
pub open spec fn section_name_at(bin: Seq<u8>, j: int) -> Seq<u8> {
    cstr_at(shstrtab_of(bin), shdr_at(bin, spec_shoff(bin), j).sh_name as int)
}

/// Why `bin` is not a well-formed x86_64 ELF64 object, if it is not one: the
/// header's error, or else that of the first section whose name is not well
/// formed.
pub open spec fn parse_error(bin: Seq<u8>) -> Option<ElfParseError> {
    match header_error(bin) {
        Some(e) => Some(e),
        None => if names_ok_upto(bin, spec_shnum(bin)) {
            None
        } else {
            name_error_at(bin, choose|j: int| is_first_bad_name(bin, j))
        },
    }
}

/// `p` holds what `bin` describes.
pub open spec fn parsed_from(p: Elf64Parser, bin: Seq<u8>) -> bool {
    &&& p.bin@ == bin
    &&& ehdr_matches(p.hdr, bin.subrange(0, 64))
    &&& p.shdrs@.len() == spec_shnum(bin)
    &&& forall|j: int|
        0 <= j < p.shdrs@.len() ==> (#[trigger] p.shdrs@[j]).hdr == shdr_at(bin, spec_shoff(bin), j)
            && p.shdrs@[j].name@ == section_name_at(bin, j)
}

/// The index of the first NUL byte of `tab` at or after `start`, or the
/// length of `tab` when there is none.
pub fn find_nul(tab: &[u8], start: usize) -> (r: usize)
    requires
        start <= tab@.len(),
    ensures
        r == first_nul(tab@, start as int),
        start <= r <= tab@.len(),
{
    let mut i = start;
    while i < tab.len()
        invariant
            start <= i <= tab@.len(),
            first_nul(tab@, start as int) == first_nul(tab@, i as int),
        decreases tab@.len() - i,
    {
        if tab[i] == 0 {
            return i;
        }
        i = i + 1;
    }
    i
}

/// Whether two byte strings are equal.
pub fn bytes_eq(a: &[u8], b: &[u8]) -> (r: bool)
    ensures
        r == (a@ == b@),
{
    if a.len() != b.len() {
        return false;
    }
    let mut i: usize = 0;
    while i < a.len()
        invariant
            a@.len() == b@.len(),
            0 <= i <= a@.len(),
            forall|k: int| 0 <= k < i ==> a@[k] == b@[k],
        decreases a@.len() - i,
    {
        if a[i] != b[i] {
            return false;
        }
        i = i + 1;
    }
    assert(a@ =~= b@);
    true
}

/// A copy of a byte string.
pub fn copy_bytes(s: &[u8]) -> (r: Vec<u8>)
    ensures
        r@ == s@,
{
    let mut r: Vec<u8> = Vec::new();
    let mut i: usize = 0;
    while i < s.len()
        invariant
            0 <= i <= s@.len(),
            r@ == s@.subrange(0, i as int),
        decreases s@.len() - i,
    {
        r.push(s[i]);
        assert(s@.subrange(0, i + 1) =~= s@.subrange(0, i as int).push(s@[i as int]));
        i = i + 1;
    }
    assert(s@.subrange(0, s@.len() as int) =~= s@);
    r
}

impl<'a> Elf64Parser<'a> {
    /// Reads the file header and the section header table of `bin`, and the
    /// name of each section.
    pub fn new(bin: &'a [u8], path: String) -> (r: Result<Self, ElfParseError>)
        ensures
            match r {
                Ok(p) => parse_error(bin@) is None && parsed_from(p, bin@) && p.path == path,
                Err(e) => parse_error(bin@) == Some(e),
            },
    {
        /* load elf header */
        if bin.len() < EHDR_SIZE {
            return Err(ElfParseError::TooShort);
        }
        let hdr = parse_ehdr(bin);
        proof {
            assert(bin@.subrange(0, 64).subrange(0, 16)[0] == bin@[0]);
            assert(bin@.subrange(0, 64).subrange(0, 16)[1] == bin@[1]);
            assert(bin@.subrange(0, 64).subrange(0, 16)[2] == bin@[2]);
            assert(bin@.subrange(0, 64).subrange(0, 16)[3] == bin@[3]);
            assert(bin@.subrange(0, 64).subrange(0, 16)[4] == bin@[4]);
            assert(bin@.subrange(0, 64).subrange(0, 16)[5] == bin@[5]);
            assert(bin@.subrange(0, 64).subrange(0, 16)[6] == bin@[6]);
            let h = bin@.subrange(0, 64);
            assert(h.subrange(18, 20) =~= bin@.subrange(18, 20));
            assert(h.subrange(20, 24) =~= bin@.subrange(20, 24));
            assert(h.subrange(40, 48) =~= bin@.subrange(40, 48));
            assert(h.subrange(60, 62) =~= bin@.subrange(60, 62));
            assert(h.subrange(62, 64) =~= bin@.subrange(62, 64));
        }
        if !(hdr.e_ident[0] == ELFMAG0 && hdr.e_ident[1] == ELFMAG1 && hdr.e_ident[2] == ELFMAG2
            && hdr.e_ident[3] == ELFMAG3) {
            return Err(ElfParseError::InvalidMagic);
        }
        if hdr.e_ident[4] != ELFCLASS64 {
            return Err(ElfParseError::InvalidClass);
        }
        if hdr.e_ident[5] != ELFDATA2LSB {
            return Err(ElfParseError::InvalidEndian);
        }
        if hdr.e_ident[6] != 1u8 || hdr.e_version != EV_CURRENT {
            return Err(ElfParseError::InvalidVersion);
        }
        if hdr.e_machine != EM_X86_64 {
            return Err(ElfParseError::InvalidMachine);
        }

        /* load section headers */
        let table_len: u64 = 64 * (hdr.e_shnum as u64);
        if hdr.e_shoff > bin.len() as u64 || (bin.len() as u64) - hdr.e_shoff < table_len {
            return Err(ElfParseError::TooShort);
        }
        let shoff = hdr.e_shoff as usize;
        let shnum = hdr.e_shnum as usize;
        let mut shdrs: Vec<Elf64_Shdr> = Vec::new();
        let mut i: usize = 0;
        while i < shnum
            invariant
                0 <= i <= shnum,
                shnum == spec_shnum(bin@),
                shoff == spec_shoff(bin@),
                shoff + 64 * shnum <= bin.len(),
                shdrs@.len() == i,
                forall|j: int| 0 <= j < i ==> #[trigger] shdrs@[j] == shdr_at(bin@, shoff as int, j),
            decreases shnum - i,
        {
            assert(shoff + 64 * i + 64 <= shoff + 64 * shnum);
            let shdr = parse_shdr(bin, shoff + SHDR_SIZE * i);
            shdrs.push(shdr);
            i = i + 1;
        }

        if hdr.e_shstrndx >= hdr.e_shnum {
            return Err(ElfParseError::InvalidShstrIndex);
        }
        let shstr = shdrs[hdr.e_shstrndx as usize];
        if shstr.sh_offset > bin.len() as u64 || (bin.len() as u64) - shstr.sh_offset
            < shstr.sh_size {
            return Err(ElfParseError::TooShort);
        }
        let tab_start = shstr.sh_offset as usize;
        let tab_end = (shstr.sh_offset + shstr.sh_size) as usize;
        let shstrtab = &bin[tab_start..tab_end];
        assert(header_error(bin@) is None);
        assert(shstrtab@ == shstrtab_of(bin@));

        let mut entries: Vec<ElfSectionHeaderEntry> = Vec::new();
        let mut i: usize = 0;
        while i < shnum
            invariant
                0 <= i <= shnum,
                shnum == spec_shnum(bin@),
                shoff == spec_shoff(bin@),
                shdrs@.len() == shnum,
                forall|j: int| 0 <= j < shnum ==> #[trigger] shdrs@[j] == shdr_at(bin@, shoff as int, j),
                shstrtab@ == shstrtab_of(bin@),
                header_error(bin@) is None,
                names_ok_upto(bin@, i as int),
                entries@.len() == i,
                forall|j: int|
                    0 <= j < i ==> (#[trigger] entries@[j]).hdr == shdr_at(bin@, shoff as int, j)
                        && entries@[j].name@ == section_name_at(bin@, j),
            decreases shnum - i,
        {
            let shdr = shdrs[i];
            let start = shdr.sh_name as usize;
            if shstrtab.len() < start {
                proof {
                    lemma_first_bad_name(bin@, i as int);
                }
                return Err(ElfParseError::TooShort);
            }
            let end = find_nul(shstrtab, start);
            if end == shstrtab.len() {
                proof {
                    lemma_first_bad_name(bin@, i as int);
                }
                return Err(ElfParseError::InvalidShstrEnd);
            }
            let name = copy_bytes(&shstrtab[start..end]);
            entries.push(ElfSectionHeaderEntry { name, hdr: shdr });
            proof {
                assert(name_error_at(bin@, i as int) is None);
                assert forall|j: int| 0 <= j < i + 1 implies #[trigger] name_error_at(bin@, j) is None by {
                    if j < i {
                        assert(names_ok_upto(bin@, i as int));
                    }
                }
            }
            i = i + 1;
        }
        Ok(Self { bin, path, hdr, shdrs: entries })
    }

    /// The index of the first section named `name`, if there is one.
    pub fn find_section(&self, name: &[u8]) -> (r: Option<usize>)
        ensures
            match r {
                Some(j) => is_first_named(self.shdrs@, name@, j as int),
                None => forall|j: int| 0 <= j < self.shdrs@.len() ==> #[trigger] self.shdrs@[j].name@ != name@,
            },
    {
        let mut i: usize = 0;
        while i < self.shdrs.len()
            invariant
                0 <= i <= self.shdrs@.len(),
                forall|j: int| 0 <= j < i ==> #[trigger] self.shdrs@[j].name@ != name@,
            decreases self.shdrs@.len() - i,
        {
            if bytes_eq(self.shdrs[i].name.as_slice(), name) {
                return Some(i);
            }
            i = i + 1;
        }
        None
    }

    /// The index of the first section of type `t1` or `t2`, if there is one.
    pub fn find_section_by_type(&self, t1: u32, t2: u32) -> (r: Option<usize>)
        ensures
            match r {
                Some(j) => is_first_typed(self.shdrs@, t1, t2, j as int),
                None => forall|j: int|
                    0 <= j < self.shdrs@.len() ==> !has_type(#[trigger] self.shdrs@[j], t1, t2),
            },
    {
        let mut i: usize = 0;
        while i < self.shdrs.len()
            invariant
                0 <= i <= self.shdrs@.len(),
                forall|j: int| 0 <= j < i ==> !has_type(#[trigger] self.shdrs@[j], t1, t2),
            decreases self.shdrs@.len() - i,
        {
            let t = self.shdrs[i].hdr.sh_type;
            if t == t1 || t == t2 {
                return Some(i);
            }
            i = i + 1;
        }
        None
    }

    /// The header and the bytes of the section at `index`.
    pub fn section_at(&self, index: usize) -> (r: Result<(Elf64_Shdr, &'a [u8]), ElfParseError>)
        ensures
            is_section_at(self.bin@, self.shdrs@, index as int, r),
    {
        if index >= self.shdrs.len() {
            return Err(ElfParseError::SectionNotFoundByIndex { index });
        }
        let hdr = self.shdrs[index].hdr;
        let bytes = section_bytes(self.bin, &hdr);
        match bytes {
            Ok(b) => Ok((hdr, b)),
            Err(e) => Err(e),
        }
    }

    /// The header and the bytes of the first section named `name`; `None`
    /// when no section has that name.
    pub fn get_section_by_name(&self, name: &[u8]) -> (r: Option<
        Result<(Elf64_Shdr, &'a [u8]), ElfParseError>,
    >)
        ensures
            match r {
                None => forall|j: int|
                    0 <= j < self.shdrs@.len() ==> #[trigger] self.shdrs@[j].name@ != name@,
                Some(res) => exists|j: int|
                    is_first_named(self.shdrs@, name@, j) && is_section_at(
                        self.bin@,
                        self.shdrs@,
                        j,
                        res,
                    ),
            },
    {
        match self.find_section(name) {
            None => None,
            Some(j) => Some(self.section_at(j)),
        }
    }
}

/// The bytes of a section that a header describes, when they lie in the file.
pub fn section_bytes<'b>(bin: &'b [u8], hdr: &Elf64_Shdr) -> (r: Result<&'b [u8], ElfParseError>)
    ensures
        is_section_bytes(bin@, *hdr, r),
{
    if hdr.sh_offset > bin.len() as u64 || (bin.len() as u64) - hdr.sh_offset < hdr.sh_size {
        return Err(ElfParseError::TooShort);
    }
    let start = hdr.sh_offset as usize;
    let end = (hdr.sh_offset + hdr.sh_size) as usize;
    Ok(&bin[start..end])
}

/// The header lies in the file: its bytes end at or before the file's end.
pub open spec fn in_file(bin: Seq<u8>, hdr: Elf64_Shdr) -> bool {
    hdr.sh_offset + hdr.sh_size <= bin.len()
}

/// The bytes of the section that `hdr` describes.
pub open spec fn section_contents(bin: Seq<u8>, hdr: Elf64_Shdr) -> Seq<u8> {
    bin.subrange(hdr.sh_offset as int, hdr.sh_offset + hdr.sh_size)
}

/// `r` is the bytes of the section that `hdr` describes, or `TooShort` when
/// they do not lie in the file.
pub open spec fn is_section_bytes(bin: Seq<u8>, hdr: Elf64_Shdr, r: Result<&[u8], ElfParseError>) -> bool {
    match r {
        Ok(b) => in_file(bin, hdr) && b@ == section_contents(bin, hdr),
        Err(e) => !in_file(bin, hdr) && e == ElfParseError::TooShort,
    }
}

/// `r` is the header and the bytes of the section at `index`: an error when
/// there is no such section, or when its bytes do not lie in the file.
pub open spec fn is_section_at(
    bin: Seq<u8>,
    shdrs: Seq<ElfSectionHeaderEntry>,
    index: int,
    r: Result<(Elf64_Shdr, &[u8]), ElfParseError>,
) -> bool {
    if index < 0 || index >= shdrs.len() {
        r == Err::<(Elf64_Shdr, &[u8]), ElfParseError>(
            ElfParseError::SectionNotFoundByIndex { index: index as usize },
        )
    } else {
        match r {
            Ok((h, b)) => h == shdrs[index].hdr && in_file(bin, h) && b@ == section_contents(bin, h),
            Err(e) => !in_file(bin, shdrs[index].hdr) && e == ElfParseError::TooShort,
        }
    }
}

/// `j` is the first section named `name`.
pub open spec fn is_first_named(shdrs: Seq<ElfSectionHeaderEntry>, name: Seq<u8>, j: int) -> bool {
    &&& 0 <= j < shdrs.len()
    &&& shdrs[j].name@ == name
    &&& forall|k: int| 0 <= k < j ==> #[trigger] shdrs[k].name@ != name
}

/// The section is of type `t1` or `t2`.
pub open spec fn has_type(e: ElfSectionHeaderEntry, t1: u32, t2: u32) -> bool {
    e.hdr.sh_type == t1 || e.hdr.sh_type == t2
}

/// `j` is the first section of type `t1` or `t2`.
pub open spec fn is_first_typed(shdrs: Seq<ElfSectionHeaderEntry>, t1: u32, t2: u32, j: int) -> bool {
    &&& 0 <= j < shdrs.len()
    &&& has_type(shdrs[j], t1, t2)
    &&& forall|k: int| 0 <= k < j ==> !has_type(#[trigger] shdrs[k], t1, t2)
}

/// The first section of a type is unique.
pub proof fn lemma_first_typed_unique(
    shdrs: Seq<ElfSectionHeaderEntry>,
    t1: u32,
    t2: u32,
    j1: int,
    j2: int,
)
    requires
        is_first_typed(shdrs, t1, t2, j1),
        is_first_typed(shdrs, t1, t2, j2),
    ensures
        j1 == j2,
{
    if j1 < j2 {
        assert(!has_type(shdrs[j1], t1, t2));
    } else if j2 < j1 {
        assert(!has_type(shdrs[j2], t1, t2));
    }
}

/// The first section of a name is unique.
pub proof fn lemma_first_named_unique(shdrs: Seq<ElfSectionHeaderEntry>, name: Seq<u8>, j1: int, j2: int)
    requires
        is_first_named(shdrs, name, j1),
        is_first_named(shdrs, name, j2),
    ensures
        j1 == j2,
{
    if j1 < j2 {
        assert(shdrs[j1].name@ != name);
    } else if j2 < j1 {
        assert(shdrs[j2].name@ != name);
    }
}

/// A section named `name` means there is a first one.
pub proof fn lemma_first_named_exists(shdrs: Seq<ElfSectionHeaderEntry>, name: Seq<u8>, i: int)
    requires
        0 <= i < shdrs.len(),
        shdrs[i].name@ == name,
    ensures
        exists|j: int| is_first_named(shdrs, name, j),
    decreases i,
{
    if exists|k: int| 0 <= k < i && #[trigger] shdrs[k].name@ == name {
        let k = choose|k: int| 0 <= k < i && #[trigger] shdrs[k].name@ == name;
        lemma_first_named_exists(shdrs, name, k);
    } else {
        assert(is_first_named(shdrs, name, i));
    }
}

/// A section of a type means there is a first one.
pub proof fn lemma_first_typed_exists(shdrs: Seq<ElfSectionHeaderEntry>, t1: u32, t2: u32, i: int)
    requires
        0 <= i < shdrs.len(),
        has_type(shdrs[i], t1, t2),
    ensures
        exists|j: int| is_first_typed(shdrs, t1, t2, j),
    decreases i,
{
    if exists|k: int| 0 <= k < i && has_type(#[trigger] shdrs[k], t1, t2) {
        let k = choose|k: int| 0 <= k < i && has_type(#[trigger] shdrs[k], t1, t2);
        lemma_first_typed_exists(shdrs, t1, t2, k);
    } else {
        assert(is_first_typed(shdrs, t1, t2, i));
    }
}

proof fn lemma_first_bad_name(bin: Seq<u8>, i: int)
    requires
        header_error(bin) is None,
        0 <= i < spec_shnum(bin),
        names_ok_upto(bin, i),
        name_error_at(bin, i) is Some,
    ensures
        parse_error(bin) == name_error_at(bin, i),
{
    assert(is_first_bad_name(bin, i));
    let j = choose|j: int| is_first_bad_name(bin, j);
    if j < i {
        assert(name_error_at(bin, j) is None);
    } else if j > i {
        assert(name_error_at(bin, i) is None);
    }
    assert(!names_ok_upto(bin, spec_shnum(bin)));
}

} // verus!
