//! String tables.
use vstd::prelude::*;

use crate::elf64::Elf64_Shdr;
use crate::names::{spec_strtab_name, strtab_name};
use crate::parser::{
    copy_bytes, cstr_at, find_nul, is_first_named, section_contents, in_file,
    Elf64Parser, ElfParseError, ParseErrorView,
};

verus! {

/// A string table: its section header and its bytes.
#[derive(Debug)]
pub struct ElfSectionStrtab<'a> {
    pub shdr: Elf64_Shdr,
    pub bin: &'a [u8],
}

impl<'a> ElfSectionStrtab<'a> {
    /// The string that starts at `index`: the bytes up to the next NUL byte,
    /// or up to the end of the table when there is none.
    pub fn get(&self, index: usize) -> (r: Vec<u8>)
        requires
            index <= self.bin@.len(),
        ensures
            r@ == cstr_at(self.bin@, index as int),
    {
        let end = find_nul(self.bin, index);
        copy_bytes(&self.bin[index..end])
    }
}

/// `r` is the string table at `index`, or the error of reading that section.
pub open spec fn is_strtab_at(
    bin: Seq<u8>,
    shdrs: Seq<crate::parser::ElfSectionHeaderEntry>,
    index: int,
    r: Result<ElfSectionStrtab, ElfParseError>,
) -> bool {
    if index < 0 || index >= shdrs.len() {
        r is Err && r->Err_0@ == ParseErrorView::SectionNotFoundByIndex { index: index as usize }
    } else if !in_file(bin, shdrs[index].hdr) {
        r is Err && r->Err_0@ == ParseErrorView::TooShort
    } else {
        r is Ok && r->Ok_0.shdr == shdrs[index].hdr && r->Ok_0.bin@ == section_contents(
            bin,
            shdrs[index].hdr,
        )
    }
}

impl<'a> Elf64Parser<'a> {
    /// The section named `.strtab`.
    pub fn section_strtab(&self) -> (r: Result<ElfSectionStrtab<'a>, ElfParseError>)
        ensures
            match r {
                Ok(t) => exists|j: int|
                    is_first_named(self.shdrs@, spec_strtab_name(), j) && t.shdr
                        == self.shdrs@[j].hdr && in_file(self.bin@, t.shdr) && t.bin@
                        == section_contents(self.bin@, t.shdr),
                Err(e) => (e@ == (ParseErrorView::SectionNotFound { name: spec_strtab_name() })
                    && forall|j: int|
                    0 <= j < self.shdrs@.len() ==> #[trigger] self.shdrs@[j].name@
                        != spec_strtab_name()) || (e@ == ParseErrorView::TooShort && exists|j: int|
                    is_first_named(self.shdrs@, spec_strtab_name(), j) && !in_file(
                        self.bin@,
                        self.shdrs@[j].hdr,
                    )),
            },
    {
        let name = strtab_name();
        match self.get_section_by_name(name.as_slice()) {
            None => Err(ElfParseError::SectionNotFound { name }),
            Some(Err(e)) => Err(e),
            Some(Ok((shdr, bin))) => Ok(ElfSectionStrtab { shdr, bin }),
        }
    }

    /// The string table at section index `index`, such as the one that a
    /// symbol table or a dynamic section links to.
    pub fn section_strtab_at(&self, index: usize) -> (r: Result<ElfSectionStrtab<'a>, ElfParseError>)
        ensures
            is_strtab_at(self.bin@, self.shdrs@, index as int, r),
    {
        match self.section_at(index) {
            Err(e) => Err(e),
            Ok((shdr, bin)) => Ok(ElfSectionStrtab { shdr, bin }),
        }
    }
}

} // verus!
