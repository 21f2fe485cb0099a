//! The sections whose bytes the linker merges: `.text`, `.data` and `.rodata`.
use vstd::prelude::*;

use crate::elf64::Elf64_Shdr;
use crate::names::{data_name, rodata_name, text_name};
use crate::parser::{is_first_named, is_section_at, Elf64Parser, ElfParseError, ElfSectionHeaderEntry};

verus! {

/// `r` is the header and the bytes of the first section named `name`, `None`
/// when there is no such section, or the error of reading its bytes.
pub open spec fn is_named_section(
    bin: Seq<u8>,
    shdrs: Seq<ElfSectionHeaderEntry>,
    name: Seq<u8>,
    r: Result<Option<(Elf64_Shdr, &[u8])>, ElfParseError>,
) -> bool {
    match r {
        Ok(None) => forall|j: int| 0 <= j < shdrs.len() ==> #[trigger] shdrs[j].name@ != name,
        Ok(Some(x)) => exists|j: int|
            is_first_named(shdrs, name, j) && is_section_at(
                bin,
                shdrs,
                j,
                Ok::<(Elf64_Shdr, &[u8]), ElfParseError>(x),
            ),
        Err(e) => exists|j: int|
            is_first_named(shdrs, name, j) && is_section_at(
                bin,
                shdrs,
                j,
                Err::<(Elf64_Shdr, &[u8]), ElfParseError>(e),
            ),
    }
}

impl<'a> Elf64Parser<'a> {
    /// The first section named `name`, with its bytes.
    pub fn section_named(&self, name: &[u8]) -> (r: Result<Option<(Elf64_Shdr, &'a [u8])>, ElfParseError>)
        ensures
            is_named_section(self.bin@, self.shdrs@, name@, r),
    {
        match self.get_section_by_name(name) {
            None => Ok(None),
            Some(Ok(x)) => Ok(Some(x)),
            Some(Err(e)) => Err(e),
        }
    }

    /// The first section named `.text`, with its bytes.
    pub fn section_text(&self) -> (r: Result<Option<(Elf64_Shdr, &'a [u8])>, ElfParseError>)
        ensures
            is_named_section(self.bin@, self.shdrs@, crate::names::spec_text_name(), r),
    {
        let name = text_name();
        self.section_named(name.as_slice())
    }

    /// The first section named `.data`, with its bytes.
    pub fn section_data(&self) -> (r: Result<Option<(Elf64_Shdr, &'a [u8])>, ElfParseError>)
        ensures
            is_named_section(self.bin@, self.shdrs@, crate::names::spec_data_name(), r),
    {
        let name = data_name();
        self.section_named(name.as_slice())
    }

    /// The first section named `.rodata`, with its bytes.
    pub fn section_rodata(&self) -> (r: Result<Option<(Elf64_Shdr, &'a [u8])>, ElfParseError>)
        ensures
            is_named_section(self.bin@, self.shdrs@, crate::names::spec_rodata_name(), r),
    {
        let name = rodata_name();
        self.section_named(name.as_slice())
    }
}

} // verus!
