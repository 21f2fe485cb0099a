//! The `.bss` section.
use vstd::prelude::*;

use crate::elf64::Elf64_Shdr;
use crate::names::{bss_name, spec_bss_name};
use crate::parser::{is_first_named, Elf64Parser};

verus! {

impl<'a> Elf64Parser<'a> {
    /// The header of the first section named `.bss`, if there is one.  Such a
    /// section occupies no bytes of the file, so its extent is not checked
    /// against the file.
    pub fn section_bss(&self) -> (r: Option<Elf64_Shdr>)
        ensures
            match r {
                Some(h) => exists|j: int|
                    is_first_named(self.shdrs@, spec_bss_name(), j) && h == self.shdrs@[j].hdr,
                None => forall|j: int|
                    0 <= j < self.shdrs@.len() ==> #[trigger] self.shdrs@[j].name@ != spec_bss_name(),
            },
    {
        let name = bss_name();
        match self.find_section(name.as_slice()) {
            None => None,
            Some(j) => Some(self.shdrs[j].hdr),
        }
    }
}

} // verus!
