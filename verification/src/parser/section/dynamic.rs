//! The dynamic section of a shared object.
use vstd::prelude::*;

use crate::codec::{parse_dyn, spec_dyn, DYN_SIZE};
use crate::elf64::{Elf64_Dyn, DT_NULL, SHT_DYNAMIC};
use crate::names::{dynamic_name, spec_dynamic_name};
use crate::parser::section::strtab::{is_strtab_at, ElfSectionStrtab};
use crate::parser::{
    has_type, in_file, is_first_typed, lemma_first_typed_unique, section_contents, Elf64Parser,
    ElfParseError, ParseErrorView,
};

verus! {

/// The entries of a dynamic section before its `DT_NULL` entry, and the
/// index of that section.
pub struct ElfSectionDynamic {
    pub sect_index: usize,
    pub dyns: Vec<Elf64_Dyn>,
}

/// The `i`-th entry of the bytes of a dynamic section.
pub open spec fn dyn_at(body: Seq<u8>, i: int) -> Elf64_Dyn {
    spec_dyn(body.subrange(16 * i, 16 * i + 16))
}

/// The index of the first `DT_NULL` entry at or after `i`, or the number of
/// entries when there is none.
pub open spec fn dyn_count(body: Seq<u8>, i: int) -> int
    decreases body.len() / 16 - i,
{
    if i < 0 || i >= body.len() / 16 {
        (body.len() / 16) as int
    } else if dyn_at(body, i).d_tag == DT_NULL {
        i
    } else {
        dyn_count(body, i + 1)
    }
}

/// `r` is what reading the first dynamic section of `p` gives, with the
/// string table it links to.
pub open spec fn dynamic_read(p: Elf64Parser, r: Result<(ElfSectionDynamic, ElfSectionStrtab), ElfParseError>) -> bool {
    &&& (forall|j: int|
        0 <= j < p.shdrs@.len() ==> !has_type(
            #[trigger] p.shdrs@[j],
            SHT_DYNAMIC,
            SHT_DYNAMIC,
        )) ==> (r is Err) && r->Err_0@ == (ParseErrorView::SectionNotFound {
        name: spec_dynamic_name(),
    })
    &&& forall|j: int|
        is_first_typed(p.shdrs@, SHT_DYNAMIC, SHT_DYNAMIC, j) ==> if !in_file(
            p.bin@,
            p.shdrs@[j].hdr,
        ) {
            (r is Err) && r->Err_0@ == ParseErrorView::TooShort
        } else {
            let l = p.shdrs@[j].hdr.sh_link as int;
            let body = section_contents(p.bin@, p.shdrs@[j].hdr);
            match r {
                Ok((d, t)) => is_strtab_at(p.bin@, p.shdrs@, l, Ok(t)) && d.sect_index
                    == j && d.dyns@.len() == dyn_count(body, 0) && forall|k: int|
                    0 <= k < d.dyns@.len() ==> #[trigger] d.dyns@[k] == dyn_at(body, k),
                Err(e) => is_strtab_at(p.bin@, p.shdrs@, l, Err(e)),
            }
        }
}

impl<'a> Elf64Parser<'a> {
    /// The first section of type `SHT_DYNAMIC` with its entries up to the
    /// first `DT_NULL`, and the string table it links to.
    #[verifier::loop_isolation(false)]
    pub fn section_dynamic(&self) -> (r: Result<(ElfSectionDynamic, ElfSectionStrtab<'a>), ElfParseError>)
        ensures
            dynamic_read(*self, r),

    {
        let j = match self.find_section_by_type(SHT_DYNAMIC, SHT_DYNAMIC) {
            None => {
                return Err(ElfParseError::SectionNotFound { name: dynamic_name() });
            },
            Some(j) => j,
        };
        proof {
            assert forall|k: int| is_first_typed(self.shdrs@, SHT_DYNAMIC, SHT_DYNAMIC, k) implies k
                == j by {
                lemma_first_typed_unique(self.shdrs@, SHT_DYNAMIC, SHT_DYNAMIC, k, j as int);
            }
        }
        let (dynamic_shdr, bin) = match self.section_at(j) {
            Err(e) => {
                return Err(e);
            },
            Ok(x) => x,
        };
        let strtab = match self.section_strtab_at(dynamic_shdr.sh_link as usize) {
            Err(e) => {
                return Err(e);
            },
            Ok(t) => t,
        };
        let n = bin.len() / DYN_SIZE;
        let mut dyns: Vec<Elf64_Dyn> = Vec::new();
        let mut i: usize = 0;
        while i < n
            invariant
                n == bin@.len() / 16,
                0 <= i <= n,
                dyns@.len() == i,
                dyn_count(bin@, 0) == dyn_count(bin@, i as int),
                forall|k: int| 0 <= k < i ==> #[trigger] dyns@[k] == dyn_at(bin@, k),
            decreases n - i,
        {
            assert(DYN_SIZE * i + 16 <= bin.len()) by (nonlinear_arith)
                requires
                    i < n,
                    n == bin.len() / 16,
            ;
            let dyn_ = parse_dyn(bin, DYN_SIZE * i);
            assert(dyn_ == dyn_at(bin@, i as int));
            if dyn_.d_tag == DT_NULL {
                break;
            }
            dyns.push(dyn_);
            i = i + 1;
        }
        Ok((ElfSectionDynamic { sect_index: j, dyns }, strtab))
    }
}

} // verus!
