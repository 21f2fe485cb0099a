//! Symbol tables.
use vstd::prelude::*;

use crate::codec::{parse_sym, spec_sym, SYM_SIZE};
use crate::elf64::{Elf64_Sym, SHT_DYNSYM, SHT_SYMTAB};
use crate::linker::symbol::ResolvedSym;
use crate::names::{spec_symtab_name, symtab_name};
use crate::parser::section::strtab::ElfSectionStrtab;
use crate::parser::{
    cstr_at, has_type, in_file, is_first_typed, lemma_first_typed_unique, section_contents,
    Elf64Parser, ElfParseError, ElfSectionHeaderEntry, ParseErrorView,
};

verus! {

/// The symbols of a symbol table, in table order.
#[derive(Debug)]
pub struct ElfSectionSymtab {
    pub syms: Vec<ElfSym>,
}

/// A symbol, its name, and, once symbols are resolved, its definition.
#[derive(Debug)]
pub struct ElfSym {
    pub name: Vec<u8>,
    pub sym: Elf64_Sym,
    pub resolved_sym: Option<ResolvedSym>,
}

/// The `i`-th symbol of the bytes of a symbol table.
pub open spec fn sym_at(body: Seq<u8>, i: int) -> Elf64_Sym {
    spec_sym(body.subrange(24 * i, 24 * i + 24))
}

/// `syms` are the symbols of the table `body`, named from the string table
/// `tab`, none of them resolved yet.
pub open spec fn syms_from(syms: Seq<ElfSym>, body: Seq<u8>, tab: Seq<u8>) -> bool {
    &&& syms.len() == body.len() / 24
    &&& forall|i: int|
        0 <= i < syms.len() ==> (#[trigger] syms[i]).sym == sym_at(body, i) && syms[i].name@
            == cstr_at(tab, syms[i].sym.st_name as int) && syms[i].resolved_sym is None
}

/// Some symbol of `body` names a string past the end of `tab`.
pub open spec fn has_name_out_of_table(body: Seq<u8>, tab: Seq<u8>) -> bool {
    exists|i: int| 0 <= i < body.len() / 24 && #[trigger] sym_at(body, i).st_name > tab.len()
}

/// `r` is what reading the symbol table that is section `j` gives.
pub open spec fn symtab_outcome(
    bin: Seq<u8>,
    shdrs: Seq<ElfSectionHeaderEntry>,
    j: int,
    r: Result<(ElfSectionSymtab, ElfSectionStrtab), ElfParseError>,
) -> bool {
    let h = shdrs[j].hdr;
    let body = section_contents(bin, h);
    let l = h.sh_link as int;
    if !in_file(bin, h) {
        r is Err && r->Err_0@ == ParseErrorView::TooShort
    } else if l >= shdrs.len() {
        r is Err && r->Err_0@ == ParseErrorView::SectionNotFoundByIndex { index: l as usize }
    } else if !in_file(bin, shdrs[l].hdr) {
        r is Err && r->Err_0@ == ParseErrorView::TooShort
    } else if has_name_out_of_table(body, section_contents(bin, shdrs[l].hdr)) {
        r is Err && r->Err_0@ == ParseErrorView::TooShort
    } else {
        &&& r is Ok
        &&& r->Ok_0.1.shdr == shdrs[l].hdr
        &&& r->Ok_0.1.bin@ == section_contents(bin, shdrs[l].hdr)
        &&& syms_from(r->Ok_0.0.syms@, body, section_contents(bin, shdrs[l].hdr))
    }
}

/// `r` is what reading the first symbol table (`SHT_SYMTAB` or `SHT_DYNSYM`)
/// of `p` gives, with the string table it links to.
pub open spec fn symtab_read(p: Elf64Parser, r: Result<(ElfSectionSymtab, ElfSectionStrtab), ElfParseError>) -> bool {
    &&& (forall|j: int|
        0 <= j < p.shdrs@.len() ==> !has_type(
            #[trigger] p.shdrs@[j],
            SHT_SYMTAB,
            SHT_DYNSYM,
        )) ==> (r is Err) && r->Err_0@ == (ParseErrorView::SectionNotFound {
        name: spec_symtab_name(),
    })
    &&& forall|j: int|
        is_first_typed(p.shdrs@, SHT_SYMTAB, SHT_DYNSYM, j) ==> symtab_outcome(
            p.bin@,
            p.shdrs@,
            j,
            r,
        )
}

impl<'a> Elf64Parser<'a> {
    /// The first symbol table (`SHT_SYMTAB` or `SHT_DYNSYM`) with its symbols
    /// read and named, and the string table it links to.
    #[verifier::loop_isolation(false)]
    pub fn section_symtab(&self) -> (r: Result<(ElfSectionSymtab, ElfSectionStrtab<'a>), ElfParseError>)
        ensures
            symtab_read(*self, r),

    {
        let j = match self.find_section_by_type(SHT_SYMTAB, SHT_DYNSYM) {
            None => {
                return Err(ElfParseError::SectionNotFound { name: symtab_name() });
            },
            Some(j) => j,
        };
        proof {
            assert forall|k: int| is_first_typed(self.shdrs@, SHT_SYMTAB, SHT_DYNSYM, k) implies k
                == j by {
                lemma_first_typed_unique(self.shdrs@, SHT_SYMTAB, SHT_DYNSYM, k, j as int);
            }
        }
        let (symtab_shdr, bin) = match self.section_at(j) {
            Err(e) => {
                return Err(e);
            },
            Ok(x) => x,
        };
        let strtab = match self.section_strtab_at(symtab_shdr.sh_link as usize) {
            Err(e) => {
                return Err(e);
            },
            Ok(t) => t,
        };
        let n = bin.len() / SYM_SIZE;
        let mut syms: Vec<ElfSym> = Vec::new();
        let mut i: usize = 0;
        while i < n
            invariant
                n == bin@.len() / 24,
                0 <= i <= n,
                syms@.len() == i,
                forall|k: int| 0 <= k < i ==> #[trigger] sym_at(bin@, k).st_name <= strtab.bin@.len(),
                forall|k: int|
                    0 <= k < i ==> (#[trigger] syms@[k]).sym == sym_at(bin@, k) && syms@[k].name@
                        == cstr_at(strtab.bin@, syms@[k].sym.st_name as int)
                        && (syms@[k].resolved_sym is None),
            decreases n - i,
        {
            assert(SYM_SIZE * i + 24 <= bin.len()) by (nonlinear_arith)
                requires
                    i < n,
                    n == bin.len() / 24,
            ;
            let sym = parse_sym(bin, SYM_SIZE * i);
            if sym.st_name as usize > strtab.bin.len() {
                assert(sym_at(bin@, i as int).st_name > strtab.bin@.len());
                assert(has_name_out_of_table(bin@, strtab.bin@));
                return Err(ElfParseError::TooShort);
            }
            let name = strtab.get(sym.st_name as usize);
            syms.push(ElfSym { name, sym, resolved_sym: None });
            i = i + 1;
        }
        Ok((ElfSectionSymtab { syms }, strtab))
    }
}

impl ElfSectionSymtab {
    /// The symbol at `index`, if the table has one there.
    pub fn get(&self, index: usize) -> (r: Option<&ElfSym>)
        ensures
            index < self.syms@.len() ==> r == Some(&self.syms@[index as int]),
            index >= self.syms@.len() ==> (r is None),
    {
        if index < self.syms.len() {
            Some(&self.syms[index])
        } else {
            None
        }
    }
}

} // verus!
