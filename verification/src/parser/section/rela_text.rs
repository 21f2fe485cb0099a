//! The relocations of `.text`.
use vstd::prelude::*;

use crate::codec::{parse_rela, spec_rela, RELA_SIZE};
use crate::elf64::{spec_r_sym, spec_st_type, Elf64_Rela, ELF64_ST_TYPE, STT_SECTION};
use crate::names::{rela_text_name, spec_rela_text_name};
use crate::parser::section::strtab::ElfSectionStrtab;
use crate::parser::section::symtab::{ElfSectionSymtab, ElfSym};
use crate::parser::{
    copy_bytes, cstr_at, in_file, is_first_named, lemma_first_named_unique, section_contents,
    Elf64Parser, ElfParseError, ElfSectionHeaderEntry, ParseErrorView,
};

verus! {

/// A relocation and the name of the symbol it refers to.
#[derive(Debug)]
pub struct ElfRela {
    pub name: Vec<u8>,
    pub rela: Elf64_Rela,
}

/// The `i`-th relocation of the bytes of a relocation section.
pub open spec fn rela_at(body: Seq<u8>, i: int) -> Elf64_Rela {
    spec_rela(body.subrange(24 * i, 24 * i + 24))
}

/// What is wrong with the `i`-th relocation, if anything: a symbol index past
/// the symbol table, a section symbol whose section does not exist, or a
/// symbol name past the end of the string table.
pub open spec fn rela_error_at(
    shdrs: Seq<ElfSectionHeaderEntry>,
    syms: Seq<ElfSym>,
    tab: Seq<u8>,
    body: Seq<u8>,
    i: int,
) -> Option<ParseErrorView> {
    let idx = spec_r_sym(rela_at(body, i).r_info);
    if idx >= syms.len() {
        Some(ParseErrorView::SymbolNotFound { index: idx as usize })
    } else if spec_st_type(syms[idx as int].sym.st_info) == STT_SECTION {
        if syms[idx as int].sym.st_shndx >= shdrs.len() {
            Some(
                ParseErrorView::SectionNotFoundByIndex {
                    index: syms[idx as int].sym.st_shndx as usize,
                },
            )
        } else {
            None
        }
    } else if syms[idx as int].sym.st_name > tab.len() {
        Some(ParseErrorView::TooShort)
    } else {
        None
    }
}

/// The name of the symbol that the `i`-th relocation refers to: the name of
/// its section for a section symbol, its own name otherwise.
pub open spec fn rela_name_at(
    shdrs: Seq<ElfSectionHeaderEntry>,
    syms: Seq<ElfSym>,
    tab: Seq<u8>,
    body: Seq<u8>,
    i: int,
) -> Seq<u8> {
    let sym = syms[spec_r_sym(rela_at(body, i).r_info) as int].sym;
    if spec_st_type(sym.st_info) == STT_SECTION {
        shdrs[sym.st_shndx as int].name@
    } else {
        cstr_at(tab, sym.st_name as int)
    }
}

/// `i` is the first relocation with an error.
pub open spec fn is_first_rela_error(
    shdrs: Seq<ElfSectionHeaderEntry>,
    syms: Seq<ElfSym>,
    tab: Seq<u8>,
    body: Seq<u8>,
    i: int,
) -> bool {
    &&& 0 <= i < body.len() / 24
    &&& rela_error_at(shdrs, syms, tab, body, i) is Some
    &&& forall|k: int| 0 <= k < i ==> #[trigger] rela_error_at(shdrs, syms, tab, body, k) is None
}

/// `r` is what reading the relocations `body` gives: their first error, or
/// each relocation with the name of its symbol.
pub open spec fn relas_outcome(
    shdrs: Seq<ElfSectionHeaderEntry>,
    syms: Seq<ElfSym>,
    tab: Seq<u8>,
    body: Seq<u8>,
    r: Result<Vec<ElfRela>, ElfParseError>,
) -> bool {
    match r {
        Ok(v) => {
            &&& forall|k: int|
                0 <= k < body.len() / 24 ==> #[trigger] rela_error_at(shdrs, syms, tab, body, k) is None
            &&& v@.len() == body.len() / 24
            &&& forall|k: int|
                0 <= k < v@.len() ==> (#[trigger] v@[k]).rela == rela_at(body, k) && v@[k].name@
                    == rela_name_at(shdrs, syms, tab, body, k)
        },
        Err(e) => exists|i: int|
            is_first_rela_error(shdrs, syms, tab, body, i) && Some(e@) == rela_error_at(
                shdrs,
                syms,
                tab,
                body,
                i,
            ),
    }
}

/// `r` is what reading the relocations of `.text` of `p` gives, their
/// symbols looked up in `symtab` and `strtab`.
pub open spec fn rela_read(p: Elf64Parser, symtab: ElfSectionSymtab, strtab: ElfSectionStrtab, r: Result<Vec<ElfRela>, ElfParseError>) -> bool {
    &&& (forall|j: int|
        0 <= j < p.shdrs@.len() ==> #[trigger] p.shdrs@[j].name@
            != spec_rela_text_name()) ==> (r is Err) && r->Err_0@
        == (ParseErrorView::SectionNotFound { name: spec_rela_text_name() })
    &&& forall|j: int|
        is_first_named(p.shdrs@, spec_rela_text_name(), j) ==> if !in_file(
            p.bin@,
            p.shdrs@[j].hdr,
        ) {
            (r is Err) && r->Err_0@ == ParseErrorView::TooShort
        } else {
            relas_outcome(
                p.shdrs@,
                symtab.syms@,
                strtab.bin@,
                section_contents(p.bin@, p.shdrs@[j].hdr),
                r,
            )
        }
}

impl<'a> Elf64Parser<'a> {
    /// The relocations of `.text`, each with the name of the symbol it
    /// refers to, looked up in `symtab` and `strtab`.
    #[verifier::loop_isolation(false)]
    pub fn section_rela_text(&self, symtab: &ElfSectionSymtab, strtab: &ElfSectionStrtab) -> (r:
        Result<Vec<ElfRela>, ElfParseError>)
        ensures
            rela_read(*self, *symtab, *strtab, r),

    {
        let name = rela_text_name();
        let j = match self.find_section(name.as_slice()) {
            None => {
                return Err(ElfParseError::SectionNotFound { name });
            },
            Some(j) => j,
        };
        proof {
            assert forall|k: int| is_first_named(self.shdrs@, spec_rela_text_name(), k) implies k
                == j by {
                lemma_first_named_unique(self.shdrs@, spec_rela_text_name(), k, j as int);
            }
        }
        let (_, bin) = match self.section_at(j) {
            Err(e) => {
                return Err(e);
            },
            Ok(x) => x,
        };
        let ghost shdrs = self.shdrs@;
        let ghost syms = symtab.syms@;
        let ghost tab = strtab.bin@;
        let n = bin.len() / RELA_SIZE;
        let mut relas: Vec<ElfRela> = Vec::new();
        let mut i: usize = 0;
        while i < n
            invariant
                n == bin@.len() / 24,
                0 <= i <= n,
                relas@.len() == i,
                forall|k: int|
                    0 <= k < i ==> #[trigger] rela_error_at(shdrs, syms, tab, bin@, k) is None,
                forall|k: int|
                    0 <= k < i ==> (#[trigger] relas@[k]).rela == rela_at(bin@, k) && relas@[k].name@
                        == rela_name_at(shdrs, syms, tab, bin@, k),
            decreases n - i,
        {
            assert(RELA_SIZE * i + 24 <= bin.len()) by (nonlinear_arith)
                requires
                    i < n,
                    n == bin.len() / 24,
            ;
            let rela = parse_rela(bin, RELA_SIZE * i);
            assert(rela == rela_at(bin@, i as int));
            let index = rela.r_sym() as usize;
            let sym = match symtab.get(index) {
                None => {
                    assert(is_first_rela_error(shdrs, syms, tab, bin@, i as int));
                    return Err(ElfParseError::SymbolNotFound { index });
                },
                Some(s) => s,
            };
            let rname = if ELF64_ST_TYPE(sym.sym.st_info) == STT_SECTION {
                let shndx = sym.sym.st_shndx as usize;
                if shndx >= self.shdrs.len() {
                    assert(is_first_rela_error(shdrs, syms, tab, bin@, i as int));
                    return Err(ElfParseError::SectionNotFoundByIndex { index: shndx });
                }
                copy_bytes(self.shdrs[shndx].name.as_slice())
            } else {
                if sym.sym.st_name as usize > strtab.bin.len() {
                    assert(is_first_rela_error(shdrs, syms, tab, bin@, i as int));
                    return Err(ElfParseError::TooShort);
                }
                strtab.get(sym.sym.st_name as usize)
            };
            relas.push(ElfRela { name: rname, rela });
            i = i + 1;
        }
        Ok(relas)
    }
}

} // verus!
