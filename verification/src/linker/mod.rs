//! Linking relocatable objects against shared objects into an executable.
use vstd::prelude::*;

use crate::elf64::{Elf64_Dyn, Elf64_Sym, Elf64_Word, DT_SONAME};
use crate::codec::records_bytes;
use crate::linker::dynamic::{
    build_interp, generate_dynsym, lemma_hash_bytes_len, lemma_plt_written_filled, needed_names, plt_written, plt_filled, plt_replaced, single_bucket_words,
    spec_dynsym, spec_interp, DynsymHashTable,
};
use crate::linker::output::{
    entries_distinct, entry_point, is_first_start, is_output, lemma_entry_point_stable, output_fits,
    lemma_shstrtab_names_len, lemma_strtab_has_names, lemma_strtab_len, ro_extra_of, shstrtab_names, strtab_build,
    strtab_size_bound, total_len, views, Strtab,
};
use crate::linker::relocation::{address_defined, lemma_address_defined, relas_in_range, relocated, text_replaced};
use crate::linker::section::{
    lemma_merge_same_sections, lemma_merged_from_same_sections, lemma_placed_bounds, merge_state, merged_from,
    placed, placement_of, plt_got_reserved, OutputSectionList,
};
use crate::linker::symbol::{
    all_unresolved, duplicated_names, dyn_syms_of, final_resolution, missing_names, name_set, names_distinct,
    resolves, same_but_resolutions, DynSymEntry, ResolvedSym,
};
use crate::parser::copy_bytes;
use crate::names::spec_rela_text_name;
use crate::parser::section::dynamic::{dynamic_read, ElfSectionDynamic};
use crate::parser::section::rela_text::{rela_read, ElfRela};
use crate::parser::section::strtab::ElfSectionStrtab;
use crate::parser::section::symtab::{symtab_read, ElfSectionSymtab, ElfSym};
use crate::elf64::{spec_r_sym, SHT_DYNSYM, SHT_SYMTAB};
use crate::parser::{
    cstr_at, has_type, in_file, is_first_named, is_first_typed, lemma_first_named_exists, lemma_first_typed_exists,
    parse_error, parsed_from, Elf64Parser, ElfParseError, ParseErrorView,
};

pub mod dynamic;
pub mod output;
pub mod relocation;
pub mod section;
pub mod reread;
pub mod symbol;

verus! {

/// The objects and shared objects to link, and what symbol resolution
/// found out about them.
pub struct Linker<'a> {
    pub objs: Vec<ElfObject<'a>>,
    pub shared_objs: Vec<ElfSharedObject<'a>>,
    /// For each object, the definition of each of its symbols, by index.
    pub resolved_syms: Vec<Vec<Option<ResolvedSym>>>,
    /// The path of the dynamic linker, as bytes.
    pub dyn_linker: Option<Vec<u8>>,
}

#[derive(Debug)]
pub enum LinkerError {
    SymbolResolveFailed { duplicated_syms: Vec<Vec<u8>>, missing_syms: Vec<Vec<u8>> },
    ParseError { errors: Vec<ElfParseError> },
    UnsupportedRelocationType { r_type: Elf64_Word },
    UnsupportedSection { name: Vec<u8> },
    EntryPointNotFound,
    /// An address or a size of the output does not fit a machine word.
    AddressOverflow,
    /// A relocation patches bytes outside the merged `.text`.
    RelocationOutOfRange { obj_index: usize, r_offset: u64 },
}

/// What a linker error says, with names as bytes.
pub enum LinkerErrorView {
    SymbolResolveFailed { duplicated_syms: Seq<Seq<u8>>, missing_syms: Seq<Seq<u8>> },
    ParseError { errors: Seq<ParseErrorView> },
    UnsupportedRelocationType { r_type: Elf64_Word },
    UnsupportedSection { name: Seq<u8> },
    EntryPointNotFound,
    AddressOverflow,
    RelocationOutOfRange { obj_index: usize, r_offset: u64 },
}

impl View for LinkerError {
    type V = LinkerErrorView;

    open spec fn view(&self) -> LinkerErrorView {
        match self {
            LinkerError::SymbolResolveFailed { duplicated_syms, missing_syms } =>
                LinkerErrorView::SymbolResolveFailed {
                duplicated_syms: duplicated_syms@.map_values(|v: Vec<u8>| v@),
                missing_syms: missing_syms@.map_values(|v: Vec<u8>| v@),
            },
            LinkerError::ParseError { errors } => LinkerErrorView::ParseError {
                errors: errors@.map_values(|e: ElfParseError| e@),
            },
            LinkerError::UnsupportedRelocationType { r_type } =>
                LinkerErrorView::UnsupportedRelocationType { r_type: *r_type },
            LinkerError::UnsupportedSection { name } => LinkerErrorView::UnsupportedSection {
                name: name@,
            },
            LinkerError::EntryPointNotFound => LinkerErrorView::EntryPointNotFound,
            LinkerError::AddressOverflow => LinkerErrorView::AddressOverflow,
            LinkerError::RelocationOutOfRange { obj_index, r_offset } =>
                LinkerErrorView::RelocationOutOfRange { obj_index: *obj_index, r_offset: *r_offset },
        }
    }
}

/// A relocatable object: its sections, its symbols, and the relocations of
/// its `.text` when it has a `.rela.text`.
pub struct ElfObject<'a> {
    pub elf: Elf64Parser<'a>,
    pub symtab: ElfSectionSymtab,
    pub rela_text: Option<Vec<ElfRela>>,
}

/// A shared object: its sections, its dynamic symbols, its dynamic section
/// and the name it gives itself (`DT_SONAME`), if any.
pub struct ElfSharedObject<'a> {
    pub elf: Elf64Parser<'a>,
    pub symtab: ElfSectionSymtab,
    pub dynamic: ElfSectionDynamic,
    pub soname: Option<Vec<u8>>,
}

/// The symbols of the `i`-th object.
pub open spec fn obj_syms(objs: Seq<ElfObject>, i: int) -> Seq<ElfSym> {
    objs[i].symtab.syms@
}

/// The symbols of the `i`-th shared object.
pub open spec fn shared_syms(shared: Seq<ElfSharedObject>, i: int) -> Seq<ElfSym> {
    shared[i].symtab.syms@
}

/// Some section of `p` is named `name`.
pub open spec fn has_section_named(p: Elf64Parser, name: Seq<u8>) -> bool {
    exists|j: int| 0 <= j < p.shdrs@.len() && (#[trigger] p.shdrs@[j]).name@ == name
}

/// `r` is what reading the relocatable object that `p` parsed gives: its
/// first symbol table and the relocations of its `.text`; or the first error
/// of reading them, a missing `.rela.text` among them.
pub open spec fn obj_read(p: Elf64Parser, r: Result<ElfObject, ElfParseError>) -> bool {
    exists|sr: Result<(ElfSectionSymtab, ElfSectionStrtab), ElfParseError>|
        #[trigger] symtab_read(p, sr) && match sr {
            Err(e) => r == Err::<ElfObject, ElfParseError>(e),
            Ok((symtab, strtab)) => exists|rr: Result<Vec<ElfRela>, ElfParseError>|
                #[trigger] rela_read(p, symtab, strtab, rr) && match rr {
                    Err(e) => r == Err::<ElfObject, ElfParseError>(e),
                    Ok(v) => r == Ok::<ElfObject, ElfParseError>(
                        ElfObject { elf: p, symtab, rela_text: Some(v) },
                    ),
                },
        }
}

/// `r` is what reading the relocatable object `bin`, read from `path`,
/// gives.
pub open spec fn obj_outcome(bin: Seq<u8>, path: String, r: Result<ElfObject, ElfParseError>) -> bool {
    match parse_error(bin) {
        Some(e) => r == Err::<ElfObject, ElfParseError>(e),
        None => exists|p: Elf64Parser| #[trigger] parsed_from(p, bin) && p.path == path && obj_read(p, r),
    }
}

/// `k` is the first `DT_SONAME` entry.
pub open spec fn is_first_soname(dyns: Seq<Elf64_Dyn>, k: int) -> bool {
    &&& 0 <= k < dyns.len()
    &&& dyns[k].d_tag == DT_SONAME
    &&& forall|k2: int| 0 <= k2 < k ==> (#[trigger] dyns[k2]).d_tag != DT_SONAME
}

/// The name that a shared object gives itself: the string of `tab` at which
/// its first `DT_SONAME` entry points, if it has one; an error when the
/// entry points past the end of the table.
pub open spec fn soname_of(dyns: Seq<Elf64_Dyn>, tab: Seq<u8>) -> Result<Option<Seq<u8>>, ParseErrorView> {
    if exists|k: int| is_first_soname(dyns, k) {
        let k = choose|k: int| is_first_soname(dyns, k);
        if dyns[k].d_un > tab.len() {
            Err(ParseErrorView::TooShort)
        } else {
            Ok(Some(cstr_at(tab, dyns[k].d_un as int)))
        }
    } else {
        Ok(None)
    }
}

/// A name held as bytes, by its view.
pub open spec fn opt_view(o: Option<Vec<u8>>) -> Option<Seq<u8>> {
    match o {
        Some(v) => Some(v@),
        None => None,
    }
}

/// `r` is what reading the shared object that `p` parsed gives: its first
/// symbol table, its dynamic section and the name it gives itself; or the
/// first error of reading them.
pub open spec fn shared_read(p: Elf64Parser, r: Result<ElfSharedObject, ElfParseError>) -> bool {
    exists|sr: Result<(ElfSectionSymtab, ElfSectionStrtab), ElfParseError>|
        #[trigger] symtab_read(p, sr) && match sr {
            Err(e) => r == Err::<ElfSharedObject, ElfParseError>(e),
            Ok((symtab, _)) => exists|dr: Result<(ElfSectionDynamic, ElfSectionStrtab), ElfParseError>|
                #[trigger] dynamic_read(p, dr) && match dr {
                    Err(e) => r == Err::<ElfSharedObject, ElfParseError>(e),
                    Ok((dynamic, t)) => match soname_of(dynamic.dyns@, t.bin@) {
                        Err(ev) => r is Err && r->Err_0@ == ev,
                        Ok(n) => r is Ok && r->Ok_0.elf == p && r->Ok_0.symtab == symtab && r->Ok_0.dynamic
                            == dynamic && opt_view(r->Ok_0.soname) == n,
                    },
                },
        }
}

/// `r` is what reading the shared object `bin`, read from `path`, gives.
pub open spec fn shared_outcome(bin: Seq<u8>, path: String, r: Result<ElfSharedObject, ElfParseError>) -> bool {
    match parse_error(bin) {
        Some(e) => r == Err::<ElfSharedObject, ElfParseError>(e),
        None => exists|p: Elf64Parser| #[trigger] parsed_from(p, bin) && p.path == path && shared_read(p, r),
    }
}

/// Reads a relocatable object: its sections, its first symbol table, and the
/// relocations of its `.text`.
pub fn read_object<'a>(bin: &'a [u8], path: String) -> (r: Result<ElfObject<'a>, ElfParseError>)
    ensures
        obj_outcome(bin@, path, r),
{
    let elf = match Elf64Parser::new(bin, path) {
        Ok(p) => p,
        Err(e) => {
            return Err(e);
        },
    };
    let sr = elf.section_symtab();
    let (symtab, strtab) = match sr {
        Ok(x) => x,
        Err(e) => {
            assert(symtab_read(elf, sr));
            return Err(e);
        },
    };
    assert(symtab_read(elf, sr));
    let rr = elf.section_rela_text(&symtab, &strtab);
    assert(rela_read(elf, symtab, strtab, rr));
    let rela_text = match rr {
        Ok(v) => Some(v),
        Err(e) => {
            return Err(e);
        },
    };
    Ok(ElfObject { elf, symtab, rela_text })
}

/// The index of the first `DT_SONAME` entry, if there is one.
fn first_soname(dyns: &Vec<Elf64_Dyn>) -> (r: Option<usize>)
    ensures
        match r {
            Some(k) => is_first_soname(dyns@, k as int),
            None => forall|k: int| !is_first_soname(dyns@, k),
        },
{
    let mut k: usize = 0;
    while k < dyns.len()
        invariant
            0 <= k <= dyns@.len(),
            forall|k2: int| 0 <= k2 < k ==> (#[trigger] dyns@[k2]).d_tag != DT_SONAME,
        decreases dyns@.len() - k,
    {
        if dyns[k].d_tag == DT_SONAME {
            return Some(k);
        }
        k = k + 1;
    }
    proof {
        assert forall|k2: int| !is_first_soname(dyns@, k2) by {
            if is_first_soname(dyns@, k2) {
                assert(dyns@[k2].d_tag == DT_SONAME);
            }
        }
    }
    None
}

/// Reads a shared object: its sections, its first symbol table, its dynamic
/// section, and the name it gives itself (`DT_SONAME`), if any.
pub fn read_shared_object<'a>(bin: &'a [u8], path: String) -> (r: Result<ElfSharedObject<'a>, ElfParseError>)
    ensures
        shared_outcome(bin@, path, r),
{
    let elf = match Elf64Parser::new(bin, path) {
        Ok(p) => p,
        Err(e) => {
            return Err(e);
        },
    };
    let sr = elf.section_symtab();
    let (symtab, _) = match sr {
        Ok(x) => x,
        Err(e) => {
            assert(symtab_read(elf, sr));
            return Err(e);
        },
    };
    assert(symtab_read(elf, sr));
    let dr = elf.section_dynamic();
    let (dynamic, dyn_strtab) = match dr {
        Ok(x) => x,
        Err(e) => {
            assert(dynamic_read(elf, dr));
            return Err(e);
        },
    };
    assert(dynamic_read(elf, dr));
    let soname = match first_soname(&dynamic.dyns) {
        Some(k) => {
            proof {
                let k2 = choose|k2: int| is_first_soname(dynamic.dyns@, k2);
                assert(!(k2 < k) && !(k < k2));
            }
            let d = dynamic.dyns[k];
            if d.d_un > dyn_strtab.bin.len() as u64 {
                return Err(ElfParseError::TooShort);
            }
            Some(dyn_strtab.get(d.d_un as usize))
        },
        None => None,
    };
    Ok(ElfSharedObject { elf, symtab, dynamic, soname })
}

/// The errors of the results that are errors, in order.
pub open spec fn errors_of<T>(rs: Seq<Result<T, ElfParseError>>) -> Seq<ParseErrorView>
    decreases rs.len(),
{
    if rs.len() == 0 {
        Seq::empty()
    } else {
        let p = errors_of(rs.drop_last());
        match rs.last() {
            Err(e) => p.push(e@),
            Ok(_) => p,
        }
    }
}

/// A relocatable object that was read has no symbol resolved yet, and each
/// of its relocations refers to a symbol of its table.
proof fn lemma_object_ready(bin: Seq<u8>, path: String, o: ElfObject)
    requires
        obj_outcome(bin, path, Ok(o)),
    ensures
        forall|k: int| 0 <= k < o.symtab.syms@.len() ==> (#[trigger] o.symtab.syms@[k]).resolved_sym is None,
        o.rela_text is Some ==> forall|r: int|
            0 <= r < o.rela_text->Some_0@.len() ==> spec_r_sym((#[trigger] o.rela_text->Some_0@[r]).rela.r_info)
                < o.symtab.syms@.len(),
{
    let p = choose|p: Elf64Parser| #[trigger] parsed_from(p, bin) && p.path == path && obj_read(p, Ok(o));
    let sr = choose|sr: Result<(ElfSectionSymtab, ElfSectionStrtab), ElfParseError>|
        #[trigger] symtab_read(p, sr) && match sr {
            Err(e) => Ok::<ElfObject, ElfParseError>(o) == Err::<ElfObject, ElfParseError>(e),
            Ok((symtab, strtab)) => exists|rr: Result<Vec<ElfRela>, ElfParseError>|
                #[trigger] rela_read(p, symtab, strtab, rr) && match rr {
                    Err(e) => Ok::<ElfObject, ElfParseError>(o) == Err::<ElfObject, ElfParseError>(e),
                    Ok(v) => Ok::<ElfObject, ElfParseError>(o) == Ok::<ElfObject, ElfParseError>(
                        ElfObject { elf: p, symtab, rela_text: Some(v) },
                    ),
                },
        };
    let (symtab, strtab) = sr->Ok_0;
    assert(o.symtab == symtab);
    if !exists|j: int| 0 <= j < p.shdrs@.len() && has_type(#[trigger] p.shdrs@[j], SHT_SYMTAB, SHT_DYNSYM) {
        assert(sr is Err);
    }
    let j0 = choose|j: int| 0 <= j < p.shdrs@.len() && has_type(#[trigger] p.shdrs@[j], SHT_SYMTAB, SHT_DYNSYM);
    lemma_first_typed_exists(p.shdrs@, SHT_SYMTAB, SHT_DYNSYM, j0);
    let j = choose|j: int| is_first_typed(p.shdrs@, SHT_SYMTAB, SHT_DYNSYM, j);
    assert(crate::parser::section::symtab::symtab_outcome(p.bin@, p.shdrs@, j, sr));
    {
        let rr = choose|rr: Result<Vec<ElfRela>, ElfParseError>|
            #[trigger] rela_read(p, symtab, strtab, rr) && match rr {
                Err(e) => Ok::<ElfObject, ElfParseError>(o) == Err::<ElfObject, ElfParseError>(e),
                Ok(v) => Ok::<ElfObject, ElfParseError>(o) == Ok::<ElfObject, ElfParseError>(
                    ElfObject { elf: p, symtab, rela_text: Some(v) },
                ),
            };
        let v = rr->Ok_0;
        assert(o.rela_text == Some(v));
        assert(has_section_named(p, spec_rela_text_name()));
        let i = choose|i: int| 0 <= i < p.shdrs@.len() && (#[trigger] p.shdrs@[i]).name@ == spec_rela_text_name();
        lemma_first_named_exists(p.shdrs@, spec_rela_text_name(), i);
        let jr = choose|jr: int| is_first_named(p.shdrs@, spec_rela_text_name(), jr);
        assert(in_file(p.bin@, p.shdrs@[jr].hdr));
        let body = crate::parser::section_contents(p.bin@, p.shdrs@[jr].hdr);
        assert forall|r: int| 0 <= r < v@.len() implies spec_r_sym((#[trigger] v@[r]).rela.r_info) < symtab.syms@.len() by {
            assert(crate::parser::section::rela_text::rela_error_at(p.shdrs@, symtab.syms@, strtab.bin@, body, r) is None);
        }
    }
}

/// Reads each relocatable object, in order.
fn read_objects<'a>(objs: Vec<(&'a [u8], String)>) -> (r: Vec<Result<ElfObject<'a>, ElfParseError>>)
    ensures
        r@.len() == objs@.len(),
        forall|i: int| 0 <= i < objs@.len() ==> obj_outcome(objs@[i].0@, objs@[i].1, #[trigger] r@[i]),
{
    let ghost input = objs@;
    let mut objs = objs;
    let mut r: Vec<Result<ElfObject<'a>, ElfParseError>> = Vec::new();
    while objs.len() > 0
        invariant
            r@.len() + objs@.len() == input.len(),
            objs@ == input.subrange(r@.len() as int, input.len() as int),
            forall|k: int| 0 <= k < r@.len() ==> obj_outcome(input[k].0@, input[k].1, #[trigger] r@[k]),
        decreases objs@.len(),
    {
        let ghost i = r@.len();
        let (bin, path) = objs.remove(0);
        assert(input[i as int] == (bin, path));
        let res = read_object(bin, path);
        r.push(res);
        assert(objs@ =~= input.subrange(r@.len() as int, input.len() as int));
    }
    r
}

/// Reads each shared object, in order.
fn read_shared_objects<'a>(objs: Vec<(&'a [u8], String)>) -> (r: Vec<Result<ElfSharedObject<'a>, ElfParseError>>)
    ensures
        r@.len() == objs@.len(),
        forall|i: int| 0 <= i < objs@.len() ==> shared_outcome(objs@[i].0@, objs@[i].1, #[trigger] r@[i]),
{
    let ghost input = objs@;
    let mut objs = objs;
    let mut r: Vec<Result<ElfSharedObject<'a>, ElfParseError>> = Vec::new();
    while objs.len() > 0
        invariant
            r@.len() + objs@.len() == input.len(),
            objs@ == input.subrange(r@.len() as int, input.len() as int),
            forall|k: int| 0 <= k < r@.len() ==> shared_outcome(input[k].0@, input[k].1, #[trigger] r@[k]),
        decreases objs@.len(),
    {
        let ghost i = r@.len();
        let (bin, path) = objs.remove(0);
        assert(input[i as int] == (bin, path));
        let res = read_shared_object(bin, path);
        r.push(res);
        assert(objs@ =~= input.subrange(r@.len() as int, input.len() as int));
    }
    r
}

/// The values and the errors of a list of results, each in order.
fn split_results<T>(rs: Vec<Result<T, ElfParseError>>) -> (r: (Vec<T>, Vec<ElfParseError>))
    ensures
        r.1@.map_values(|e: ElfParseError| e@) == errors_of(rs@),
        r.1@.len() == 0 ==> r.0@.len() == rs@.len() && forall|k: int|
            0 <= k < rs@.len() ==> #[trigger] rs@[k] == Ok::<T, ElfParseError>(r.0@[k]),
{
    let ghost input = rs@;
    let n = rs.len();
    assert(input.len() == n);
    let mut rs = rs;
    let mut oks: Vec<T> = Vec::new();
    let mut errs: Vec<ElfParseError> = Vec::new();
    let mut i: usize = 0;
    while rs.len() > 0
        invariant
            input.len() <= usize::MAX,
            i + rs@.len() == input.len(),
            rs@ == input.subrange(i as int, input.len() as int),
            errs@.map_values(|e: ElfParseError| e@) == errors_of(input.subrange(0, i as int)),
            errs@.len() == 0 ==> oks@.len() == i && forall|k: int|
                0 <= k < i ==> #[trigger] input[k] == Ok::<T, ElfParseError>(oks@[k]),
        decreases rs@.len(),
    {
        let res = rs.remove(0);
        assert(input[i as int] == res);
        assert(input.subrange(0, i + 1).drop_last() =~= input.subrange(0, i as int));
        match res {
            Ok(v) => {
                oks.push(v);
            },
            Err(e) => {
                errs.push(e);
            },
        }
        assert(errs@.map_values(|e: ElfParseError| e@) =~= errors_of(input.subrange(0, i + 1)));
        i = i + 1;
        assert(rs@ =~= input.subrange(i as int, input.len() as int));
    }
    assert(input.subrange(0, i as int) =~= input);
    (oks, errs)
}

impl<'a> Linker<'a> {
    /// Reads the relocatable objects and the shared objects to link, in
    /// order.  Fails when some of them cannot be read, with the error of
    /// each that cannot, objects first.  `dyn_linker` is the path of the
    /// dynamic linker that the executable will ask for; `None` leaves the
    /// default.
    pub fn new(
        objs: Vec<(&'a [u8], String)>,
        shared_objs: Vec<(&'a [u8], String)>,
        dyn_linker: Option<Vec<u8>>,
    ) -> (r: Result<Self, LinkerError>)
        ensures
            match r {
                Ok(l) => {
                    &&& l.objs@.len() == objs@.len()
                    &&& forall|i: int|
                        0 <= i < objs@.len() ==> obj_outcome(
                            objs@[i].0@,
                            objs@[i].1,
                            Ok(#[trigger] l.objs@[i]),
                        )
                    &&& l.shared_objs@.len() == shared_objs@.len()
                    &&& forall|i: int|
                        0 <= i < shared_objs@.len() ==> shared_outcome(
                            shared_objs@[i].0@,
                            shared_objs@[i].1,
                            Ok(#[trigger] l.shared_objs@[i]),
                        )
                    &&& l.resolved_syms@.len() == 0
                    &&& l.dyn_linker == dyn_linker
                    &&& all_unresolved(l.objs@)
                    &&& relas_in_range(l.objs@)
                },
                Err(e) => exists|ro: Seq<Result<ElfObject<'a>, ElfParseError>>, rs: Seq<Result<ElfSharedObject<'a>, ElfParseError>>|
                    {
                        &&& ro.len() == objs@.len()
                        &&& forall|i: int| 0 <= i < objs@.len() ==> obj_outcome(objs@[i].0@, objs@[i].1, #[trigger] ro[i])
                        &&& rs.len() == shared_objs@.len()
                        &&& forall|i: int|
                            0 <= i < shared_objs@.len() ==> shared_outcome(shared_objs@[i].0@, shared_objs@[i].1, #[trigger] rs[i])
                        &&& errors_of(ro) + errors_of(rs) != Seq::<ParseErrorView>::empty()
                        &&& e@ == LinkerErrorView::ParseError { errors: errors_of(ro) + errors_of(rs) }
                    },
            },
    {
        let ghost in_objs = objs@;
        let ghost in_shared = shared_objs@;
        let results = read_objects(objs);
        let shared_results = read_shared_objects(shared_objs);
        let ghost ro = results@;
        let ghost rs = shared_results@;
        let (read_objs, mut errors) = split_results(results);
        let (read_shared, mut shared_errors) = split_results(shared_results);
        errors.append(&mut shared_errors);
        proof {
            assert(errors@.map_values(|e: ElfParseError| e@) =~= errors_of(ro) + errors_of(rs));
        }
        if errors.len() == 0 {
            proof {
                assert(errors_of(ro) + errors_of(rs) =~= Seq::<ParseErrorView>::empty());
                assert(errors_of(ro).len() == 0);
                assert(errors_of(rs).len() == 0);
                assert forall|k: int| 0 <= k < read_objs@.len() implies obj_outcome(
                    in_objs[k].0@,
                    in_objs[k].1,
                    Ok(#[trigger] read_objs@[k]),
                ) by {
                    assert(ro[k] == Ok::<ElfObject<'a>, ElfParseError>(read_objs@[k]));
                }
                assert forall|k: int| 0 <= k < read_shared@.len() implies shared_outcome(
                    in_shared[k].0@,
                    in_shared[k].1,
                    Ok(#[trigger] read_shared@[k]),
                ) by {
                    assert(rs[k] == Ok::<ElfSharedObject<'a>, ElfParseError>(read_shared@[k]));
                }
                assert forall|o: int, k: int|
                    0 <= o < read_objs@.len() && 0 <= k < obj_syms(read_objs@, o).len() implies (#[trigger] obj_syms(
                        read_objs@,
                        o,
                    )[k]).resolved_sym is None by {
                    lemma_object_ready(in_objs[o].0@, in_objs[o].1, read_objs@[o]);
                }
                assert forall|o: int, r: int|
                    0 <= o < read_objs@.len() && read_objs@[o].rela_text is Some && 0 <= r
                        < read_objs@[o].rela_text->Some_0@.len() implies spec_r_sym(
                    (#[trigger] read_objs@[o].rela_text->Some_0@[r]).rela.r_info,
                ) < obj_syms(read_objs@, o).len() by {
                    lemma_object_ready(in_objs[o].0@, in_objs[o].1, read_objs@[o]);
                }
            }
            Ok(Linker { objs: read_objs, shared_objs: read_shared, resolved_syms: Vec::new(), dyn_linker })
        } else {
            proof {
                assert(errors@.map_values(|e: ElfParseError| e@).len() > 0);
            }
            Err(LinkerError::ParseError { errors })
        }
    }
}

/// The names of the dynamic symbols, in order.
pub open spec fn dyn_names(d: Seq<DynSymEntry>) -> Seq<Seq<u8>> {
    d.map_values(|e: DynSymEntry| e.name@)
}

/// `resolved` is `objs` with each symbol resolved as symbol resolution
/// resolves it.
pub open spec fn resolved_from(objs: Seq<ElfObject>, shared: Seq<ElfSharedObject>, resolved: Seq<ElfObject>) -> bool {
    &&& same_but_resolutions(objs, resolved)
    &&& forall|i: int, k: int|
        0 <= i < objs.len() && 0 <= k < obj_syms(objs, i).len() ==> (#[trigger] obj_syms(resolved, i)[k]).resolved_sym
            == if k == 0 {
            obj_syms(objs, i)[k].resolved_sym
        } else {
            final_resolution(objs, shared, i, k)
        }
}

/// `img` is the executable linked from `objs` and `shared`, through these
/// steps: the objects with their symbols resolved (`resolved`), the symbols
/// taken from shared objects (`d`), the string table of the libraries needed
/// and of those symbols (`dynstr`), the merged sections placed (`merged`),
/// the same with `.plt` filled (`filled`, whose `.plt` is `plt`), and with
/// `.text` relocated (`out`); then the file, which fits the address space,
/// is written with the entry point of `out`.
pub open spec fn linked_with(
    objs: Seq<ElfObject>,
    shared: Seq<ElfSharedObject>,
    dyn_linker: Option<Vec<u8>>,
    img: Seq<u8>,
    resolved: Seq<ElfObject>,
    d: Seq<DynSymEntry>,
    dynstr: Strtab,
    merged: OutputSectionList,
    filled: OutputSectionList,
    plt: Seq<u8>,
    out: OutputSectionList,
) -> bool {
    let n = d.len() as int;
    let interp = spec_interp(dyn_linker);
    let hash = records_bytes(single_bucket_words(n + 1));
    &&& resolves(objs, shared)
    &&& resolved_from(objs, shared, resolved)
    &&& dyn_syms_of(objs, shared, d)
    &&& dynstr.spec_table() == strtab_build(needed_names(shared) + dyn_names(d))
    &&& entries_distinct(dynstr.offsets@)
    &&& merged_from(resolved, merged)
    &&& plt_got_reserved(merged, n)
    &&& placed(merged)
    &&& plt_replaced(merged, filled, plt)
    &&& plt_filled(plt, merged.plt.base as int, merged.got.base as int, n)
    &&& relocated(resolved, filled, resolved.len() as int, 0) is Ok
    &&& text_replaced(filled, out, relocated(resolved, filled, resolved.len() as int, 0)->Ok_0)
    &&& entry_point(resolved, out) is Ok
    &&& output_fits_for(shared, dyn_linker, d, out)
    &&& is_output(
        img,
        shared,
        out,
        entry_point(resolved, out)->Ok_0,
        interp,
        spec_dynsym(d, dynstr.spec_table().1),
        dynstr,
        hash,
        n,
    )
}

/// The steps of linking up to relocation: the objects with their symbols
/// resolved, the symbols taken from shared objects, the merged sections
/// placed, and `.plt` filled.
pub open spec fn placed_steps(
    objs: Seq<ElfObject>,
    shared: Seq<ElfSharedObject>,
    dyn_linker: Option<Vec<u8>>,
    resolved: Seq<ElfObject>,
    d: Seq<DynSymEntry>,
    merged: OutputSectionList,
    filled: OutputSectionList,
) -> bool {
    &&& resolved_from(objs, shared, resolved)
    &&& dyn_syms_of(objs, shared, d)
    &&& merged_from(resolved, merged)
    &&& plt_got_reserved(merged, d.len() as int)
    &&& placed(merged)
    &&& exists|plt: Seq<u8>|
        plt_replaced(merged, filled, plt) && plt_filled(
            plt,
            merged.plt.base as int,
            merged.got.base as int,
            d.len() as int,
        )
}

/// Linking `objs` against `shared` is owed success: every undefined symbol
/// resolves, every section that is merged lies in its file, the tables and
/// the placed sections fit the address space, and whatever the placement,
/// the relocations apply, there is an entry point and the file fits the
/// address space.
pub open spec fn link_owed(objs: Seq<ElfObject>, shared: Seq<ElfSharedObject>, dyn_linker: Option<Vec<u8>>) -> bool {
    &&& resolves(objs, shared)
    &&& merge_state(objs, objs.len() as int) is Merged
    &&& forall|d: Seq<DynSymEntry>|
        #[trigger] dyn_syms_of(objs, shared, d) ==> tables_fit(shared, dyn_linker, d) && 8 * d.len() <= usize::MAX
    &&& forall|d: Seq<DynSymEntry>, s: OutputSectionList|
        #![trigger dyn_syms_of(objs, shared, d), merged_from(objs, s)]
        dyn_syms_of(objs, shared, d) && merged_from(objs, s) && plt_got_reserved(s, d.len() as int) ==> placement_of(
            s,
        ).6 <= usize::MAX
    &&& forall|resolved: Seq<ElfObject>, d: Seq<DynSymEntry>, merged: OutputSectionList, filled: OutputSectionList|
        #[trigger] placed_steps(objs, shared, dyn_linker, resolved, d, merged, filled) ==> relocated(
            resolved,
            filled,
            resolved.len() as int,
            0,
        ) is Ok && entry_point(resolved, filled) is Ok && output_fits_for(shared, dyn_linker, d, filled)
}

/// The executable for the symbols `d` taken from shared objects and the
/// placed sections `s` fits the address space (see `output_fits`): its
/// dynamic linking tables are those that `d` gives.
pub open spec fn output_fits_for(
    shared: Seq<ElfSharedObject>,
    dyn_linker: Option<Vec<u8>>,
    d: Seq<DynSymEntry>,
    s: OutputSectionList,
) -> bool {
    let n = d.len() as int;
    output_fits(
        s,
        spec_interp(dyn_linker).len() as int,
        24 * (n + 1),
        strtab_build(needed_names(shared) + dyn_names(d)).0.len() as int,
        records_bytes(single_bucket_words(n + 1)).len() as int,
        24 * n,
        (16 * (shared.len() + 10)) as int,
        strtab_build(shstrtab_names()).0.len() as int,
        n,
    )
}

/// `e` is an error that linking `objs` against `shared` ends in once every
/// undefined symbol resolves, for the symbols `d` taken from shared objects:
/// the dynamic linking tables do not fit, a merged section cannot be read or
/// does not fit, the placed sections do not fit, or, for a placement, a
/// relocation does not apply, there is no entry point, or the file does not
/// fit the address space.
pub open spec fn step_error(
    objs: Seq<ElfObject>,
    shared: Seq<ElfSharedObject>,
    dyn_linker: Option<Vec<u8>>,
    d: Seq<DynSymEntry>,
    e: LinkerErrorView,
) -> bool {
    let ms = merge_state(objs, objs.len() as int);
    let fit = tables_fit(shared, dyn_linker, d);
    ||| !fit && e == LinkerErrorView::AddressOverflow
    ||| fit && ms is Unreadable && e == (LinkerErrorView::ParseError { errors: seq![ParseErrorView::TooShort] })
    ||| fit && ms is TooLarge && e == LinkerErrorView::AddressOverflow
    ||| fit && ms is Merged && e == LinkerErrorView::AddressOverflow && (d.len() > usize::MAX / 8 || exists|
        s: OutputSectionList,
    |
        #[trigger] merged_from(objs, s) && plt_got_reserved(s, d.len() as int) && placement_of(s).6
            > usize::MAX)
    ||| exists|resolved: Seq<ElfObject>, merged: OutputSectionList, filled: OutputSectionList|
        #[trigger] placed_steps(objs, shared, dyn_linker, resolved, d, merged, filled) && match relocated(
            resolved,
            filled,
            resolved.len() as int,
            0,
        ) {
            Err(x) => x == e,
            Ok(_) => match entry_point(resolved, filled) {
                Err(x) => x == e,
                Ok(_) => !output_fits_for(shared, dyn_linker, d, filled) && e == LinkerErrorView::AddressOverflow,
            },
        }
}

/// `e` is an error that linking `objs` against `shared` ends in after the
/// symbols resolve (see `step_error`).
#[verifier::opaque]
pub open spec fn link_error(
    objs: Seq<ElfObject>,
    shared: Seq<ElfSharedObject>,
    dyn_linker: Option<Vec<u8>>,
    e: LinkerErrorView,
) -> bool {
    &&& resolves(objs, shared)
    &&& exists|d: Seq<DynSymEntry>| #[trigger] dyn_syms_of(objs, shared, d) && step_error(objs, shared, dyn_linker, d, e)
}

/// `img` is an executable linked from `objs` and `shared` (see `linked_with`).
pub open spec fn linked(objs: Seq<ElfObject>, shared: Seq<ElfSharedObject>, dyn_linker: Option<Vec<u8>>, img: Seq<u8>) -> bool {
    exists|
        resolved: Seq<ElfObject>,
        d: Seq<DynSymEntry>,
        dynstr: Strtab,
        merged: OutputSectionList,
        filled: OutputSectionList,
        plt: Seq<u8>,
        out: OutputSectionList,
    | #[trigger] linked_with(objs, shared, dyn_linker, img, resolved, d, dynstr, merged, filled, plt, out)
}

/// Resolving symbols keeps each relocation's symbol within its table.
proof fn lemma_relas_in_range_kept(objs: Seq<ElfObject>, resolved: Seq<ElfObject>)
    requires
        relas_in_range(objs),
        same_but_resolutions(objs, resolved),
    ensures
        relas_in_range(resolved),
{
    assert forall|o: int, r: int|
        0 <= o < resolved.len() && resolved[o].rela_text is Some && 0 <= r < resolved[o].rela_text->Some_0@.len()
            implies spec_r_sym((#[trigger] resolved[o].rela_text->Some_0@[r]).rela.r_info) < obj_syms(resolved, o).len() by {
        assert(resolved[o].rela_text == objs[o].rela_text);
        assert(spec_r_sym(objs[o].rela_text->Some_0@[r].rela.r_info) < obj_syms(objs, o).len());
    }
}

/// The bytes that the dynamic linking tables for the symbols `d` take after
/// `.rodata`.
pub open spec fn link_extra(shared: Seq<ElfSharedObject>, dyn_linker: Option<Vec<u8>>, d: Seq<DynSymEntry>) -> int {
    let n = d.len() as int;
    ro_extra_of(
        spec_interp(dyn_linker).len() as int,
        n + 1,
        strtab_build(needed_names(shared) + dyn_names(d)).0.len() as int,
        4 * (n + 4),
        n,
        shared.len() as int,
    )
}

/// The dynamic linking tables for the symbols `d` fit: an index into
/// `.dynsym` and an offset into `.dynstr` are 32-bit words, and the tables
/// fit the address space.
pub open spec fn tables_fit(shared: Seq<ElfSharedObject>, dyn_linker: Option<Vec<u8>>, d: Seq<DynSymEntry>) -> bool {
    &&& d.len() < u32::MAX
    &&& 1 + total_len(needed_names(shared) + dyn_names(d)) <= u32::MAX
    &&& link_extra(shared, dyn_linker, d) <= usize::MAX
}

/// The dynamic linking tables for the symbols `d` taken from shared objects:
/// `.interp`, `.dynstr`, `.dynsym` and `.hash`, and the bytes that they and
/// `.rela.plt` and `.dynamic` take after `.rodata`.
pub open spec fn tables_for(
    shared: Seq<ElfSharedObject>,
    dyn_linker: Option<Vec<u8>>,
    d: Seq<DynSymEntry>,
    t: (Vec<u8>, Strtab, Vec<Elf64_Sym>, DynsymHashTable, usize),
) -> bool {
    let n = d.len() as int;
    &&& n < u32::MAX
    &&& t.0@ == spec_interp(dyn_linker)
    &&& t.1.spec_table() == strtab_build(needed_names(shared) + dyn_names(d))
    &&& entries_distinct(t.1.offsets@)
    &&& forall|j: int| 0 <= j < needed_names(shared).len() ==> t.1.spec_table().1.contains_key(#[trigger] needed_names(shared)[j])
    &&& t.2@ == spec_dynsym(d, t.1.spec_table().1)
    &&& t.3.words() == single_bucket_words(n + 1)
    &&& t.3.spec_bytes() == records_bytes(single_bucket_words(n + 1))
    &&& t.3.spec_bytes().len() == 4 * (n + 4)
    &&& t.4 == ro_extra_of(t.0@.len() as int, n + 1, t.1.bytes@.len() as int, t.3.spec_bytes().len() as int, n, shared.len() as int)
}

impl<'a> Linker<'a> {
    /// Builds the dynamic linking tables for the symbols taken from shared
    /// objects; fails when they would not fit the address space, or their
    /// names a string table with 32-bit offsets.
    fn dynamic_tables(&self, dyn_syms: &Vec<DynSymEntry>) -> (r: Result<(Vec<u8>, Strtab, Vec<Elf64_Sym>, DynsymHashTable, usize), LinkerError>)
        ensures
            match r {
                Ok(t) => tables_for(self.shared_objs@, self.dyn_linker, dyn_syms@, t) && t.4 == link_extra(
                    self.shared_objs@,
                    self.dyn_linker,
                    dyn_syms@,
                ) && tables_fit(self.shared_objs@, self.dyn_linker, dyn_syms@),
                Err(e) => e@ == LinkerErrorView::AddressOverflow && !tables_fit(
                    self.shared_objs@,
                    self.dyn_linker,
                    dyn_syms@,
                ),
            },
    {
        let ghost shared = self.shared_objs@;
        let interp = build_interp(&self.dyn_linker);
        let needed = self.needed_list();
        let n = dyn_syms.len();
        // a dynamic symbol's index in .dynsym is a 32-bit word
        if n >= 0xffff_ffff {
            return Err(LinkerError::AddressOverflow);
        }
        let nneeded = needed.len();
        let mut names = needed;
        let mut i: usize = 0;
        while i < n
            invariant
                0 <= i <= n,
                n == dyn_syms@.len(),
                views(names@) == needed_names(self.shared_objs@) + dyn_names(dyn_syms@.take(i as int)),
            decreases n - i,
        {
            let ghost before = names@;
            let name = copy_bytes(dyn_syms[i].name.as_slice());
            names.push(name);
            assert(names@ == before.push(name));
            assert(views(names@) =~= views(before).push(name@));
            assert(dyn_names(dyn_syms@.take(i + 1)) =~= dyn_names(dyn_syms@.take(i as int)).push(dyn_syms@[i as int].name@));
            assert(views(names@) =~= needed_names(self.shared_objs@) + dyn_names(dyn_syms@.take(i + 1)));
            i = i + 1;
        }
        assert(dyn_syms@.take(n as int) =~= dyn_syms@);
        match strtab_size_bound(&names) {
            Some(b) => {
                if b > 0xffff_ffff {
                    return Err(LinkerError::AddressOverflow);
                }
            },
            None => {
                return Err(LinkerError::AddressOverflow);
            },
        }
        proof {
            crate::linker::output::lemma_strtab_len(views(names@));
        }
        let dynstr = Strtab::new(names);
        let ghost all_names = needed_names(self.shared_objs@) + dyn_names(dyn_syms@);
        proof {
            lemma_strtab_has_names(all_names);
            assert forall|j: int| 0 <= j < dyn_syms@.len() implies dynstr.spec_table().1.contains_key(
                #[trigger] dyn_syms@[j].name@,
            ) by {
                assert(all_names[nneeded + j] == dyn_syms@[j].name@);
            }
            assert forall|j: int| 0 <= j < needed_names(self.shared_objs@).len() implies dynstr.spec_table().1.contains_key(
                #[trigger] needed_names(self.shared_objs@)[j],
            ) by {
                assert(all_names[j] == needed_names(self.shared_objs@)[j]);
            }
        }
        let dynsym = generate_dynsym(&dyn_syms, &dynstr);
        let hash = DynsymHashTable::new(n + 1);
        proof {
            crate::linker::dynamic::lemma_hash_bytes_len(hash);
        }
        // the bytes of the dynamic linking tables after .rodata
        let extra: u128 = interp.len() as u128 + (n as u128 + 1) * 24 + dynstr.bytes.len() as u128 + 4 * (n as u128
            + 4) + (n as u128) * 24 + (self.shared_objs.len() as u128 + 10) * 16;
        if extra > usize::MAX as u128 {
            return Err(LinkerError::AddressOverflow);
        }
        Ok((interp, dynstr, dynsym, hash, extra as usize))
    }
}

impl<'a> Linker<'a> {
    /// Links the objects against the shared objects into an executable:
    /// resolves the symbols, builds the dynamic linking tables for the
    /// symbols taken from shared objects, merges and places the sections,
    /// fills `.plt`, relocates `.text`, and writes the file.
    pub fn link(self) -> (r: Result<Vec<u8>, LinkerError>)
        requires
            all_unresolved(self.objs@),
            relas_in_range(self.objs@),
        ensures
            match r {
                Ok(img) => linked(self.objs@, self.shared_objs@, self.dyn_linker, img@),
                Err(LinkerError::SymbolResolveFailed { duplicated_syms, missing_syms }) => {
                    &&& !resolves(self.objs@, self.shared_objs@)
                    &&& names_distinct(duplicated_syms@)
                    &&& name_set(duplicated_syms@) == duplicated_names(self.objs@, self.shared_objs@)
                    &&& names_distinct(missing_syms@)
                    &&& name_set(missing_syms@) == missing_names(self.objs@, self.shared_objs@)
                },
                Err(e) => link_error(self.objs@, self.shared_objs@, self.dyn_linker, e@),
            },
            link_owed(self.objs@, self.shared_objs@, self.dyn_linker) ==> r is Ok,
    {
        let ghost objs = self.objs@;
        let ghost shared = self.shared_objs@;
        let ghost dyn_linker = self.dyn_linker;
        let mut this = self;
        let dyn_syms = match this.resolve_symbols() {
            Ok(d) => d,
            Err(e) => {
                return Err(e);
            },
        };
        let ghost resolved = this.objs@;
        proof {
            lemma_relas_in_range_kept(objs, resolved);
        }
        let n = dyn_syms.len();
        let (interp, dynstr, dynsym, hash, _) = match this.dynamic_tables(&dyn_syms) {
            Ok(t) => t,
            Err(e) => {
                proof {
                    assert(dyn_syms_of(objs, shared, dyn_syms@));
                    assert(step_error(objs, shared, dyn_linker, dyn_syms@, e@));
                    reveal(link_error);
                }
                return Err(e);
            },
        };
        proof {
            lemma_merge_same_sections(resolved, objs, objs.len() as int);
        }
        let mut sects = match this.merge_and_arrange_sections(n) {
            Ok(s) => s,
            Err(e) => {
                proof {
                    assert(dyn_syms_of(objs, shared, dyn_syms@));
                    if exists|s: OutputSectionList|
                        merged_from(resolved, s) && plt_got_reserved(s, n as int) && placement_of(s).6 > usize::MAX {
                        let s = choose|s: OutputSectionList|
                            merged_from(resolved, s) && plt_got_reserved(s, n as int) && placement_of(s).6 > usize::MAX;
                        lemma_merged_from_same_sections(resolved, objs, s);
                    }
                    assert(step_error(objs, shared, dyn_linker, dyn_syms@, e@));
                    reveal(link_error);
                    if link_owed(objs, shared, dyn_linker) {
                        if exists|s: OutputSectionList|
                            merged_from(resolved, s) && plt_got_reserved(s, n as int) && placement_of(s).6 > usize::MAX {
                            let s = choose|s: OutputSectionList|
                                merged_from(resolved, s) && plt_got_reserved(s, n as int) && placement_of(s).6 > usize::MAX;
                            lemma_merged_from_same_sections(resolved, objs, s);
                        }
                    }
                }
                return Err(e);
            },
        };
        let ghost merged = sects;
        proof {
            lemma_placed_bounds(sects);
        }
        let ghost plt_before = sects.plt.bytes->Bytes_0@;
        this.fill_plt(&mut sects, n);
        let ghost filled = sects;
        proof {
            let plt = choose|plt: Seq<u8>|
                plt_replaced(merged, filled, plt) && plt_written(
                    plt_before,
                    plt,
                    merged.plt.base as int,
                    merged.got.base as int,
                    n as int,
                );
            lemma_plt_written_filled(plt_before, plt, merged.plt.base as int, merged.got.base as int, n as int);
        }
        proof {
            crate::linker::relocation::lemma_offsets_known(resolved, sects);
        }
        match this.relocate(&mut sects) {
            Ok(()) => {},
            Err(e) => {
                proof {
                    crate::linker::relocation::lemma_relocated_error_kind(resolved, filled, resolved.len() as int, 0);
                    assert(placed_steps(objs, shared, dyn_linker, resolved, dyn_syms@, merged, filled));
                    assert(step_error(objs, shared, dyn_linker, dyn_syms@, e@));
                    reveal(link_error);
                }
                return Err(e);
            },
        }
        let ghost out = sects;
        let ghost dynstr_g = dynstr;
        let ghost dynsym_g = dynsym@;
        let ghost interp_g = interp@;
        let ghost hash_bytes = hash.spec_bytes();
        proof {
            assert forall|o: int, k: int| #[trigger] is_first_start(resolved, o, k) implies address_defined(
                resolved,
                out,
                o,
                k,
            ) by {
                lemma_address_defined(resolved, out, o, k);
            }
            lemma_hash_bytes_len(hash);
            lemma_shstrtab_names_len();
            lemma_strtab_len(shstrtab_names());
        }
        let r = this.output_elf(sects, &dyn_syms, interp, dynstr, dynsym, hash);
        proof {
            assert(placed_steps(objs, shared, dyn_linker, resolved, dyn_syms@, merged, filled));
            lemma_entry_point_stable(resolved, out, filled);
            assert(dynsym_g.len() == n + 1);
            assert(out.text.spec_len() == filled.text.spec_len());
            assert(output_fits_for(shared, dyn_linker, dyn_syms@, out) == output_fits_for(
                shared,
                dyn_linker,
                dyn_syms@,
                filled,
            ));
            if r is Err {
                assert(step_error(objs, shared, dyn_linker, dyn_syms@, r->Err_0@));
                reveal(link_error);
            }
            if r is Ok {
                let plt = choose|plt: Seq<u8>|
                    plt_replaced(merged, filled, plt) && plt_filled(
                        plt,
                        merged.plt.base as int,
                        merged.got.base as int,
                        n as int,
                    );
                assert(linked_with(objs, shared, dyn_linker, r->Ok_0@, resolved, dyn_syms@, dynstr_g, merged, filled, plt, out));
            }
        }
        r
    }
}

} // verus!
