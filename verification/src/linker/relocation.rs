//! Patching the merged `.text` at the places that its relocations name.
use vstd::prelude::*;

use crate::codec::{i64_to_word, le_bytes};
use crate::elf64::{spec_r_sym, spec_r_type, Elf64_Rela, R_X86_64_PC32, R_X86_64_PLT32};
use crate::linker::section::{
    named_section, offsets_from, placed, OutputSection, OutputSectionBytesKind,
    OutputSectionList,
};
use crate::linker::symbol::{ResolvedObjIndexKind, resolutions_valid};
use crate::linker::{obj_syms, ElfObject, Linker, LinkerError, LinkerErrorView};
use crate::names::{
    bss_name, data_name, rodata_name, spec_bss_name, spec_data_name, spec_rodata_name, spec_text_name,
    text_name,
};
use crate::parser::section::rela_text::ElfRela;
use crate::parser::{bytes_eq, lemma_first_named_exists, ElfParseError, ParseErrorView};

verus! {

/// The output section that the linker merges the sections named `name`
/// into, if it merges them.
pub open spec fn output_section_named(sects: OutputSectionList, name: Seq<u8>) -> Option<OutputSection> {
    if name == spec_text_name() {
        Some(sects.text)
    } else if name == spec_data_name() {
        Some(sects.data)
    } else if name == spec_rodata_name() {
        Some(sects.rodata)
    } else if name == spec_bss_name() {
        Some(sects.bss)
    } else {
        None
    }
}

/// The final address of the `k`-th symbol of the `o`-th object: the address
/// of the output section that its section is merged into, plus where that
/// section starts there, plus the symbol's value.
pub open spec fn symbol_address_spec(objs: Seq<ElfObject>, sects: OutputSectionList, o: int, k: int) -> Result<
    int,
    LinkerErrorView,
> {
    let sym = obj_syms(objs, o)[k].sym;
    let shdrs = objs[o].elf.shdrs@;
    if sym.st_shndx >= shdrs.len() {
        Err(
            LinkerErrorView::ParseError {
                errors: seq![
                    ParseErrorView::SectionNotFoundByIndex { index: sym.st_shndx as usize },
                ],
            },
        )
    } else {
        let name = shdrs[sym.st_shndx as int].name@;
        match output_section_named(sects, name) {
            None => Err(LinkerErrorView::UnsupportedSection { name }),
            Some(sec) => {
                let a = sec.base + sec.section_offsets@[o]->Some_0 + sym.st_value;
                if a > usize::MAX {
                    Err(LinkerErrorView::AddressOverflow)
                } else {
                    Ok(a)
                }
            },
        }
    }
}

/// An object with a section of a name has an offset in the output section
/// that merges sections of that name.
proof fn lemma_offset_present(objs: Seq<ElfObject>, sects: OutputSectionList, o: int, j: int, name: Seq<u8>)
    requires
        offsets_from(objs, sects),
        0 <= o < objs.len(),
        0 <= j < objs[o].elf.shdrs@.len(),
        objs[o].elf.shdrs@[j].name@ == name,
        output_section_named(sects, name) is Some,
    ensures
        output_section_named(sects, name)->Some_0.section_offsets@[o] is Some,
{
    lemma_first_named_exists(objs[o].elf.shdrs@, name, j);
    assert(named_section(objs[o].elf, name) is Some);
    let sec = output_section_named(sects, name)->Some_0;
    assert(sec.section_offsets@[o] is Some);
}

/// The place of the `k`-th symbol of the `o`-th object is known: when its
/// section is one that the linker merges, the merged section records where
/// the sections of that object start in it.
pub open spec fn address_defined(objs: Seq<ElfObject>, sects: OutputSectionList, o: int, k: int) -> bool {
    let sym = obj_syms(objs, o)[k].sym;
    let shdrs = objs[o].elf.shdrs@;
    sym.st_shndx < shdrs.len() ==> match output_section_named(sects, shdrs[sym.st_shndx as int].name@) {
        Some(sec) => o < sec.section_offsets@.len() && sec.section_offsets@[o] is Some,
        None => true,
    }
}

/// The place of every symbol is known once the sections record where the
/// sections of each object start.
pub proof fn lemma_address_defined(objs: Seq<ElfObject>, sects: OutputSectionList, o: int, k: int)
    requires
        offsets_from(objs, sects),
        0 <= o < objs.len(),
        0 <= k < obj_syms(objs, o).len(),
    ensures
        address_defined(objs, sects, o, k),
{
    let sym = obj_syms(objs, o)[k].sym;
    let shdrs = objs[o].elf.shdrs@;
    if sym.st_shndx < shdrs.len() {
        let name = shdrs[sym.st_shndx as int].name@;
        if output_section_named(sects, name) is Some {
            lemma_offset_present(objs, sects, o, sym.st_shndx as int, name);
        }
    }
}

impl<'a> Linker<'a> {
    /// The final address of the `sym_index`-th symbol of the `obj_index`-th
    /// object, once the sections are placed.
    pub fn symbol_address(&self, obj_index: usize, sym_index: usize, sects: &OutputSectionList) -> (r:
        Result<usize, LinkerError>)
        requires
            obj_index < self.objs@.len(),
            sym_index < obj_syms(self.objs@, obj_index as int).len(),
            address_defined(self.objs@, *sects, obj_index as int, sym_index as int),
        ensures
            match symbol_address_spec(self.objs@, *sects, obj_index as int, sym_index as int) {
                Ok(a) => r is Ok && r->Ok_0 == a,
                Err(e) => r is Err && r->Err_0@ == e,
            },
    {
        let obj = &self.objs[obj_index];
        let sym = &obj.symtab.syms[sym_index].sym;
        let shndx = sym.st_shndx as usize;
        if shndx >= obj.elf.shdrs.len() {
            let errors = vec![ElfParseError::SectionNotFoundByIndex { index: shndx }];
            assert(errors@.map_values(|e: ElfParseError| e@) =~= seq![
                ParseErrorView::SectionNotFoundByIndex { index: shndx },
            ]);
            return Err(LinkerError::ParseError { errors });
        }
        let sect_name = obj.elf.shdrs[shndx].name.as_slice();
        let tn = text_name();
        let dn = data_name();
        let rn = rodata_name();
        let bn = bss_name();
        let output_sect = if bytes_eq(sect_name, tn.as_slice()) {
            &sects.text
        } else if bytes_eq(sect_name, dn.as_slice()) {
            &sects.data
        } else if bytes_eq(sect_name, rn.as_slice()) {
            &sects.rodata
        } else if bytes_eq(sect_name, bn.as_slice()) {
            &sects.bss
        } else {
            return Err(LinkerError::UnsupportedSection { name: crate::parser::copy_bytes(sect_name) });
        };
        let offset = match output_sect.section_offsets[obj_index] {
            Some(off) => off,
            None => {
                return Err(LinkerError::AddressOverflow);
            },
        };
        if offset > usize::MAX - output_sect.base {
            return Err(LinkerError::AddressOverflow);
        }
        let a = output_sect.base + offset;
        if sym.st_value > (usize::MAX - a) as u64 {
            return Err(LinkerError::AddressOverflow);
        }
        Ok(a + sym.st_value as usize)
    }
}

/// What one relocation of the `ri`-th object does to the merged `.text`.
pub enum RelocOutcome {
    /// Writes `bytes` at offset `place`.
    Patch { place: int, bytes: Seq<u8> },
    /// Leaves `.text` as it is: the symbol is defined in a shared object.
    Skip,
    /// Fails with this error.
    Fail(LinkerErrorView),
}

/// The four bytes of a PC-relative displacement: `S + A - P` cut to 32 bits.
pub open spec fn pc32_bytes(s: int, a: int, p: int) -> Seq<u8> {
    le_bytes(((s + a - p) % 0x1_0000_0000) as nat, 4)
}

/// What the relocation `rela` of the `ri`-th object does: for a PC-relative
/// relocation (`R_X86_64_PC32` or `R_X86_64_PLT32`) against a symbol that an
/// object defines, it writes `S + A - P` at its place, where `S` is the
/// symbol's address, `A` the addend and `P` the address of the place;
/// against a symbol of a shared object it does nothing.
pub open spec fn reloc_outcome(objs: Seq<ElfObject>, sects: OutputSectionList, ri: int, rela: Elf64_Rela) -> RelocOutcome {
    let t = spec_r_type(rela.r_info);
    let k = spec_r_sym(rela.r_info) as int;
    if t != R_X86_64_PC32 && t != R_X86_64_PLT32 {
        RelocOutcome::Fail(LinkerErrorView::UnsupportedRelocationType { r_type: t })
    } else {
        match obj_syms(objs, ri)[k].resolved_sym {
            None => RelocOutcome::Fail(
                LinkerErrorView::ParseError {
                    errors: seq![ParseErrorView::SymbolNotFound { index: k as usize }],
                },
            ),
            Some(res) => match res.obj_index {
                ResolvedObjIndexKind::Shared(_) => RelocOutcome::Skip,
                ResolvedObjIndexKind::Obj(o) => match sects.text.section_offsets@[ri] {
                    None => RelocOutcome::Fail(
                        LinkerErrorView::ParseError {
                            errors: seq![ParseErrorView::SectionNotFound { name: spec_text_name() }],
                        },
                    ),
                    Some(off) => match symbol_address_spec(objs, sects, o as int, res.sym_index as int) {
                        Err(e) => RelocOutcome::Fail(e),
                        Ok(s) => {
                            let place = off + rela.r_offset;
                            if place + 4 > sects.text.spec_len() {
                                RelocOutcome::Fail(
                                    LinkerErrorView::RelocationOutOfRange {
                                        obj_index: ri as usize,
                                        r_offset: rela.r_offset,
                                    },
                                )
                            } else {
                                RelocOutcome::Patch {
                                    place,
                                    bytes: pc32_bytes(s, rela.r_addend as int, sects.text.base + place),
                                }
                            }
                        },
                    },
                },
            },
        }
    }
}

/// `bytes` with `patch` written at `place`.
pub open spec fn splice(bytes: Seq<u8>, place: int, patch: Seq<u8>) -> Seq<u8> {
    bytes.subrange(0, place) + patch + bytes.subrange(place + patch.len(), bytes.len() as int)
}

/// `b` is `a` with only the bytes of `.text` changed, to `text`.
pub open spec fn text_replaced(a: OutputSectionList, b: OutputSectionList, text: Seq<u8>) -> bool {
    &&& b.text.base == a.text.base
    &&& b.text.section_offsets == a.text.section_offsets
    &&& b.text.bytes is Bytes
    &&& b.text.bytes->Bytes_0@ == text
    &&& b.plt == a.plt
    &&& b.rodata == a.rodata
    &&& b.data == a.data
    &&& b.bss == a.bss
    &&& b.got == a.got
}

/// The objects' relocations refer to symbols in their own symbol tables.
pub open spec fn relas_in_range(objs: Seq<ElfObject>) -> bool {
    forall|o: int, r: int|
        0 <= o < objs.len() && objs[o].rela_text is Some && 0 <= r < objs[o].rela_text->Some_0@.len()
            ==> spec_r_sym((#[trigger] objs[o].rela_text->Some_0@[r]).rela.r_info) < obj_syms(objs, o).len()
}

/// Writes the `n` low bytes of `v` at `off`, least significant first.
pub fn write_le_at(out: &mut Vec<u8>, off: usize, v: u64, n: usize)
    requires
        off + n <= old(out)@.len(),
    ensures
        final(out)@ == splice(old(out)@, off as int, le_bytes(v as nat, n as nat)),
{
    let mut x: u64 = v;
    let mut i: usize = 0;
    proof {
        crate::codec::lemma_le_bytes_len(v as nat, n as nat);
    }
    while i < n
        invariant
            0 <= i <= n,
            off + n <= out.len(),
            out@.len() == old(out)@.len(),
            le_bytes(v as nat, n as nat).len() == n,
            le_bytes(x as nat, (n - i) as nat) == le_bytes(v as nat, n as nat).subrange(i as int, n as int),
            out@ == splice(old(out)@, off as int, le_bytes(v as nat, n as nat).subrange(0, i as int)),
        decreases n - i,
    {
        let ghost before = out@;
        let ghost full = le_bytes(v as nat, n as nat);
        proof {
            let k = (n - i) as nat;
            assert(le_bytes(x as nat, k) == seq![(x % 256) as u8] + le_bytes((x / 256) as nat, (k - 1) as nat));
            assert(full[i as int] == (x % 256) as u8) by {
                assert(le_bytes(x as nat, k)[0] == full.subrange(i as int, n as int)[0]);
            }
            assert(le_bytes((x / 256) as nat, (k - 1) as nat) =~= full.subrange(i + 1, n as int)) by {
                assert(le_bytes(x as nat, k).drop_first() =~= le_bytes((x / 256) as nat, (k - 1) as nat));
                assert(full.subrange(i as int, n as int).drop_first() =~= full.subrange(i + 1, n as int));
            }
        }
        out.set(off + i, (x % 256) as u8);
        proof {
            assert(out@ =~= splice(old(out)@, off as int, full.subrange(0, i + 1)));
        }
        x = x / 256;
        i = i + 1;
    }
    assert(le_bytes(v as nat, n as nat).subrange(0, n as int) =~= le_bytes(v as nat, n as nat));
}

/// The 32-bit PC-relative displacement `S + A - P`, cut to its low 32 bits.
pub fn pc32_value(s: usize, a: i64, p: usize) -> (r: u64)
    ensures
        r == (s + a - p) % 0x1_0000_0000,
        r < 0x1_0000_0000,
{
    let a_word = i64_to_word(a);
    let v = (s as u64).wrapping_add(a_word).wrapping_sub(p as u64);
    proof {
        let b: int = s + a - p;
        let c: int = (v - b) / 0x1_0000_0000_0000_0000;
        assert(v == b + c * 0x1_0000_0000_0000_0000) by {
            let w1 = vstd::wrapping::u64_specs::wrapping_add(s as u64, a_word);
            assert(w1 == s + a_word || w1 == s + a_word - 0x1_0000_0000_0000_0000);
            assert(v == w1 - p || v == w1 - p + 0x1_0000_0000_0000_0000);
            assert(a_word == a || a_word == a + 0x1_0000_0000_0000_0000);
        }
        vstd::arithmetic::div_mod::lemma_mod_multiples_vanish(c * 0x1_0000_0000, b, 0x1_0000_0000);
        assert(0x1_0000_0000 * (c * 0x1_0000_0000) == c * 0x1_0000_0000_0000_0000);
    }
    v % 0x1_0000_0000
}

/// The sections end within the address space, and `.text` holds bytes.
pub open spec fn text_placed(sects: OutputSectionList) -> bool {
    &&& sects.text.spec_end() <= usize::MAX
    &&& sects.text.bytes is Bytes
}

/// `.text` has a place for where each object's `.text` starts in it, and
/// the place of every symbol is known.
pub open spec fn offsets_known(objs: Seq<ElfObject>, sects: OutputSectionList) -> bool {
    &&& sects.text.section_offsets@.len() == objs.len()
    &&& forall|o: int, k: int|
        0 <= o < objs.len() && 0 <= k < obj_syms(objs, o).len() ==> #[trigger] address_defined(objs, sects, o, k)
}

/// Sections that record where each object's sections start in them have
/// their offsets known.
pub proof fn lemma_offsets_known(objs: Seq<ElfObject>, sects: OutputSectionList)
    requires
        offsets_from(objs, sects),
    ensures
        offsets_known(objs, sects),
{
    assert forall|o: int, k: int| 0 <= o < objs.len() && 0 <= k < obj_syms(objs, o).len() implies #[trigger] address_defined(
        objs,
        sects,
        o,
        k,
    ) by {
        lemma_address_defined(objs, sects, o, k);
    }
}

impl<'a> Linker<'a> {
    /// Applies one relocation of the `rela_obj_index`-th object to the merged
    /// `.text`.
    pub fn patch_relocation(&self, rela_obj_index: usize, rela: &ElfRela, sects: &mut OutputSectionList) -> (r:
        Result<(), LinkerError>)
        requires
            rela_obj_index < self.objs@.len(),
            spec_r_sym(rela.rela.r_info) < obj_syms(self.objs@, rela_obj_index as int).len(),
            offsets_known(self.objs@, *old(sects)),
            text_placed(*old(sects)),
            resolutions_valid(self.objs@, self.shared_objs@),
        ensures
            match reloc_outcome(self.objs@, *old(sects), rela_obj_index as int, rela.rela) {
                RelocOutcome::Patch { place, bytes } => r is Ok && text_replaced(
                    *old(sects),
                    *final(sects),
                    splice(old(sects).text.bytes->Bytes_0@, place, bytes),
                ),
                RelocOutcome::Skip => r is Ok && *final(sects) == *old(sects),
                RelocOutcome::Fail(e) => r is Err && r->Err_0@ == e && *final(sects) == *old(sects),
            },
    {
        // R_X86_64_PC32 / R_X86_64_PLT32: a 4-byte PC-relative address, S + A - P
        let r_type = rela.rela.r_type();
        if r_type != R_X86_64_PC32 && r_type != R_X86_64_PLT32 {
            return Err(LinkerError::UnsupportedRelocationType { r_type });
        }
        let sym_index = rela.rela.r_sym() as usize;
        let sym = &self.objs[rela_obj_index].symtab.syms[sym_index];
        let resolved = match sym.resolved_sym {
            Some(res) => res,
            None => {
                let errors = vec![ElfParseError::SymbolNotFound { index: sym_index }];
                assert(errors@.map_values(|e: ElfParseError| e@) =~= seq![
                    ParseErrorView::SymbolNotFound { index: sym_index },
                ]);
                return Err(LinkerError::ParseError { errors });
            },
        };
        match resolved.obj_index {
            ResolvedObjIndexKind::Obj(o_index) => {
                // P: the address of the place to patch.  `.rela.text` always
                // patches `.text`, so the place is where this object's `.text`
                // starts in the merged `.text`, plus `r_offset`.
                let text_offset = match sects.text.section_offsets[rela_obj_index] {
                    Some(off) => off,
                    None => {
                        let errors = vec![ElfParseError::SectionNotFound { name: text_name() }];
                        assert(errors@.map_values(|e: ElfParseError| e@) =~= seq![
                            ParseErrorView::SectionNotFound { name: spec_text_name() },
                        ]);
                        return Err(LinkerError::ParseError { errors });
                    },
                };
                // S: the final address of the symbol.
                proof {
                    assert(address_defined(self.objs@, *sects, o_index as int, resolved.sym_index as int));
                }
                let sym_addr = match self.symbol_address(o_index, resolved.sym_index, sects) {
                    Ok(a) => a,
                    Err(e) => {
                        return Err(e);
                    },
                };
                let text_len = sects.text.bytes_len();
                if rela.rela.r_offset > text_len as u64 || (text_offset as u64) > (text_len as u64)
                    - rela.rela.r_offset || (text_len as u64) - rela.rela.r_offset - (text_offset as u64) < 4 {
                    return Err(
                        LinkerError::RelocationOutOfRange {
                            obj_index: rela_obj_index,
                            r_offset: rela.rela.r_offset,
                        },
                    );
                }
                let place_offset = text_offset + rela.rela.r_offset as usize;
                let place_addr = sects.text.base + place_offset;
                // S + A - P
                let value = pc32_value(sym_addr, rela.rela.r_addend, place_addr);
                match &mut sects.text.bytes {
                    OutputSectionBytesKind::Bytes(bytes) => {
                        write_le_at(bytes, place_offset, value, 4);
                    },
                    OutputSectionBytesKind::NobitsLen(_) => {},
                }
                Ok(())
            },
            ResolvedObjIndexKind::Shared(_) => {
                // A symbol of a shared object has no address before run time;
                // its references are not patched.
                Ok(())
            },
        }
    }
}

/// The relocations of the `o`-th object, if it has any.
pub open spec fn obj_relas(objs: Seq<ElfObject>, o: int) -> Seq<ElfRela> {
    match objs[o].rela_text {
        Some(v) => v@,
        None => Seq::empty(),
    }
}

/// `.text` after the relocations of the objects before the `m`-th and the
/// first `r` relocations of the `m`-th, in order; or the error of the first
/// relocation that fails.
pub open spec fn relocated(objs: Seq<ElfObject>, sects: OutputSectionList, m: int, r: int) -> Result<
    Seq<u8>,
    LinkerErrorView,
>
    decreases m, r,
{
    if m <= 0 && r <= 0 {
        Ok(sects.text.bytes->Bytes_0@)
    } else if r <= 0 {
        relocated(objs, sects, m - 1, obj_relas(objs, m - 1).len() as int)
    } else {
        match relocated(objs, sects, m, r - 1) {
            Err(e) => Err(e),
            Ok(t) => match reloc_outcome(objs, sects, m, obj_relas(objs, m)[r - 1].rela) {
                RelocOutcome::Patch { place, bytes } => Ok(splice(t, place, bytes)),
                RelocOutcome::Skip => Ok(t),
                RelocOutcome::Fail(e) => Err(e),
            },
        }
    }
}

/// `.text` after the relocations before the `r`-th of the `m`-th object,
/// up to the first that fails: the patches made before a failure stay.
pub open spec fn relocated_before_error(objs: Seq<ElfObject>, sects: OutputSectionList, m: int, r: int) -> Seq<u8>
    decreases m, r,
{
    if m <= 0 && r <= 0 {
        sects.text.bytes->Bytes_0@
    } else if r <= 0 {
        relocated_before_error(objs, sects, m - 1, obj_relas(objs, m - 1).len() as int)
    } else {
        match relocated(objs, sects, m, r - 1) {
            Err(_) => relocated_before_error(objs, sects, m, r - 1),
            Ok(t) => match reloc_outcome(objs, sects, m, obj_relas(objs, m)[r - 1].rela) {
                RelocOutcome::Patch { place, bytes } => splice(t, place, bytes),
                _ => t,
            },
        }
    }
}

/// Once relocating has failed, `.text` stays as the failure left it.
proof fn lemma_before_error_sticky(objs: Seq<ElfObject>, sects: OutputSectionList, m: int, r: int)
    requires
        0 <= m < objs.len(),
        0 <= r <= obj_relas(objs, m).len(),
        relocated(objs, sects, m, r) is Err,
    ensures
        relocated_before_error(objs, sects, objs.len() as int, 0) == relocated_before_error(objs, sects, m, r),
    decreases objs.len() - m, obj_relas(objs, m).len() - r,
{
    if r < obj_relas(objs, m).len() {
        assert(relocated(objs, sects, m, r + 1) == relocated(objs, sects, m, r));
        assert(relocated_before_error(objs, sects, m, r + 1) == relocated_before_error(objs, sects, m, r));
        lemma_before_error_sticky(objs, sects, m, r + 1);
    } else if m + 1 < objs.len() {
        assert(relocated(objs, sects, m + 1, 0) == relocated(objs, sects, m, r));
        assert(relocated_before_error(objs, sects, m + 1, 0) == relocated_before_error(objs, sects, m, r));
        lemma_before_error_sticky(objs, sects, m + 1, 0);
    } else {
        assert(relocated_before_error(objs, sects, m + 1, 0) == relocated_before_error(objs, sects, m, r));
    }
}

/// A relocation reads only what patching `.text` leaves as it is.
proof fn lemma_outcome_stable(
    objs: Seq<ElfObject>,
    a: OutputSectionList,
    b: OutputSectionList,
    t: Seq<u8>,
    ri: int,
    rela: Elf64_Rela,
)
    requires
        text_replaced(a, b, t),
        t.len() == a.text.spec_len(),
    ensures
        reloc_outcome(objs, a, ri, rela) == reloc_outcome(objs, b, ri, rela),
{
    assert forall|o: int, k: int| symbol_address_spec(objs, a, o, k) == symbol_address_spec(objs, b, o, k) by {}
}

impl<'a> Linker<'a> {
    /// Applies the relocations of every object to the merged `.text`, objects
    /// and relocations in order, stopping at the first that fails.
    pub fn relocate(&self, sects: &mut OutputSectionList) -> (r: Result<(), LinkerError>)
        requires
            offsets_known(self.objs@, *old(sects)),
            text_placed(*old(sects)),
            resolutions_valid(self.objs@, self.shared_objs@),
            relas_in_range(self.objs@),
        ensures
            match relocated(self.objs@, *old(sects), self.objs@.len() as int, 0) {
                Ok(t) => r is Ok && text_replaced(*old(sects), *final(sects), t) && t.len()
                    == old(sects).text.spec_len(),
                Err(e) => r is Err && r->Err_0@ == e && text_replaced(
                    *old(sects),
                    *final(sects),
                    relocated_before_error(self.objs@, *old(sects), self.objs@.len() as int, 0),
                ),
            },
    {
        let ghost s0 = *sects;
        let ghost objs = self.objs@;
        let mut obj_index: usize = 0;
        proof {
            assert(text_replaced(s0, *sects, s0.text.bytes->Bytes_0@));
        }
        while obj_index < self.objs.len()
            invariant
                objs == self.objs@,
                s0 == *old(sects),
                0 <= obj_index <= objs.len(),
                offsets_known(objs, s0),
                text_placed(s0),
                resolutions_valid(objs, self.shared_objs@),
                relas_in_range(objs),
                relocated(objs, s0, obj_index as int, 0) is Ok,
                text_replaced(s0, *sects, relocated(objs, s0, obj_index as int, 0)->Ok_0),
                relocated(objs, s0, obj_index as int, 0)->Ok_0.len() == s0.text.spec_len(),
            decreases objs.len() - obj_index,
        {
            let o = &self.objs[obj_index];
            match &o.rela_text {
                Some(relas) => {
                    let mut i: usize = 0;
                    while i < relas.len()
                        invariant
                            objs == self.objs@,
                            s0 == *old(sects),
                            0 <= obj_index < objs.len(),
                            objs[obj_index as int].rela_text == Some(*relas),
                            0 <= i <= relas@.len(),
                            offsets_known(objs, s0),
                            text_placed(s0),
                            resolutions_valid(objs, self.shared_objs@),
                            relas_in_range(objs),
                            relocated(objs, s0, obj_index as int, i as int) is Ok,
                            text_replaced(s0, *sects, relocated(objs, s0, obj_index as int, i as int)->Ok_0),
                            relocated(objs, s0, obj_index as int, i as int)->Ok_0.len() == s0.text.spec_len(),
                        decreases relas@.len() - i,
                    {
                        let ghost before = *sects;
                        let ghost t = relocated(objs, s0, obj_index as int, i as int)->Ok_0;
                        proof {
                            assert(obj_relas(objs, obj_index as int)[i as int] == relas@[i as int]);
                            lemma_outcome_stable(objs, s0, before, t, obj_index as int, relas@[i as int].rela);
                            assert(spec_r_sym(relas@[i as int].rela.r_info) < obj_syms(objs, obj_index as int).len());
                            assert(offsets_known(objs, before)) by {
                                assert forall|o: int, k: int|
                                    0 <= o < objs.len() && 0 <= k < obj_syms(objs, o).len() implies #[trigger] address_defined(
                                    objs,
                                    before,
                                    o,
                                    k,
                                ) by {
                                    assert(address_defined(objs, s0, o, k));
                                }
                            }
                        }
                        let res = self.patch_relocation(obj_index, &relas[i], sects);
                        proof {
                            lemma_outcome_patch_len(objs, s0, obj_index as int, relas@[i as int].rela);
                        }
                        match res {
                            Ok(()) => {},
                            Err(e) => {
                                proof {
                                    assert(relocated(objs, s0, obj_index as int, i + 1) == Err::<Seq<u8>, LinkerErrorView>(e@));
                                    lemma_relocated_fail_sticky(objs, s0, obj_index as int, i + 1);
                                    assert(relocated(objs, s0, objs.len() as int, 0) == Err::<Seq<u8>, LinkerErrorView>(e@));
                                    assert(s0 == *old(sects));
                                    assert(relocated_before_error(objs, s0, obj_index as int, i + 1) == t);
                                    lemma_before_error_sticky(objs, s0, obj_index as int, i + 1);
                                }
                                return Err(e);
                            },
                        }
                        i = i + 1;
                    }
                    proof {
                        assert(obj_relas(objs, obj_index as int).len() == relas@.len());
                    }
                },
                None => {
                    assert(obj_relas(objs, obj_index as int).len() == 0);
                },
            }
            proof {
                assert(relocated(objs, s0, obj_index + 1, 0) == relocated(
                    objs,
                    s0,
                    obj_index as int,
                    obj_relas(objs, obj_index as int).len() as int,
                ));
            }
            obj_index = obj_index + 1;
        }
        Ok(())
    }
}

/// A patch writes four bytes within `.text`.
proof fn lemma_outcome_patch_len(objs: Seq<ElfObject>, sects: OutputSectionList, ri: int, rela: Elf64_Rela)
    ensures
        match reloc_outcome(objs, sects, ri, rela) {
            RelocOutcome::Patch { place, bytes } => bytes.len() == 4 && 0 <= place && place + 4
                <= sects.text.spec_len(),
            _ => true,
        },
{
    match reloc_outcome(objs, sects, ri, rela) {
        RelocOutcome::Patch { place, bytes } => {
            let k = spec_r_sym(rela.r_info) as int;
            let res = obj_syms(objs, ri)[k].resolved_sym->Some_0;
            let o = res.obj_index->Obj_0;
            let s = symbol_address_spec(objs, sects, o as int, res.sym_index as int)->Ok_0;
            crate::codec::lemma_le_bytes_len(
                ((s + rela.r_addend - (sects.text.base + place)) % 0x1_0000_0000) as nat,
                4,
            );
        },
        _ => {},
    }
}

/// Once a relocation fails, relocating fails with its error.
proof fn lemma_relocated_fail_sticky(objs: Seq<ElfObject>, sects: OutputSectionList, m: int, r: int)
    requires
        0 <= m < objs.len(),
        0 <= r <= obj_relas(objs, m).len(),
        relocated(objs, sects, m, r) is Err,
    ensures
        relocated(objs, sects, objs.len() as int, 0) == relocated(objs, sects, m, r),
    decreases objs.len() - m, obj_relas(objs, m).len() - r,
{
    if r < obj_relas(objs, m).len() {
        assert(relocated(objs, sects, m, r + 1) == relocated(objs, sects, m, r));
        lemma_relocated_fail_sticky(objs, sects, m, r + 1);
    } else if m + 1 < objs.len() {
        assert(relocated(objs, sects, m + 1, 0) == relocated(objs, sects, m, r));
        lemma_relocated_fail_sticky(objs, sects, m + 1, 0);
    } else {
        assert(relocated(objs, sects, m + 1, 0) == relocated(objs, sects, m, r));
    }
}

/// Relocating fails only for a reason of its own, never for want of a symbol
/// definition.
pub proof fn lemma_relocated_error_kind(objs: Seq<ElfObject>, sects: OutputSectionList, m: int, r: int)
    ensures
        relocated(objs, sects, m, r) is Err ==> !(relocated(objs, sects, m, r)->Err_0 is SymbolResolveFailed),
    decreases m, r,
{
    if m <= 0 && r <= 0 {
    } else if r <= 0 {
        lemma_relocated_error_kind(objs, sects, m - 1, obj_relas(objs, m - 1).len() as int);
    } else {
        lemma_relocated_error_kind(objs, sects, m, r - 1);
    }
}

/// A patched displacement reaches its target: the 32-bit value written at a
/// place, read back as a signed number and added to the address of the
/// place, is the symbol's address plus the addend, whenever `S + A - P` fits
/// in 32 signed bits.
pub proof fn lemma_pc32_reaches_target(s: int, a: int, p: int)
    requires
        -0x8000_0000 <= s + a - p < 0x8000_0000,
    ensures
        pc32_bytes(s, a, p).len() == 4,
        p + crate::linker::dynamic::i32_of(crate::codec::le_value(pc32_bytes(s, a, p))) == s + a,
{
    let x = ((s + a - p) % 0x1_0000_0000) as nat;
    crate::codec::lemma_pow256_values();
    crate::codec::lemma_le_roundtrip(x, 4);
    crate::codec::lemma_le_bytes_len(x, 4);
}


/// The output section that the sections named `name` merge into, by name.
pub open spec fn merged_section_for(sects: OutputSectionList, name: Seq<u8>) -> OutputSection {
    if name == spec_text_name() {
        sects.text
    } else if name == spec_data_name() {
        sects.data
    } else if name == spec_rodata_name() {
        sects.rodata
    } else {
        sects.bss
    }
}

/// The final address of a symbol defined in `.text`, `.data`, `.rodata` or
/// `.bss` is the address of the output section of that name, plus where the
/// object's section starts in it, plus the symbol's value.
pub proof fn lemma_symbol_address_adds_value(objs: Seq<ElfObject>, sects: OutputSectionList, o: int, k: int)
    requires
        0 <= o < objs.len(),
        0 <= k < obj_syms(objs, o).len(),
        obj_syms(objs, o)[k].sym.st_shndx < objs[o].elf.shdrs@.len(),
        ({
            let name = objs[o].elf.shdrs@[obj_syms(objs, o)[k].sym.st_shndx as int].name@;
            name == spec_text_name() || name == spec_data_name() || name == spec_rodata_name() || name
                == spec_bss_name()
        }),
        merged_section_for(
            sects,
            objs[o].elf.shdrs@[obj_syms(objs, o)[k].sym.st_shndx as int].name@,
        ).section_offsets@[o] is Some,
    ensures
        ({
            let sym = obj_syms(objs, o)[k].sym;
            let sec = merged_section_for(sects, objs[o].elf.shdrs@[sym.st_shndx as int].name@);
            let a = sec.base + sec.section_offsets@[o]->Some_0 + sym.st_value;
            &&& a <= usize::MAX ==> symbol_address_spec(objs, sects, o, k) == Ok::<int, LinkerErrorView>(a)
            &&& a > usize::MAX ==> symbol_address_spec(objs, sects, o, k) == Err::<int, LinkerErrorView>(
                LinkerErrorView::AddressOverflow,
            )
        }),
{
}

/// Two symbols defined in one section of an object lie as far apart as
/// their values.
pub proof fn lemma_symbol_addresses_apart(objs: Seq<ElfObject>, sects: OutputSectionList, o: int, k1: int, k2: int)
    requires
        0 <= o < objs.len(),
        0 <= k1 < obj_syms(objs, o).len(),
        0 <= k2 < obj_syms(objs, o).len(),
        obj_syms(objs, o)[k1].sym.st_shndx == obj_syms(objs, o)[k2].sym.st_shndx,
        symbol_address_spec(objs, sects, o, k1) is Ok,
        symbol_address_spec(objs, sects, o, k2) is Ok,
    ensures
        symbol_address_spec(objs, sects, o, k1)->Ok_0 - symbol_address_spec(objs, sects, o, k2)->Ok_0
            == obj_syms(objs, o)[k1].sym.st_value - obj_syms(objs, o)[k2].sym.st_value,
{
}


/// A relocation patches the merged `.text` at the place where the object's
/// `.text` starts in it plus the relocation's offset, and writes four bytes
/// that, read back as a signed number and added to the address of that
/// place, give the address of the symbol plus the addend, whenever that
/// displacement fits in 32 signed bits.
pub proof fn lemma_patch_reaches_symbol(objs: Seq<ElfObject>, sects: OutputSectionList, ri: int, rela: Elf64_Rela)
    requires
        reloc_outcome(objs, sects, ri, rela) is Patch,
    ensures
        ({
            let place = reloc_outcome(objs, sects, ri, rela)->Patch_place;
            let bytes = reloc_outcome(objs, sects, ri, rela)->Patch_bytes;
            let res = obj_syms(objs, ri)[spec_r_sym(rela.r_info) as int].resolved_sym->Some_0;
            let s = symbol_address_spec(objs, sects, res.obj_index->Obj_0 as int, res.sym_index as int)->Ok_0;
            let p = sects.text.base + place;
            &&& place == sects.text.section_offsets@[ri]->Some_0 + rela.r_offset
            &&& bytes.len() == 4
            &&& -0x8000_0000 <= s + rela.r_addend - p < 0x8000_0000 ==> p + crate::linker::dynamic::i32_of(
                crate::codec::le_value(bytes),
            ) == s + rela.r_addend
        }),
{
    let place = reloc_outcome(objs, sects, ri, rela)->Patch_place;
    let res = obj_syms(objs, ri)[spec_r_sym(rela.r_info) as int].resolved_sym->Some_0;
    let s = symbol_address_spec(objs, sects, res.obj_index->Obj_0 as int, res.sym_index as int)->Ok_0;
    let p = sects.text.base + place;
    crate::codec::lemma_le_bytes_len(((s + rela.r_addend - p) % 0x1_0000_0000) as nat, 4);
    if -0x8000_0000 <= s + rela.r_addend - p < 0x8000_0000 {
        lemma_pc32_reaches_target(s, rela.r_addend as int, p);
    }
}

} // verus!
