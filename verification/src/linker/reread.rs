//! The executable that the linker writes, read again by its own reader.
use vstd::prelude::*;

use crate::codec::{ehdr_matches, field, spec_shdr};
use crate::elf64::{
    Elf64_Ehdr, Elf64_Shdr, Elf64_Sym, ELFCLASS64, ELFDATA2LSB, ELFMAG0, ELFMAG1, ELFMAG2, ELFMAG3, EM_X86_64,
    EV_CURRENT,
};
use crate::linker::dynamic::spec_dynamic;
use crate::linker::output::{
    ehdr_is, file_layout, is_output, layout_for, lemma_output_reads_back, lemma_strtab_has_names,
    lemma_strtab_lookup, lemma_strtab_wf, parts_at, reads_back, reads_back_parts, shstrtab_names, spec_rela_plt,
    spec_shdrs, strtab_build, OutputFileLayout, Strtab,
};
use crate::linker::section::OutputSectionList;
use crate::codec::records_bytes;
use crate::linker::dynamic::{single_bucket_words, spec_dynsym, spec_interp};
use crate::linker::output::entry_point;
use crate::linker::symbol::DynSymEntry;
use crate::linker::{linked, linked_with, ElfObject, ElfSharedObject};
use crate::parser::{
    cstr_at, first_nul, header_error, name_error_at, names_ok_upto, parse_error, section_name_at,
    shdr_at, shstr_hdr, shstrtab_of, spec_shnum, spec_shoff, spec_shstrndx,
};

verus! {

/// The names of the executable's sections, the null section's first.
pub open spec fn output_section_names() -> Seq<Seq<u8>> {
    seq![Seq::<u8>::empty()] + shstrtab_names()
}

/// The first NUL byte at or after `start` comes no later than a NUL byte at
/// `k`.
proof fn lemma_first_nul_at_most(tab: Seq<u8>, start: int, k: int)
    requires
        0 <= start <= k < tab.len(),
        tab[k] == 0,
    ensures
        start <= first_nul(tab, start) <= k,
    decreases k - start,
{
    if tab[start] != 0 {
        lemma_first_nul_at_most(tab, start + 1, k);
    }
}

/// No name of a section of the executable holds a NUL byte.
proof fn lemma_names_have_no_nul(i: int)
    requires
        0 <= i < 13,
    ensures
        forall|k: int| 0 <= k < shstrtab_names()[i].len() ==> shstrtab_names()[i][k] != 0,
{
}

/// The names of the section headers, and where `.shstrtab` lies.
proof fn lemma_shdrs_fields(sects: OutputSectionList, layout: OutputFileLayout, m: Map<Seq<u8>, nat>, sl: int)
    requires
        forall|i: int| 0 <= i < 13 ==> m.contains_key(#[trigger] shstrtab_names()[i]) && m[shstrtab_names()[i]] < 0x1_0000_0000,
        0 <= sl,
        layout.shstrtab + sl <= u64::MAX,
    ensures
        spec_shdrs(sects, layout, m, sl).len() == 14,
        spec_shdrs(sects, layout, m, sl)[0].sh_name == 0,
        forall|j: int| 1 <= j < 14 ==> #[trigger] spec_shdrs(sects, layout, m, sl)[j].sh_name == m[shstrtab_names()[j - 1]],
        spec_shdrs(sects, layout, m, sl)[13].sh_offset == layout.shstrtab,
        spec_shdrs(sects, layout, m, sl)[13].sh_size == sl,
{
    let s = spec_shdrs(sects, layout, m, sl);
    let names = shstrtab_names();
    assert forall|j: int| 1 <= j < 14 implies #[trigger] s[j].sh_name == m[names[j - 1]] by {
        assert(m.contains_key(names[j - 1]));
    }
}

/// The fields of a file header for `entry`, read from the file that begins
/// with it.
proof fn lemma_header_fields(img: Seq<u8>, h: Elf64_Ehdr, entry: int, shoff: int)
    requires
        ehdr_is(h, entry, shoff, 5, 14),
        ehdr_matches(h, img.subrange(0, 64)),
        img.len() >= 64,
    ensures
        img[0] == ELFMAG0 && img[1] == ELFMAG1 && img[2] == ELFMAG2 && img[3] == ELFMAG3,
        img[4] == ELFCLASS64 && img[5] == ELFDATA2LSB && img[6] == EV_CURRENT,
        field(img, 20, 4) == EV_CURRENT,
        field(img, 18, 2) == EM_X86_64,
        spec_shoff(img) == shoff,
        spec_shnum(img) == 14,
        spec_shstrndx(img) == 13,
{
    let s = img.subrange(0, 64);
    assert(img.subrange(18, 20) =~= s.subrange(18, 20));
    assert(img.subrange(20, 24) =~= s.subrange(20, 24));
    assert(img.subrange(40, 48) =~= s.subrange(40, 48));
    assert(img.subrange(60, 62) =~= s.subrange(60, 62));
    assert(img.subrange(62, 64) =~= s.subrange(62, 64));
    assert(h.e_ident@ == s.subrange(0, 16));
    assert(h.e_ident@[0] == s[0] && h.e_ident@[1] == s[1] && h.e_ident@[2] == s[2] && h.e_ident@[3] == s[3]);
    assert(h.e_ident@[4] == s[4] && h.e_ident@[5] == s[5] && h.e_ident@[6] == s[6]);
}

/// The names of a file whose section name table is that of the executable
/// and whose section headers name its sections are well formed, and are the
/// names of the executable's sections.
proof fn lemma_names_read(img: Seq<u8>, shdrs: Seq<Elf64_Shdr>)
    requires
        shdrs.len() == 14,
        forall|j: int| 0 <= j < 14 ==> #[trigger] shdr_at(img, spec_shoff(img), j) == shdrs[j],
        shstrtab_of(img) == strtab_build(shstrtab_names()).0,
        shdrs[0].sh_name == 0,
        forall|j: int| 1 <= j < 14 ==> #[trigger] shdrs[j].sh_name == strtab_build(shstrtab_names()).1[shstrtab_names()[j - 1]],
    ensures
        forall|j: int| 0 <= j < 14 ==> #[trigger] name_error_at(img, j) is None,
        forall|j: int| 0 <= j < 14 ==> #[trigger] section_name_at(img, j) == output_section_names()[j],
{
    let sh = strtab_build(shstrtab_names());
    lemma_strtab_wf(shstrtab_names());
    lemma_strtab_has_names(shstrtab_names());
    assert forall|j: int| 0 <= j < 14 implies #[trigger] name_error_at(img, j) is None && section_name_at(img, j)
        == output_section_names()[j] by {
        let tab = sh.0;
        assert(shdr_at(img, spec_shoff(img), j) == shdrs[j]);
        if j == 0 {
            assert(tab[0] == 0);
            assert(first_nul(tab, 0) == 0);
            assert(cstr_at(tab, 0) =~= Seq::<u8>::empty());
        } else {
            let n = shstrtab_names()[j - 1];
            assert(sh.1.contains_key(n));
            lemma_first_nul_at_most(tab, sh.1[n] as int, (sh.1[n] + n.len()) as int);
            lemma_names_have_no_nul(j - 1);
            lemma_strtab_lookup(shstrtab_names(), n);
            assert(output_section_names()[j] == n);
        }
    }
    assert forall|j: int| 0 <= j < 14 implies #[trigger] section_name_at(img, j) == output_section_names()[j] by {
        assert(name_error_at(img, j) is None);
    }
}

/// A file whose header, section headers and section name table are these
/// reads without error, its sections named as the table says.
proof fn lemma_file_parses(
    img: Seq<u8>,
    h: Elf64_Ehdr,
    entry: int,
    shoff: int,
    shdrs: Seq<Elf64_Shdr>,
)
    requires
        ehdr_is(h, entry, shoff, 5, 14),
        ehdr_matches(h, img.subrange(0, 64)),
        0 <= shoff,
        img.len() == shoff + 14 * 64,
        shdrs.len() == 14,
        forall|j: int| 0 <= j < 14 ==> spec_shdr(#[trigger] img.subrange(shoff + 64 * j, shoff + 64 * j + 64)) == shdrs[j],
        shdrs[13].sh_offset + shdrs[13].sh_size <= shoff,
        img.subrange(shdrs[13].sh_offset as int, shdrs[13].sh_offset + shdrs[13].sh_size) == strtab_build(
            shstrtab_names(),
        ).0,
        shdrs[0].sh_name == 0,
        forall|j: int| 1 <= j < 14 ==> #[trigger] shdrs[j].sh_name == strtab_build(shstrtab_names()).1[shstrtab_names()[j - 1]],
    ensures
        parse_error(img) is None,
        spec_shnum(img) == 14,
        spec_shstrndx(img) == 13,
        forall|j: int| 0 <= j < 14 ==> #[trigger] shdr_at(img, spec_shoff(img), j) == shdrs[j],
        forall|j: int| 0 <= j < 14 ==> #[trigger] section_name_at(img, j) == output_section_names()[j],
{
    lemma_header_fields(img, h, entry, shoff);
    assert forall|j: int| 0 <= j < 14 implies #[trigger] shdr_at(img, spec_shoff(img), j) == shdrs[j] by {
        assert(shdr_at(img, spec_shoff(img), j) == spec_shdr(img.subrange(shoff + 64 * j, shoff + 64 * j + 64)));
    }
    assert(shstr_hdr(img) == shdrs[13]);
    assert(header_error(img) is None);
    lemma_names_read(img, shdrs);
    assert(names_ok_upto(img, spec_shnum(img)));
}

/// The section headers that the executable is written with.
pub open spec fn output_shdrs(
    shared: Seq<ElfSharedObject>,
    sects: OutputSectionList,
    interp: Seq<u8>,
    dynsym: Seq<Elf64_Sym>,
    dynstr: Strtab,
    hash: Seq<u8>,
    ndyn: int,
) -> Seq<Elf64_Shdr> {
    let sh = strtab_build(shstrtab_names());
    let layout = layout_for(
        sects,
        interp.len() as int,
        (24 * dynsym.len()) as int,
        dynstr.bytes@.len() as int,
        hash.len() as int,
        24 * ndyn,
        (16 * (shared.len() + 10)) as int,
        sh.0.len() as int,
    );
    spec_shdrs(sects, layout, sh.1, sh.0.len() as int)
}

/// The linker's reader reads `img` back without error: fourteen section
/// headers, the last holding the section names, each header as written for
/// these sections and tables, and each section named as written.
pub open spec fn reads_as_output(
    img: Seq<u8>,
    shared: Seq<ElfSharedObject>,
    sects: OutputSectionList,
    interp: Seq<u8>,
    dynsym: Seq<Elf64_Sym>,
    dynstr: Strtab,
    hash: Seq<u8>,
    ndyn: int,
) -> bool {
    &&& parse_error(img) is None
    &&& spec_shnum(img) == 14
    &&& spec_shstrndx(img) == 13
    &&& forall|j: int|
        0 <= j < 14 ==> #[trigger] shdr_at(img, spec_shoff(img), j) == output_shdrs(
            shared,
            sects,
            interp,
            dynsym,
            dynstr,
            hash,
            ndyn,
        )[j]
    &&& forall|j: int| 0 <= j < 14 ==> #[trigger] section_name_at(img, j) == output_section_names()[j]
}

/// The executable is one that the linker's reader reads without error: its
/// file header is well formed and names the last section header as that of
/// `.shstrtab`, its section headers read back as written, `.shstrtab` lies in
/// the file, and every section is named, as written.
pub proof fn lemma_output_parses(
    img: Seq<u8>,
    shared: Seq<ElfSharedObject>,
    sects: OutputSectionList,
    entry: int,
    interp: Seq<u8>,
    dynsym: Seq<Elf64_Sym>,
    dynstr: Strtab,
    hash: Seq<u8>,
    ndyn: int,
)
    requires
        is_output(img, shared, sects, entry, interp, dynsym, dynstr, hash, ndyn),
        ndyn >= 0,
        file_layout(
            sects.text.spec_len() as int,
            sects.plt.spec_len() as int,
            sects.rodata.spec_len() as int,
            interp.len() as int,
            (24 * dynsym.len()) as int,
            dynstr.bytes@.len() as int,
            hash.len() as int,
            24 * ndyn,
            (16 * (shared.len() + 10)) as int,
            sects.data.spec_len() as int,
            strtab_build(shstrtab_names()).0.len() as int,
        )[11] + 14 * 64 <= usize::MAX,
    ensures
        parse_error(img) is None,
        spec_shnum(img) == 14,
        spec_shstrndx(img) == 13,
        forall|j: int|
            0 <= j < 14 ==> #[trigger] shdr_at(img, spec_shoff(img), j) == output_shdrs(
                shared,
                sects,
                interp,
                dynsym,
                dynstr,
                hash,
                ndyn,
            )[j],
        forall|j: int| 0 <= j < 14 ==> #[trigger] section_name_at(img, j) == output_section_names()[j],
{
    let sh = strtab_build(shstrtab_names());
    let layout = layout_for(
        sects,
        interp.len() as int,
        (24 * dynsym.len()) as int,
        dynstr.bytes@.len() as int,
        hash.len() as int,
        24 * ndyn,
        (16 * (shared.len() + 10)) as int,
        sh.0.len() as int,
    );
    let shdrs = spec_shdrs(sects, layout, sh.1, sh.0.len() as int);
    lemma_output_reads_back(img, shared, sects, entry, interp, dynsym, dynstr, hash, ndyn);
    reveal(reads_back);
    reveal(parts_at);
    let h = choose|h: Elf64_Ehdr| ehdr_is(h, entry, layout.shdrs as int, 5, 14) && ehdr_matches(h, img.subrange(0, 64));
    lemma_strtab_wf(shstrtab_names());
    lemma_strtab_has_names(shstrtab_names());
    assert forall|i: int| 0 <= i < 13 implies sh.1.contains_key(#[trigger] shstrtab_names()[i]) && sh.1[shstrtab_names()[i]]
        < 0x1_0000_0000 by {
        crate::linker::output::lemma_shstrtab_names_len();
        crate::linker::output::lemma_strtab_len(shstrtab_names());
        let n = shstrtab_names()[i];
        assert(strtab_build(shstrtab_names()).1.contains_key(n));
        assert(sh.1[n] + n.len() < sh.0.len());
    }
    lemma_shdrs_fields(sects, layout, sh.1, sh.0.len() as int);
    assert(reads_back_parts(
        img,
        sects,
        layout,
        dynsym,
        spec_rela_plt(sects.got.base as int, ndyn),
        spec_dynamic(sects, layout, dynstr.spec_table().1, shared),
        shdrs,
    ));
    lemma_file_parses(img, h, entry, layout.shdrs as int, shdrs);
}

/// The executable that the linker writes is read back by the linker's own
/// reader without error, with its fourteen sections named as written and the
/// last of them holding the section names.
pub proof fn lemma_linked_parses(
    objs: Seq<ElfObject>,
    shared: Seq<ElfSharedObject>,
    dyn_linker: Option<Vec<u8>>,
    img: Seq<u8>,
)
    requires
        linked(objs, shared, dyn_linker, img),
    ensures
        parse_error(img) is None,
        spec_shnum(img) == 14,
        spec_shstrndx(img) == 13,
        forall|j: int| 0 <= j < 14 ==> #[trigger] section_name_at(img, j) == output_section_names()[j],
{
    let (resolved, d, dynstr, merged, filled, plt, out) = choose|
        resolved: Seq<ElfObject>,
        d: Seq<DynSymEntry>,
        dynstr: Strtab,
        merged: OutputSectionList,
        filled: OutputSectionList,
        plt: Seq<u8>,
        out: OutputSectionList,
    | linked_with(objs, shared, dyn_linker, img, resolved, d, dynstr, merged, filled, plt, out);
    let n = d.len() as int;
    let interp = spec_interp(dyn_linker);
    let hash = records_bytes(single_bucket_words(n + 1));
    let dynsym = spec_dynsym(d, dynstr.spec_table().1);
    let sl = strtab_build(shstrtab_names()).0.len() as int;
    crate::linker::output::lemma_shstrtab_names_len();
    crate::linker::output::lemma_strtab_len(shstrtab_names());
    assert(dynsym.len() == n + 1);
    lemma_output_parses(img, shared, out, entry_point(resolved, out)->Ok_0, interp, dynsym, dynstr, hash, n);
}

} // verus!
