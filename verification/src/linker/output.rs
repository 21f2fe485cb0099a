//! Writing the executable: its string tables, its headers, and the layout of
//! its file.
use vstd::prelude::*;

use crate::codec::{EHDR_SIZE, PHDR_SIZE, RELA_SIZE, SHDR_SIZE, SYM_SIZE, DYN_SIZE};
use crate::elf64::{
    spec_r_info, Elf64_Addr, Elf64_Ehdr, Elf64_Half, Elf64_Off, Elf64_Phdr, Elf64_Rela, Elf64_Shdr,
    Elf64_Xword, ELF64_R_INFO, ELFCLASS64, ELFDATA2LSB, ELFMAG0, ELFMAG1, ELFMAG2, ELFMAG3,
    ELFOSABI_LINUX, EM_X86_64, ET_EXEC, EV_CURRENT, PF_R, PF_W, PF_X, PT_DYNAMIC, PT_INTERP, PT_LOAD,
    R_X86_64_JUMP_SLOT, SHF_ALLOC, SHF_EXECINSTR, SHF_WRITE, SHT_DYNAMIC, SHT_DYNSYM, SHT_HASH,
    SHT_NOBITS, SHT_NULL, SHT_PROGBITS, SHT_RELA, SHT_STRTAB,
};
use crate::codec::{
    ehdr_bytes, ehdr_matches, lemma_ehdr_roundtrip, records_bytes, spec_dyn, spec_phdr, spec_rela, spec_shdr, spec_sym,
    write_ehdr, write_records, ElfRecord,
};
use crate::elf64::{Elf64_Dyn, Elf64_Sym};
use crate::linker::dynamic::{
    lemma_hash_bytes_len, needed_names, spec_dynamic, DynsymHashTable, DYNAMIC_FIXED_ENTRY_COUNT,
    GOT_ENTRY_BYTE_SIZE,
};
use crate::linker::section::{placed, push_zeros, zeros, OutputSection, OutputSectionBytesKind};
use crate::linker::symbol::DynSymEntry;
use crate::linker::ElfSharedObject;
use crate::linker::relocation::{address_defined, symbol_address_spec};
use crate::linker::reread::{lemma_output_parses, reads_as_output};
use crate::linker::symbol::lex_lt;
use crate::linker::{obj_syms, ElfObject, Linker, LinkerError, LinkerErrorView};
use crate::names::{
    bss_name, data_name, dynamic_name, dynstr_name, dynsym_name, got_name, hash_name, interp_name, plt_name,
    rela_plt_name, rodata_name, shstrtab_name, spec_bss_name, spec_data_name, spec_dynamic_name, spec_dynstr_name,
    spec_dynsym_name, spec_got_name, spec_hash_name, spec_interp_name, spec_plt_name, spec_rela_plt_name,
    spec_rodata_name, spec_shstrtab_name, spec_start_name, spec_text_name, start_name, text_name,
};
use crate::elf64::spec_is_resolved_index;
use crate::linker::section::{PAGE_SIZE, TEXT_BASE_ADDR, align_to_page, page_align, OutputSectionList, OUTPUT_ELF_HEADER_RESERVED_SIZE};
use crate::parser::{bytes_eq, copy_bytes, cstr_at, first_nul};

verus! {

/// An entry of a string table: a name and where it starts in the table.
pub struct StrtabEntry {
    pub name: Vec<u8>,
    pub offset: u32,
}

/// The bytes of a string table (`.shstrtab`, `.dynstr`), and where each of
/// its names starts in them.
pub struct Strtab {
    pub bytes: Vec<u8>,
    pub offsets: Vec<StrtabEntry>,
}

/// The string table of `strs`: a NUL byte, then each name once, in the order
/// of first occurrence, each followed by a NUL byte; and where each name
/// starts.
pub open spec fn strtab_build(strs: Seq<Seq<u8>>) -> (Seq<u8>, Map<Seq<u8>, nat>)
    decreases strs.len(),
{
    if strs.len() == 0 {
        (seq![0u8], Map::empty())
    } else {
        let (b, m) = strtab_build(strs.drop_last());
        let n = strs.last();
        if m.contains_key(n) {
            (b, m)
        } else {
            (b + n + seq![0u8], m.insert(n, b.len()))
        }
    }
}

/// The bytes that the names take, each with its NUL byte, counting repeats.
pub open spec fn total_len(strs: Seq<Seq<u8>>) -> nat
    decreases strs.len(),
{
    if strs.len() == 0 {
        0
    } else {
        total_len(strs.drop_last()) + strs.last().len() + 1
    }
}

/// The names of a list of byte strings.
pub open spec fn views(strs: Seq<Vec<u8>>) -> Seq<Seq<u8>> {
    strs.map_values(|v: Vec<u8>| v@)
}

/// Where the entries say each name starts.
pub open spec fn offsets_map(v: Seq<StrtabEntry>) -> Map<Seq<u8>, nat> {
    Map::new(
        |n: Seq<u8>| exists|j: int| 0 <= j < v.len() && (#[trigger] v[j]).name@ == n,
        |n: Seq<u8>| v[choose|j: int| 0 <= j < v.len() && (#[trigger] v[j]).name@ == n].offset as nat,
    )
}

/// No two entries have the same name.
pub open spec fn entries_distinct(v: Seq<StrtabEntry>) -> bool {
    forall|j1: int, j2: int|
        0 <= j1 < v.len() && 0 <= j2 < v.len() && j1 != j2 ==> (#[trigger] v[j1]).name@ != (#[trigger] v[j2]).name@
}

impl Strtab {
    /// The table as a byte string and a map from names to offsets.
    pub open spec fn spec_table(&self) -> (Seq<u8>, Map<Seq<u8>, nat>) {
        (self.bytes@, offsets_map(self.offsets@))
    }
}

pub proof fn lemma_strtab_len(strs: Seq<Seq<u8>>)
    ensures
        strtab_build(strs).0.len() <= 1 + total_len(strs),
        strtab_build(strs).0.len() >= 1,
    decreases strs.len(),
{
    if strs.len() > 0 {
        lemma_strtab_len(strs.drop_last());
    }
}

/// The table of a prefix of the names is no longer than the table of all of
/// them.
pub proof fn lemma_strtab_prefix_len(strs: Seq<Seq<u8>>, i: int)
    requires
        0 <= i <= strs.len(),
    ensures
        strtab_build(strs.take(i)).0.len() <= strtab_build(strs).0.len(),
    decreases strs.len(),
{
    if i == strs.len() {
        assert(strs.take(i) =~= strs);
    } else {
        assert(strs.take(i) =~= strs.drop_last().take(i));
        lemma_strtab_prefix_len(strs.drop_last(), i);
    }
}

/// The bytes that a string table takes for `strs`, at most: one byte, and
/// each name with its NUL byte; `None` when that does not fit a machine word.
pub fn strtab_size_bound(strs: &Vec<Vec<u8>>) -> (r: Option<usize>)
    ensures
        match r {
            Some(n) => n == 1 + total_len(views(strs@)),
            None => 1 + total_len(views(strs@)) > usize::MAX,
        },
{
    let mut total: usize = 1;
    let mut i: usize = 0;
    while i < strs.len()
        invariant
            0 <= i <= strs@.len(),
            total == 1 + total_len(views(strs@).take(i as int)),
        decreases strs@.len() - i,
    {
        assert(views(strs@).take(i + 1).drop_last() =~= views(strs@).take(i as int));
        let l = strs[i].len();
        assert(views(strs@).take(i + 1).last() == strs@[i as int]@);
        assert(total_len(views(strs@).take(i + 1)) == total_len(views(strs@).take(i as int)) + l + 1);
        if l > usize::MAX - total || l + total == usize::MAX {
            proof {
                lemma_total_len_mono(views(strs@), i + 1, strs@.len() as int);
                assert(views(strs@).take(strs@.len() as int) =~= views(strs@));
            }
            return None;
        }
        total = total + l + 1;
        i = i + 1;
    }
    assert(views(strs@).take(strs@.len() as int) =~= views(strs@));
    Some(total)
}

proof fn lemma_total_len_mono(strs: Seq<Seq<u8>>, a: int, b: int)
    requires
        0 <= a <= b <= strs.len(),
    ensures
        total_len(strs.take(a)) <= total_len(strs.take(b)),
    decreases b - a,
{
    if a < b {
        lemma_total_len_mono(strs, a, b - 1);
        assert(strs.take(b).drop_last() =~= strs.take(b - 1));
    }
    if b == strs.len() {
        assert(strs.take(b) =~= strs);
    }
}

/// Every name of a string table sits at its offset, followed by a NUL byte.
pub open spec fn strtab_wf(b: Seq<u8>, m: Map<Seq<u8>, nat>) -> bool {
    &&& b.len() >= 1
    &&& b[0] == 0
    &&& forall|n: Seq<u8>|
        #[trigger] m.contains_key(n) ==> m[n] + n.len() < b.len() && b.subrange(
            m[n] as int,
            (m[n] + n.len()) as int,
        ) == n && b[(m[n] + n.len()) as int] == 0
}

pub proof fn lemma_strtab_wf(strs: Seq<Seq<u8>>)
    ensures
        strtab_wf(strtab_build(strs).0, strtab_build(strs).1),
    decreases strs.len(),
{
    if strs.len() > 0 {
        lemma_strtab_wf(strs.drop_last());
        let (b, m) = strtab_build(strs.drop_last());
        let n = strs.last();
        if !m.contains_key(n) {
            let b2 = b + n + seq![0u8];
            let m2 = m.insert(n, b.len());
            assert forall|x: Seq<u8>| #[trigger] m2.contains_key(x) implies m2[x] + x.len() < b2.len()
                && b2.subrange(m2[x] as int, (m2[x] + x.len()) as int) == x && b2[(m2[x] + x.len()) as int] == 0 by {
                if x == n {
                    assert(b2.subrange(b.len() as int, (b.len() + n.len()) as int) =~= n);
                } else {
                    assert(m.contains_key(x));
                    assert(b2.subrange(m[x] as int, (m[x] + x.len()) as int) =~= b.subrange(
                        m[x] as int,
                        (m[x] + x.len()) as int,
                    ));
                }
            }
        }
    }
}

/// The first NUL byte after `start` ends a run of non-NUL bytes.
pub proof fn lemma_first_nul_after_run(tab: Seq<u8>, start: int, end: int)
    requires
        0 <= start <= end < tab.len(),
        tab[end] == 0,
        forall|k: int| start <= k < end ==> tab[k] != 0,
    ensures
        first_nul(tab, start) == end,
    decreases end - start,
{
    if start < end {
        lemma_first_nul_after_run(tab, start + 1, end);
    }
}

/// Reading a string table at the offset of a name that holds no NUL byte
/// gives back the name.
pub proof fn lemma_strtab_lookup(strs: Seq<Seq<u8>>, n: Seq<u8>)
    requires
        strtab_build(strs).1.contains_key(n),
        forall|k: int| 0 <= k < n.len() ==> n[k] != 0,
    ensures
        cstr_at(strtab_build(strs).0, strtab_build(strs).1[n] as int) == n,
{
    lemma_strtab_wf(strs);
    let (b, m) = strtab_build(strs);
    let off = m[n] as int;
    assert forall|k: int| off <= k < off + n.len() implies b[k] != 0 by {
        assert(b.subrange(off, off + n.len())[k - off] == n[k - off]);
    }
    lemma_first_nul_after_run(b, off, off + n.len());
}

proof fn lemma_offsets_map_push(v: Seq<StrtabEntry>, e: StrtabEntry)
    requires
        entries_distinct(v),
        forall|j: int| 0 <= j < v.len() ==> (#[trigger] v[j]).name@ != e.name@,
    ensures
        entries_distinct(v.push(e)),
        offsets_map(v.push(e)) == offsets_map(v).insert(e.name@, e.offset as nat),
{
    let w = v.push(e);
    assert forall|j1: int, j2: int|
        0 <= j1 < w.len() && 0 <= j2 < w.len() && j1 != j2 implies (#[trigger] w[j1]).name@ != (#[trigger] w[j2]).name@ by {
        if j1 < v.len() && j2 < v.len() {
            assert(w[j1] == v[j1] && w[j2] == v[j2]);
        } else if j1 < v.len() {
            assert(w[j1] == v[j1]);
        } else {
            assert(w[j2] == v[j2]);
        }
    }
    let a = offsets_map(w);
    let b = offsets_map(v).insert(e.name@, e.offset as nat);
    assert forall|n: Seq<u8>| a.contains_key(n) == b.contains_key(n) by {
        if a.contains_key(n) {
            let j = choose|j: int| 0 <= j < w.len() && (#[trigger] w[j]).name@ == n;
            if j < v.len() {
                assert(w[j] == v[j]);
                assert(offsets_map(v).contains_key(n));
            }
        }
        if offsets_map(v).contains_key(n) {
            let j = choose|j: int| 0 <= j < v.len() && (#[trigger] v[j]).name@ == n;
            assert(w[j] == v[j]);
        }
        if n == e.name@ {
            assert(w[v.len() as int] == e);
        }
    }
    assert forall|n: Seq<u8>| a.contains_key(n) implies a[n] == b[n] by {
        let j = choose|j: int| 0 <= j < w.len() && (#[trigger] w[j]).name@ == n;
        if n == e.name@ {
            if j < v.len() {
                assert(w[j] == v[j]);
            }
        } else {
            assert(j < v.len());
            assert(w[j] == v[j]);
            let j2 = choose|j2: int| 0 <= j2 < v.len() && (#[trigger] v[j2]).name@ == n;
            assert(j2 == j);
        }
    }
    assert(a =~= b);
}

/// The index of the entry named `name`, if there is one.
fn find_entry(offsets: &Vec<StrtabEntry>, name: &[u8]) -> (r: Option<usize>)
    ensures
        match r {
            Some(j) => j < offsets@.len() && offsets@[j as int].name@ == name@,
            None => forall|j: int| 0 <= j < offsets@.len() ==> (#[trigger] offsets@[j]).name@ != name@,
        },
{
    let mut j: usize = 0;
    while j < offsets.len()
        invariant
            0 <= j <= offsets@.len(),
            forall|j2: int| 0 <= j2 < j ==> (#[trigger] offsets@[j2]).name@ != name@,
        decreases offsets@.len() - j,
    {
        if bytes_eq(offsets[j].name.as_slice(), name) {
            return Some(j);
        }
        j = j + 1;
    }
    None
}

impl Strtab {
    /// Builds the string table of `strs`: a NUL byte for the null name, then
    /// each name once, in the order of first occurrence, each followed by a
    /// NUL byte.
    pub fn new(strs: Vec<Vec<u8>>) -> (r: Self)
        requires
            strtab_build(views(strs@)).0.len() <= u32::MAX + 1,
        ensures
            r.spec_table() == strtab_build(views(strs@)),
            entries_distinct(r.offsets@),
            forall|i: int| 0 <= i < strs@.len() ==> r.spec_table().1.contains_key(#[trigger] strs@[i]@),
            forall|n: Seq<u8>|
                #[trigger] r.spec_table().1.contains_key(n) && (forall|k: int| 0 <= k < n.len() ==> n[k] != 0)
                    ==> cstr_at(r.bytes@, r.spec_table().1[n] as int) == n,
    {
        // the 0 at offset 0 is the name of the null section
        let mut bytes: Vec<u8> = vec![0u8];
        let mut offsets: Vec<StrtabEntry> = Vec::new();
        proof {
            assert(offsets_map(offsets@) =~= Map::<Seq<u8>, nat>::empty());
            assert(views(strs@).take(0) =~= Seq::<Seq<u8>>::empty());
        }
        let mut i: usize = 0;
        while i < strs.len()
            invariant
                0 <= i <= strs@.len(),
                strtab_build(views(strs@)).0.len() <= u32::MAX + 1,
                (bytes@, offsets_map(offsets@)) == strtab_build(views(strs@).take(i as int)),
                entries_distinct(offsets@),
            decreases strs@.len() - i,
        {
            let name = &strs[i];
            let ghost pre = views(strs@).take(i as int);
            proof {
                assert(views(strs@).take(i + 1).drop_last() =~= pre);
                assert(views(strs@).take(i + 1).last() == name@);
                lemma_strtab_prefix_len(views(strs@), i + 1);
            }
            let found = find_entry(&offsets, name.as_slice());
            if found.is_none() {
                let off = bytes.len() as u32;
                let ghost b0 = bytes@;
                let ghost old_offsets = offsets@;
                let mut k: usize = 0;
                while k < name.len()
                    invariant
                        0 <= k <= name@.len(),
                        bytes@ == b0 + name@.subrange(0, k as int),
                    decreases name@.len() - k,
                {
                    bytes.push(name[k]);
                    assert(name@.subrange(0, k + 1) =~= name@.subrange(0, k as int).push(name@[k as int]));
                    k = k + 1;
                }
                bytes.push(0);
                assert(name@.subrange(0, name@.len() as int) =~= name@);
                assert(bytes@ =~= b0 + name@ + seq![0u8]);
                proof {
                    assert(!offsets_map(offsets@).contains_key(name@));
                    lemma_offsets_map_push(offsets@, StrtabEntry { name: *name, offset: off });
                }
                offsets.push(StrtabEntry { name: copy_bytes(name.as_slice()), offset: off });
                proof {
                    lemma_offsets_map_push(offsets@.drop_last(), offsets@.last());
                    assert(offsets@.drop_last().push(offsets@.last()) =~= offsets@);
                    assert(off == b0.len());
                    assert(offsets_map(offsets@) == offsets_map(offsets@.drop_last()).insert(name@, off as nat));
                    assert(offsets@.drop_last() =~= old_offsets);
                    assert(strtab_build(views(strs@).take(i + 1)).1 == strtab_build(pre).1.insert(name@, b0.len()));
                    assert(bytes@ == strtab_build(views(strs@).take(i + 1)).0);
                }
            } else {
                proof {
                    assert(offsets_map(offsets@).contains_key(name@)) by {
                        assert(offsets@[found->Some_0 as int].name@ == name@);
                    }
                }
            }
            i = i + 1;
        }
        assert(views(strs@).take(strs@.len() as int) =~= views(strs@));
        proof {
            let all = views(strs@);
            lemma_strtab_has_names(all);
            assert forall|i: int| 0 <= i < strs@.len() implies strtab_build(all).1.contains_key(#[trigger] strs@[i]@) by {
                assert(all[i] == strs@[i]@);
            }
            assert forall|n: Seq<u8>|
                #[trigger] strtab_build(all).1.contains_key(n) && (forall|k: int| 0 <= k < n.len() ==> n[k] != 0)
                    implies cstr_at(strtab_build(all).0, strtab_build(all).1[n] as int) == n by {
                lemma_strtab_lookup(all, n);
            }
        }
        Strtab { bytes, offsets }
    }

    /// The offset of `name` in the table.
    pub fn offset_of(&self, name: &[u8]) -> (r: u32)
        requires
            self.spec_table().1.contains_key(name@),
            entries_distinct(self.offsets@),
        ensures
            r == self.spec_table().1[name@],
    {
        match find_entry(&self.offsets, name) {
            Some(j) => {
                proof {
                    let c = choose|c: int| 0 <= c < self.offsets@.len() && (#[trigger] self.offsets@[c]).name@ == name@;
                    assert(self.offsets@[c].name@ == self.offsets@[j as int].name@);
                    assert(c == j as int);
                }
                self.offsets[j].offset
            },
            None => 0,
        }
    }
}

/// Where each part of the output lies in its file, and the lengths of the
/// dynamic linking tables.
pub struct OutputFileLayout {
    pub text: usize,
    pub plt: usize,
    pub rodata: usize,
    pub interp: usize,
    pub dynsym: usize,
    pub dynstr: usize,
    pub hash: usize,
    pub rela_plt: usize,
    pub dynamic: usize,
    pub data: usize,
    pub shstrtab: usize,
    pub shdrs: usize,
    pub interp_len: usize,
    pub dynsym_len: usize,
    pub dynstr_len: usize,
    pub hash_len: usize,
    pub rela_plt_len: usize,
    pub dynamic_len: usize,
}

/// The file offsets of the parts of the output, from their lengths: the
/// headers, `.text` and `.plt` (loaded read and execute); from the next page
/// `.rodata`, `.interp`, `.dynsym`, `.dynstr`, `.hash`, `.rela.plt` and
/// `.dynamic` (loaded read only); from the next page `.data` (loaded read and
/// write; `.bss` and `.got` take no bytes of the file); then `.shstrtab` and
/// the section headers, which are not loaded.
pub open spec fn file_layout(
    tl: int,
    pl: int,
    rl: int,
    il: int,
    dsl: int,
    dstl: int,
    hl: int,
    rpl: int,
    dyl: int,
    dl: int,
    sl: int,
) -> Seq<int> {
    let text = OUTPUT_ELF_HEADER_RESERVED_SIZE as int;
    let plt = text + tl;
    let rodata = page_align(plt + pl);
    let interp = rodata + rl;
    let dynsym = interp + il;
    let dynstr = dynsym + dsl;
    let hash = dynstr + dstl;
    let rela_plt = hash + hl;
    let dynamic = rela_plt + rpl;
    let data = page_align(dynamic + dyl);
    let shstrtab = data + dl;
    let shdrs = shstrtab + sl;
    seq![text, plt, rodata, interp, dynsym, dynstr, hash, rela_plt, dynamic, data, shstrtab, shdrs]
}

impl OutputFileLayout {
    /// The offsets of the layout, in file order.
    pub open spec fn offsets(&self) -> Seq<int> {
        seq![
            self.text as int,
            self.plt as int,
            self.rodata as int,
            self.interp as int,
            self.dynsym as int,
            self.dynstr as int,
            self.hash as int,
            self.rela_plt as int,
            self.dynamic as int,
            self.data as int,
            self.shstrtab as int,
            self.shdrs as int,
        ]
    }

    /// The layout of a file whose sections are `sects` and whose dynamic
    /// linking tables and section name table have the given lengths; `None`
    /// when the file would not fit the address space with its 14 section
    /// headers.
    pub fn new(
        sects: &OutputSectionList,
        interp_len: usize,
        dynsym_len: usize,
        dynstr_len: usize,
        hash_len: usize,
        rela_plt_len: usize,
        dynamic_len: usize,
        shstrtab_len: usize,
    ) -> (r: Option<Self>)
        ensures
            ({
                let f = file_layout(
                    sects.text.spec_len() as int,
                    sects.plt.spec_len() as int,
                    sects.rodata.spec_len() as int,
                    interp_len as int,
                    dynsym_len as int,
                    dynstr_len as int,
                    hash_len as int,
                    rela_plt_len as int,
                    dynamic_len as int,
                    sects.data.spec_len() as int,
                    shstrtab_len as int,
                );
                match r {
                    Some(l) => l.offsets() == f && f[11] + 14 * 64 <= usize::MAX && l.interp_len
                        == interp_len && l.dynsym_len == dynsym_len && l.dynstr_len == dynstr_len
                        && l.hash_len == hash_len && l.rela_plt_len == rela_plt_len && l.dynamic_len
                        == dynamic_len,
                    None => f[11] + 14 * 64 > usize::MAX,
                }
            }),
    {
        let tl = sects.text.bytes_len();
        let pl = sects.plt.bytes_len();
        let rl = sects.rodata.bytes_len();
        let dl = sects.data.bytes_len();
        // segments loaded in memory at run time:
        // R-X
        let text = OUTPUT_ELF_HEADER_RESERVED_SIZE;
        if tl > usize::MAX - text {
            return None;
        }
        let plt = text + tl;
        if pl > usize::MAX - plt {
            return None;
        }
        // R--
        let rodata = match align_to_page(plt + pl) {
            Some(v) => v,
            None => {
                return None;
            },
        };
        if rl > usize::MAX - rodata {
            return None;
        }
        let interp = rodata + rl;
        if interp_len > usize::MAX - interp {
            return None;
        }
        let dynsym = interp + interp_len;
        if dynsym_len > usize::MAX - dynsym {
            return None;
        }
        let dynstr = dynsym + dynsym_len;
        if dynstr_len > usize::MAX - dynstr {
            return None;
        }
        let hash = dynstr + dynstr_len;
        if hash_len > usize::MAX - hash {
            return None;
        }
        let rela_plt = hash + hash_len;
        if rela_plt_len > usize::MAX - rela_plt {
            return None;
        }
        let dynamic = rela_plt + rela_plt_len;
        if dynamic_len > usize::MAX - dynamic {
            return None;
        }
        // RW-
        let data = match align_to_page(dynamic + dynamic_len) {
            Some(v) => v,
            None => {
                return None;
            },
        };
        // .bss and .got take no bytes of the file
        // only in the file (not loaded):
        if dl > usize::MAX - data {
            return None;
        }
        let shstrtab = data + dl;
        if shstrtab_len > usize::MAX - shstrtab {
            return None;
        }
        let shdrs = shstrtab + shstrtab_len;
        if shdrs > usize::MAX - 14 * 64 {
            return None;
        }
        let l = OutputFileLayout {
            text,
            plt,
            rodata,
            interp,
            dynsym,
            dynstr,
            hash,
            rela_plt,
            dynamic,
            data,
            shstrtab,
            shdrs,
            interp_len,
            dynsym_len,
            dynstr_len,
            hash_len,
            rela_plt_len,
            dynamic_len,
        };
        assert(l.offsets() =~= file_layout(
            tl as int,
            pl as int,
            rl as int,
            interp_len as int,
            dynsym_len as int,
            dynstr_len as int,
            hash_len as int,
            rela_plt_len as int,
            dynamic_len as int,
            dl as int,
            shstrtab_len as int,
        ));
        Some(l)
    }

    /// The address, in the read-only segment, of a file offset in it.
    pub fn addr_in_rodata_segment(&self, sects: &OutputSectionList, file_offset: usize) -> (r: usize)
        requires
            self.rodata <= file_offset,
            sects.rodata.base + (file_offset - self.rodata) <= usize::MAX,
        ensures
            r == sects.rodata.base + (file_offset - self.rodata),
    {
        sects.rodata.base + (file_offset - self.rodata)
    }
}

/// `h` is the file header of the executable: an x86_64 ELF64 executable for
/// Linux with entry point `entry`, its program headers right after the file
/// header and its section headers at `shoff`, the last of which is that of
/// `.shstrtab`; the counts are cut to 16 bits.
pub open spec fn ehdr_is(h: Elf64_Ehdr, entry: int, shoff: int, phnum: int, shnum: int) -> bool {
    &&& h.e_ident@ == seq![
        ELFMAG0,
        ELFMAG1,
        ELFMAG2,
        ELFMAG3,
        ELFCLASS64,
        ELFDATA2LSB,
        EV_CURRENT as u8,
        ELFOSABI_LINUX,
        0u8,
        0u8,
        0u8,
        0u8,
        0u8,
        0u8,
        0u8,
        0u8,
    ]
    &&& h.e_type == ET_EXEC
    &&& h.e_machine == EM_X86_64
    &&& h.e_version == EV_CURRENT
    &&& h.e_entry == entry
    &&& h.e_phoff == 64
    &&& h.e_shoff == shoff
    &&& h.e_flags == 0
    &&& h.e_ehsize == 64
    &&& h.e_phentsize == 56
    &&& h.e_phnum == phnum as u16
    &&& h.e_shentsize == 64
    &&& h.e_shnum == shnum as u16
    &&& h.e_shstrndx == (shnum - 1) as u16
}

/// The address, in the read-only segment, of a file offset in it.
pub open spec fn ro_addr(sects: OutputSectionList, layout: OutputFileLayout, off: int) -> int {
    sects.rodata.base + (off - layout.rodata)
}

/// The program headers of the executable: the three loaded segments, then
/// `PT_INTERP` and `PT_DYNAMIC`.
pub open spec fn spec_phdrs(sects: OutputSectionList, layout: OutputFileLayout) -> Seq<Elf64_Phdr> {
    let text_size = (layout.text + sects.text.spec_len() + sects.plt.spec_len()) as u64;
    let rodata_size = (layout.dynamic + layout.dynamic_len - layout.rodata) as u64;
    let interp_addr = ro_addr(sects, layout, layout.interp as int) as u64;
    let dynamic_addr = ro_addr(sects, layout, layout.dynamic as int) as u64;
    seq![
        Elf64_Phdr {
            p_type: PT_LOAD,
            p_flags: PF_R | PF_X,
            p_offset: 0,
            p_vaddr: TEXT_BASE_ADDR as u64,
            p_paddr: TEXT_BASE_ADDR as u64,
            p_filesz: text_size,
            p_memsz: text_size,
            p_align: PAGE_SIZE as u64,
        },
        Elf64_Phdr {
            p_type: PT_LOAD,
            p_flags: PF_R,
            p_offset: layout.rodata as u64,
            p_vaddr: sects.rodata.base as u64,
            p_paddr: sects.rodata.base as u64,
            p_filesz: rodata_size,
            p_memsz: rodata_size,
            p_align: PAGE_SIZE as u64,
        },
        Elf64_Phdr {
            p_type: PT_LOAD,
            p_flags: PF_R | PF_W,
            p_offset: layout.data as u64,
            p_vaddr: sects.data.base as u64,
            p_paddr: sects.data.base as u64,
            p_filesz: sects.data.spec_len() as u64,
            p_memsz: (sects.data.spec_len() + sects.bss.spec_len() + sects.got.spec_len()) as u64,
            p_align: PAGE_SIZE as u64,
        },
        Elf64_Phdr {
            p_type: PT_INTERP,
            p_flags: PF_R,
            p_offset: layout.interp as u64,
            p_vaddr: interp_addr,
            p_paddr: interp_addr,
            p_filesz: layout.interp_len as u64,
            p_memsz: layout.interp_len as u64,
            p_align: 1,
        },
        Elf64_Phdr {
            p_type: PT_DYNAMIC,
            p_flags: PF_R,
            p_offset: layout.dynamic as u64,
            p_vaddr: dynamic_addr,
            p_paddr: dynamic_addr,
            p_filesz: layout.dynamic_len as u64,
            p_memsz: layout.dynamic_len as u64,
            p_align: 8,
        },
    ]
}

/// The address in the read-only segment of the file offset `off` fits a
/// machine word, `off` lying at or after `.rodata`.
pub open spec fn ro_fits(sects: OutputSectionList, layout: OutputFileLayout, off: usize) -> bool {
    layout.rodata <= off && sects.rodata.base + (off - layout.rodata) <= usize::MAX
}

/// The sizes and addresses that the program headers take fit a machine
/// word: the text segment from the start of the file to the end of `.plt`,
/// the read-only segment from `.rodata` to the end of `.dynamic`, the
/// addresses of `.interp` and `.dynamic`, and the writable segment in
/// memory.
pub open spec fn phdrs_fit(sects: OutputSectionList, layout: OutputFileLayout) -> bool {
    &&& layout.text + sects.text.spec_len() + sects.plt.spec_len() <= usize::MAX
    &&& layout.rodata <= layout.dynamic + layout.dynamic_len <= usize::MAX
    &&& ro_fits(sects, layout, layout.interp)
    &&& ro_fits(sects, layout, layout.dynamic)
    &&& sects.data.spec_len() + sects.bss.spec_len() + sects.got.spec_len() <= usize::MAX
}

/// The addresses and offsets that the section headers take fit a machine
/// word: those of the dynamic linking tables in the read-only segment, and
/// the file offsets of `.bss` and `.got` after `.data`.
pub open spec fn shdrs_fit(sects: OutputSectionList, layout: OutputFileLayout) -> bool {
    &&& ro_fits(sects, layout, layout.interp)
    &&& ro_fits(sects, layout, layout.dynsym)
    &&& ro_fits(sects, layout, layout.dynstr)
    &&& ro_fits(sects, layout, layout.hash)
    &&& ro_fits(sects, layout, layout.rela_plt)
    &&& ro_fits(sects, layout, layout.dynamic)
    &&& layout.data + sects.data.spec_len() + sects.bss.spec_len() <= usize::MAX
}

/// The string table holds the name of each section of the output, and no
/// name twice.
pub open spec fn has_shstrtab_names(t: Strtab) -> bool {
    &&& forall|i: int| 0 <= i < shstrtab_names().len() ==> t.spec_table().1.contains_key(#[trigger] shstrtab_names()[i])
    &&& entries_distinct(t.offsets@)
}

impl<'a> Linker<'a> {
    /// The file header of the executable.
    pub fn generate_ehdr(&self, entry: usize, phdrs: &[Elf64_Phdr], shdrs: &[Elf64_Shdr], layout: &OutputFileLayout) -> (r:
        Elf64_Ehdr)
        requires
            1 <= shdrs@.len(),
        ensures
            ehdr_is(r, entry as int, layout.shdrs as int, phdrs@.len() as int, shdrs@.len() as int),
    {
        let h = Elf64_Ehdr {
            e_ident: [
                ELFMAG0,
                ELFMAG1,
                ELFMAG2,
                ELFMAG3,
                ELFCLASS64,
                ELFDATA2LSB,
                EV_CURRENT as u8,
                ELFOSABI_LINUX,
                0,
                0,
                0,
                0,
                0,
                0,
                0,
                0,
            ],
            e_type: ET_EXEC,
            e_machine: EM_X86_64,
            e_version: EV_CURRENT,
            e_entry: entry as Elf64_Addr,
            e_phoff: EHDR_SIZE as Elf64_Off,
            e_shoff: layout.shdrs as Elf64_Off,
            e_flags: 0,
            e_ehsize: EHDR_SIZE as Elf64_Half,
            e_phentsize: PHDR_SIZE as Elf64_Half,
            e_phnum: phdrs.len() as Elf64_Half,
            e_shentsize: SHDR_SIZE as Elf64_Half,
            e_shnum: shdrs.len() as Elf64_Half,
            // .shstrtab is the last section
            e_shstrndx: (shdrs.len() - 1) as Elf64_Half,
        };
        assert(h.e_ident@ =~= seq![
            ELFMAG0,
            ELFMAG1,
            ELFMAG2,
            ELFMAG3,
            ELFCLASS64,
            ELFDATA2LSB,
            EV_CURRENT as u8,
            ELFOSABI_LINUX,
            0u8,
            0u8,
            0u8,
            0u8,
            0u8,
            0u8,
            0u8,
            0u8,
        ]);
        h
    }

    /// The program headers of the executable.
    pub fn generate_phdrs(&self, sects: &OutputSectionList, layout: &OutputFileLayout) -> (r: Vec<Elf64_Phdr>)
        requires
            phdrs_fit(*sects, *layout),
        ensures
            r@ == spec_phdrs(*sects, *layout),
    {
        // headers + .text + .plt
        let text_size = (layout.text + sects.text.bytes_len() + sects.plt.bytes_len()) as Elf64_Xword;
        let text = Elf64_Phdr {
            p_type: PT_LOAD,
            p_flags: PF_R | PF_X,
            p_offset: 0,
            p_vaddr: TEXT_BASE_ADDR as Elf64_Addr,
            p_paddr: TEXT_BASE_ADDR as Elf64_Addr,
            p_filesz: text_size,
            p_memsz: text_size,
            p_align: PAGE_SIZE as Elf64_Xword,
        };
        // .rodata + .interp + .dynsym + .dynstr + .hash + .rela.plt + .dynamic:
        // the tables that the dynamic linker reads are in this segment too.
        let rodata_end = layout.dynamic + layout.dynamic_len;
        let rodata = Elf64_Phdr {
            p_type: PT_LOAD,
            p_flags: PF_R,
            p_offset: layout.rodata as Elf64_Off,
            p_vaddr: sects.rodata.base as Elf64_Addr,
            p_paddr: sects.rodata.base as Elf64_Addr,
            p_filesz: (rodata_end - layout.rodata) as Elf64_Xword,
            p_memsz: (rodata_end - layout.rodata) as Elf64_Xword,
            p_align: PAGE_SIZE as Elf64_Xword,
        };
        // .data + .bss + .got: .bss and .got take no bytes of the file, so the
        // segment is larger in memory than in the file by their sizes; the
        // loader fills the gap with zeros.
        let data = Elf64_Phdr {
            p_type: PT_LOAD,
            p_flags: PF_R | PF_W,
            p_offset: layout.data as Elf64_Off,
            p_vaddr: sects.data.base as Elf64_Addr,
            p_paddr: sects.data.base as Elf64_Addr,
            p_filesz: sects.data.bytes_len() as Elf64_Xword,
            p_memsz: (sects.data.bytes_len() + sects.bss.bytes_len() + sects.got.bytes_len()) as Elf64_Xword,
            p_align: PAGE_SIZE as Elf64_Xword,
        };
        let interp_addr = layout.addr_in_rodata_segment(sects, layout.interp);
        let interp = Elf64_Phdr {
            p_type: PT_INTERP,
            p_flags: PF_R,
            p_offset: layout.interp as Elf64_Off,
            p_vaddr: interp_addr as Elf64_Addr,
            p_paddr: interp_addr as Elf64_Addr,
            p_filesz: layout.interp_len as Elf64_Xword,
            p_memsz: layout.interp_len as Elf64_Xword,
            p_align: 1,
        };
        let dynamic_addr = layout.addr_in_rodata_segment(sects, layout.dynamic);
        let dynamic = Elf64_Phdr {
            p_type: PT_DYNAMIC,
            p_flags: PF_R,
            p_offset: layout.dynamic as Elf64_Off,
            p_vaddr: dynamic_addr as Elf64_Addr,
            p_paddr: dynamic_addr as Elf64_Addr,
            p_filesz: layout.dynamic_len as Elf64_Xword,
            p_memsz: layout.dynamic_len as Elf64_Xword,
            p_align: 8,
        };
        let r = vec![text, rodata, data, interp, dynamic];
        assert(r@ =~= spec_phdrs(*sects, *layout));
        r
    }
}

/// The names of the output's sections, in the order of their headers.
pub open spec fn shstrtab_names() -> Seq<Seq<u8>> {
    seq![
        spec_text_name(),
        spec_plt_name(),
        spec_rodata_name(),
        spec_interp_name(),
        spec_dynsym_name(),
        spec_dynstr_name(),
        spec_hash_name(),
        spec_rela_plt_name(),
        spec_dynamic_name(),
        spec_data_name(),
        spec_bss_name(),
        spec_got_name(),
        spec_shstrtab_name(),
    ]
}

/// The names of the output's sections, in the order of their headers.
pub fn shstrtab_name_list() -> (r: Vec<Vec<u8>>)
    ensures
        views(r@) == shstrtab_names(),
{
    let r = vec![
        text_name(),
        plt_name(),
        rodata_name(),
        interp_name(),
        dynsym_name(),
        dynstr_name(),
        hash_name(),
        rela_plt_name(),
        dynamic_name(),
        data_name(),
        bss_name(),
        got_name(),
        shstrtab_name(),
    ];
    assert(views(r@) =~= shstrtab_names());
    r
}

/// Every name of a list has an offset in its string table.
pub proof fn lemma_strtab_has_names(strs: Seq<Seq<u8>>)
    ensures
        forall|i: int| 0 <= i < strs.len() ==> #[trigger] strtab_build(strs).1.contains_key(strs[i]),
    decreases strs.len(),
{
    if strs.len() > 0 {
        lemma_strtab_has_names(strs.drop_last());
        assert forall|i: int| 0 <= i < strs.len() implies #[trigger] strtab_build(strs).1.contains_key(strs[i]) by {
            let m = strtab_build(strs.drop_last()).1;
            if i < strs.len() - 1 {
                assert(strs.drop_last()[i] == strs[i]);
                assert(m.contains_key(strs[i]));
            }
        }
    }
}

/// A section header.
pub open spec fn shdr(
    name: int,
    typ: u32,
    flags: u64,
    addr: int,
    offset: int,
    size: int,
    link: u32,
    info: u32,
    align: u64,
    entsize: u64,
) -> Elf64_Shdr {
    Elf64_Shdr {
        sh_name: name as u32,
        sh_type: typ,
        sh_flags: flags,
        sh_addr: addr as u64,
        sh_offset: offset as u64,
        sh_size: size as u64,
        sh_link: link,
        sh_info: info,
        sh_addralign: align,
        sh_entsize: entsize,
    }
}

/// The section headers of the executable, `names` giving the offset of each
/// name in `.shstrtab`, whose length is `shstrtab_len`: the null header, then
/// `.text`, `.plt`, `.rodata`, `.interp`, `.dynsym`, `.dynstr`, `.hash`,
/// `.rela.plt`, `.dynamic`, `.data`, `.bss`, `.got` and `.shstrtab`.
/// `.dynsym` and `.dynamic` link to `.dynstr` (index 6), `.hash` and
/// `.rela.plt` to `.dynsym` (index 5), and `.rela.plt` applies to `.plt`
/// (index 2).
pub open spec fn spec_shdrs(
    sects: OutputSectionList,
    layout: OutputFileLayout,
    names: Map<Seq<u8>, nat>,
    shstrtab_len: int,
) -> Seq<Elf64_Shdr> {
    let l = layout;
    seq![
        shdr(0, SHT_NULL, 0, 0, 0, 0, 0, 0, 0, 0),
        shdr(names[spec_text_name()] as int, SHT_PROGBITS, SHF_ALLOC | SHF_EXECINSTR, sects.text.base as int, l.text as int, sects.text.spec_len() as int, 0, 0, 1, 0),
        shdr(names[spec_plt_name()] as int, SHT_PROGBITS, SHF_ALLOC | SHF_EXECINSTR, sects.plt.base as int, l.plt as int, sects.plt.spec_len() as int, 0, 0, 1, 0),
        shdr(names[spec_rodata_name()] as int, SHT_PROGBITS, SHF_ALLOC, sects.rodata.base as int, l.rodata as int, sects.rodata.spec_len() as int, 0, 0, 1, 0),
        shdr(names[spec_interp_name()] as int, SHT_PROGBITS, SHF_ALLOC, ro_addr(sects, l, l.interp as int), l.interp as int, l.interp_len as int, 0, 0, 1, 0),
        shdr(names[spec_dynsym_name()] as int, SHT_DYNSYM, SHF_ALLOC, ro_addr(sects, l, l.dynsym as int), l.dynsym as int, l.dynsym_len as int, 6, 0, 8, SYM_SIZE as u64),
        shdr(names[spec_dynstr_name()] as int, SHT_STRTAB, SHF_ALLOC, ro_addr(sects, l, l.dynstr as int), l.dynstr as int, l.dynstr_len as int, 0, 0, 1, 0),
        shdr(names[spec_hash_name()] as int, SHT_HASH, SHF_ALLOC, ro_addr(sects, l, l.hash as int), l.hash as int, l.hash_len as int, 5, 0, 4, 0),
        shdr(names[spec_rela_plt_name()] as int, SHT_RELA, SHF_ALLOC, ro_addr(sects, l, l.rela_plt as int), l.rela_plt as int, l.rela_plt_len as int, 5, 2, 8, RELA_SIZE as u64),
        shdr(names[spec_dynamic_name()] as int, SHT_DYNAMIC, SHF_ALLOC | SHF_WRITE, ro_addr(sects, l, l.dynamic as int), l.dynamic as int, l.dynamic_len as int, 6, 0, 8, DYN_SIZE as u64),
        shdr(names[spec_data_name()] as int, SHT_PROGBITS, SHF_ALLOC | SHF_WRITE, sects.data.base as int, l.data as int, sects.data.spec_len() as int, 0, 0, 1, 0),
        shdr(names[spec_bss_name()] as int, SHT_NOBITS, SHF_ALLOC | SHF_WRITE, sects.bss.base as int, l.data + sects.data.spec_len(), sects.bss.spec_len() as int, 0, 0, 1, 0),
        shdr(names[spec_got_name()] as int, SHT_NOBITS, SHF_ALLOC | SHF_WRITE, sects.got.base as int, l.data + sects.data.spec_len() + sects.bss.spec_len(), sects.got.spec_len() as int, 0, 0, 8, 0),
        shdr(names[spec_shstrtab_name()] as int, SHT_STRTAB, 0, 0, l.shstrtab as int, shstrtab_len, 0, 0, 1, 0),
    ]
}

/// `.shstrtab` is the string table of the output's section names.
pub open spec fn is_shstrtab(t: Strtab) -> bool {
    &&& t.spec_table() == strtab_build(shstrtab_names())
    &&& entries_distinct(t.offsets@)
}

impl<'a> Linker<'a> {
    /// The section headers of the executable.
    pub fn generate_shdrs(&self, sects: &OutputSectionList, shstrtab: &Strtab, layout: &OutputFileLayout) -> (r: Vec<
        Elf64_Shdr,
    >)
        requires
            shdrs_fit(*sects, *layout),
            has_shstrtab_names(*shstrtab),
        ensures
            r@ == spec_shdrs(*sects, *layout, shstrtab.spec_table().1, shstrtab.bytes@.len() as int),
    {
        proof {
            assert(shstrtab.spec_table().1.contains_key(shstrtab_names()[0]));
            assert(shstrtab.spec_table().1.contains_key(shstrtab_names()[1]));
            assert(shstrtab.spec_table().1.contains_key(shstrtab_names()[2]));
            assert(shstrtab.spec_table().1.contains_key(shstrtab_names()[3]));
            assert(shstrtab.spec_table().1.contains_key(shstrtab_names()[4]));
            assert(shstrtab.spec_table().1.contains_key(shstrtab_names()[5]));
            assert(shstrtab.spec_table().1.contains_key(shstrtab_names()[6]));
            assert(shstrtab.spec_table().1.contains_key(shstrtab_names()[7]));
            assert(shstrtab.spec_table().1.contains_key(shstrtab_names()[8]));
            assert(shstrtab.spec_table().1.contains_key(shstrtab_names()[9]));
            assert(shstrtab.spec_table().1.contains_key(shstrtab_names()[10]));
            assert(shstrtab.spec_table().1.contains_key(shstrtab_names()[11]));
            assert(shstrtab.spec_table().1.contains_key(shstrtab_names()[12]));
        }
        let null = Elf64_Shdr {
            sh_name: 0,
            sh_type: SHT_NULL,
            sh_flags: 0,
            sh_addr: 0,
            sh_offset: 0,
            sh_size: 0,
            sh_link: 0,
            sh_info: 0,
            sh_addralign: 0,
            sh_entsize: 0,
        };
        let text = Elf64_Shdr {
            sh_name: shstrtab.offset_of(text_name().as_slice()),
            sh_type: SHT_PROGBITS,
            sh_flags: SHF_ALLOC | SHF_EXECINSTR,
            sh_addr: sects.text.base as Elf64_Addr,
            sh_offset: layout.text as Elf64_Off,
            sh_size: sects.text.bytes_len() as Elf64_Xword,
            sh_link: 0,
            sh_info: 0,
            sh_addralign: 1,
            sh_entsize: 0,
        };
        let plt = Elf64_Shdr {
            sh_name: shstrtab.offset_of(plt_name().as_slice()),
            sh_type: SHT_PROGBITS,
            sh_flags: SHF_ALLOC | SHF_EXECINSTR,
            sh_addr: sects.plt.base as Elf64_Addr,
            sh_offset: layout.plt as Elf64_Off,
            sh_size: sects.plt.bytes_len() as Elf64_Xword,
            sh_link: 0,
            sh_info: 0,
            sh_addralign: 1,
            sh_entsize: 0,
        };
        let rodata = Elf64_Shdr {
            sh_name: shstrtab.offset_of(rodata_name().as_slice()),
            sh_type: SHT_PROGBITS,
            sh_flags: SHF_ALLOC,
            sh_addr: sects.rodata.base as Elf64_Addr,
            sh_offset: layout.rodata as Elf64_Off,
            sh_size: sects.rodata.bytes_len() as Elf64_Xword,
            sh_link: 0,
            sh_info: 0,
            sh_addralign: 1,
            sh_entsize: 0,
        };
        let interp = Elf64_Shdr {
            sh_name: shstrtab.offset_of(interp_name().as_slice()),
            sh_type: SHT_PROGBITS,
            sh_flags: SHF_ALLOC,
            sh_addr: layout.addr_in_rodata_segment(sects, layout.interp) as Elf64_Addr,
            sh_offset: layout.interp as Elf64_Off,
            sh_size: layout.interp_len as Elf64_Xword,
            sh_link: 0,
            sh_info: 0,
            sh_addralign: 1,
            sh_entsize: 0,
        };
        let dynsym = Elf64_Shdr {
            sh_name: shstrtab.offset_of(dynsym_name().as_slice()),
            sh_type: SHT_DYNSYM,
            sh_flags: SHF_ALLOC,
            sh_addr: layout.addr_in_rodata_segment(sects, layout.dynsym) as Elf64_Addr,
            sh_offset: layout.dynsym as Elf64_Off,
            sh_size: layout.dynsym_len as Elf64_Xword,
            sh_link: 6,  // section index of .dynstr
            sh_info: 0,
            sh_addralign: 8,
            sh_entsize: SYM_SIZE as Elf64_Xword,
        };
        let dynstr = Elf64_Shdr {
            sh_name: shstrtab.offset_of(dynstr_name().as_slice()),
            sh_type: SHT_STRTAB,
            sh_flags: SHF_ALLOC,
            sh_addr: layout.addr_in_rodata_segment(sects, layout.dynstr) as Elf64_Addr,
            sh_offset: layout.dynstr as Elf64_Off,
            sh_size: layout.dynstr_len as Elf64_Xword,
            sh_link: 0,
            sh_info: 0,
            sh_addralign: 1,
            sh_entsize: 0,
        };
        let hash = Elf64_Shdr {
            sh_name: shstrtab.offset_of(hash_name().as_slice()),
            sh_type: SHT_HASH,
            sh_flags: SHF_ALLOC,
            sh_addr: layout.addr_in_rodata_segment(sects, layout.hash) as Elf64_Addr,
            sh_offset: layout.hash as Elf64_Off,
            sh_size: layout.hash_len as Elf64_Xword,
            sh_link: 5,  // section index of .dynsym
            sh_info: 0,
            sh_addralign: 4,
            sh_entsize: 0,
        };
        let rela_plt = Elf64_Shdr {
            sh_name: shstrtab.offset_of(rela_plt_name().as_slice()),
            sh_type: SHT_RELA,
            sh_flags: SHF_ALLOC,
            sh_addr: layout.addr_in_rodata_segment(sects, layout.rela_plt) as Elf64_Addr,
            sh_offset: layout.rela_plt as Elf64_Off,
            sh_size: layout.rela_plt_len as Elf64_Xword,
            sh_link: 5,  // section index of .dynsym
            sh_info: 2,  // section index of .plt
            sh_addralign: 8,
            sh_entsize: RELA_SIZE as Elf64_Xword,
        };
        let dynamic = Elf64_Shdr {
            sh_name: shstrtab.offset_of(dynamic_name().as_slice()),
            sh_type: SHT_DYNAMIC,
            sh_flags: SHF_ALLOC | SHF_WRITE,
            sh_addr: layout.addr_in_rodata_segment(sects, layout.dynamic) as Elf64_Addr,
            sh_offset: layout.dynamic as Elf64_Off,
            sh_size: layout.dynamic_len as Elf64_Xword,
            sh_link: 6,  // section index of .dynstr
            sh_info: 0,
            sh_addralign: 8,
            sh_entsize: DYN_SIZE as Elf64_Xword,
        };
        let data = Elf64_Shdr {
            sh_name: shstrtab.offset_of(data_name().as_slice()),
            sh_type: SHT_PROGBITS,
            sh_flags: SHF_ALLOC | SHF_WRITE,
            sh_addr: sects.data.base as Elf64_Addr,
            sh_offset: layout.data as Elf64_Off,
            sh_size: sects.data.bytes_len() as Elf64_Xword,
            sh_link: 0,
            sh_info: 0,
            sh_addralign: 1,
            sh_entsize: 0,
        };
        // .bss and .got take no bytes of the file (SHT_NOBITS), but still
        // get the offset at which they would start.
        let bss = Elf64_Shdr {
            sh_name: shstrtab.offset_of(bss_name().as_slice()),
            sh_type: SHT_NOBITS,
            sh_flags: SHF_ALLOC | SHF_WRITE,
            sh_addr: sects.bss.base as Elf64_Addr,
            sh_offset: (layout.data + sects.data.bytes_len()) as Elf64_Off,
            sh_size: sects.bss.bytes_len() as Elf64_Xword,
            sh_link: 0,
            sh_info: 0,
            sh_addralign: 1,
            sh_entsize: 0,
        };
        let got = Elf64_Shdr {
            sh_name: shstrtab.offset_of(got_name().as_slice()),
            sh_type: SHT_NOBITS,
            sh_flags: SHF_ALLOC | SHF_WRITE,
            sh_addr: sects.got.base as Elf64_Addr,
            sh_offset: (layout.data + sects.data.bytes_len() + sects.bss.bytes_len()) as Elf64_Off,
            sh_size: sects.got.bytes_len() as Elf64_Xword,
            sh_link: 0,
            sh_info: 0,
            sh_addralign: 8,
            sh_entsize: 0,
        };
        let shstrtab_shdr = Elf64_Shdr {
            sh_name: shstrtab.offset_of(shstrtab_name().as_slice()),
            sh_type: SHT_STRTAB,
            sh_flags: 0,
            sh_addr: 0,
            sh_offset: layout.shstrtab as Elf64_Off,
            sh_size: shstrtab.bytes.len() as Elf64_Xword,
            sh_link: 0,
            sh_info: 0,
            sh_addralign: 1,
            sh_entsize: 0,
        };
        // .shstrtab is the last section
        let r = vec![
            null,
            text,
            plt,
            rodata,
            interp,
            dynsym,
            dynstr,
            hash,
            rela_plt,
            dynamic,
            data,
            bss,
            got,
            shstrtab_shdr,
        ];
        assert(r@ =~= spec_shdrs(*sects, *layout, shstrtab.spec_table().1, shstrtab.bytes@.len() as int));
        r
    }
}

/// The relocations of `.rela.plt`: the `i`-th has the dynamic loader write
/// the address of the `(i + 1)`-th dynamic symbol into the `i`-th `.got`
/// slot.
pub open spec fn spec_rela_plt(got_base: int, n: int) -> Seq<Elf64_Rela> {
    Seq::new(
        n as nat,
        |i: int|
            Elf64_Rela {
                r_offset: (got_base + 8 * i) as u64,
                r_info: spec_r_info((i + 1) as u32, R_X86_64_JUMP_SLOT),
                r_addend: 0,
            },
    )
}

impl<'a> Linker<'a> {
    /// The relocations of `.rela.plt`, one `R_X86_64_JUMP_SLOT` per dynamic
    /// symbol.
    pub fn generate_rela_plt(&self, sects: &OutputSectionList, dynsyms_len: usize) -> (r: Vec<Elf64_Rela>)
        requires
            sects.got.base + 8 * dynsyms_len <= usize::MAX,
            dynsyms_len < u32::MAX,
        ensures
            r@ == spec_rela_plt(sects.got.base as int, dynsyms_len as int),
    {
        let mut r: Vec<Elf64_Rela> = Vec::new();
        let mut i: usize = 0;
        while i < dynsyms_len
            invariant
                0 <= i <= dynsyms_len,
                sects.got.base + 8 * dynsyms_len <= usize::MAX,
                dynsyms_len < u32::MAX,
                r@ == spec_rela_plt(sects.got.base as int, i as int),
            decreases dynsyms_len - i,
        {
            r.push(
                Elf64_Rela {
                    r_offset: (sects.got.base + i * GOT_ENTRY_BYTE_SIZE) as Elf64_Addr,
                    r_info: ELF64_R_INFO((i + 1) as u32, R_X86_64_JUMP_SLOT),
                    r_addend: 0,
                },
            );
            assert(r@ =~= spec_rela_plt(sects.got.base as int, i + 1));
            i = i + 1;
        }
        r
    }
}

/// The `k`-th symbol of the `o`-th object is `_start`, defined in a section
/// of its file.
pub open spec fn is_start(objs: Seq<ElfObject>, o: int, k: int) -> bool {
    &&& 0 <= o < objs.len()
    &&& 0 <= k < obj_syms(objs, o).len()
    &&& obj_syms(objs, o)[k].name@ == spec_start_name()
    &&& spec_is_resolved_index(obj_syms(objs, o)[k].sym.st_shndx)
}

/// `(o, k)` is the first `_start`, objects and symbols in order.
pub open spec fn is_first_start(objs: Seq<ElfObject>, o: int, k: int) -> bool {
    &&& is_start(objs, o, k)
    &&& forall|o2: int, k2: int| #[trigger] is_start(objs, o2, k2) ==> !lex_lt(o2, k2, o, k)
}

/// The entry point: the address of the first `_start`.
pub open spec fn entry_point(objs: Seq<ElfObject>, sects: OutputSectionList) -> Result<int, LinkerErrorView> {
    if exists|o: int, k: int| is_first_start(objs, o, k) {
        let (o, k) = choose|o: int, k: int| is_first_start(objs, o, k);
        symbol_address_spec(objs, sects, o, k)
    } else {
        Err(LinkerErrorView::EntryPointNotFound)
    }
}

/// The entry point depends only on where the sections that symbols live in
/// are placed and where the objects' sections start in them.
pub proof fn lemma_entry_point_stable(objs: Seq<ElfObject>, a: OutputSectionList, b: OutputSectionList)
    requires
        a.text.base == b.text.base && a.text.section_offsets == b.text.section_offsets,
        a.data.base == b.data.base && a.data.section_offsets == b.data.section_offsets,
        a.rodata.base == b.rodata.base && a.rodata.section_offsets == b.rodata.section_offsets,
        a.bss.base == b.bss.base && a.bss.section_offsets == b.bss.section_offsets,
    ensures
        entry_point(objs, a) == entry_point(objs, b),
{
    assert forall|o: int, k: int| symbol_address_spec(objs, a, o, k) == symbol_address_spec(objs, b, o, k) by {}
}

impl<'a> Linker<'a> {
    /// The address of the first symbol named `_start` that is defined in a
    /// section of its object, objects and symbols in order.
    pub fn find_entry_point(&self, sects: &OutputSectionList) -> (r: Result<usize, LinkerError>)
        requires
            forall|o: int, k: int| #[trigger] is_first_start(self.objs@, o, k) ==> address_defined(self.objs@, *sects, o, k),
        ensures
            match entry_point(self.objs@, *sects) {
                Ok(a) => r is Ok && r->Ok_0 == a,
                Err(e) => r is Err && r->Err_0@ == e,
            },
    {
        let ghost objs = self.objs@;
        let start = start_name();
        let mut obj_index: usize = 0;
        while obj_index < self.objs.len()
            invariant
                objs == self.objs@,
                forall|o: int, k: int| #[trigger] is_first_start(objs, o, k) ==> address_defined(objs, *sects, o, k),
                start@ == spec_start_name(),
                0 <= obj_index <= objs.len(),
                forall|o2: int, k2: int| #[trigger] is_start(objs, o2, k2) ==> o2 >= obj_index,
            decreases objs.len() - obj_index,
        {
            let syms = &self.objs[obj_index].symtab.syms;
            let mut k: usize = 0;
            while k < syms.len()
                invariant
                    objs == self.objs@,
                    forall|o: int, k: int| #[trigger] is_first_start(objs, o, k) ==> address_defined(objs, *sects, o, k),
                    start@ == spec_start_name(),
                    0 <= obj_index < objs.len(),
                    syms@ == obj_syms(objs, obj_index as int),
                    0 <= k <= syms@.len(),
                    forall|o2: int, k2: int| #[trigger] is_start(objs, o2, k2) ==> o2 > obj_index || (o2 == obj_index && k2 >= k),
                decreases syms@.len() - k,
            {
                if bytes_eq(syms[k].name.as_slice(), start.as_slice()) && syms[k].sym.is_resolved_index() {
                    proof {
                        assert(is_first_start(objs, obj_index as int, k as int));
                        let (o, kk) = choose|o: int, kk: int| is_first_start(objs, o, kk);
                        assert(!lex_lt(o, kk, obj_index as int, k as int));
                        assert(!lex_lt(obj_index as int, k as int, o, kk));
                    }
                    return self.symbol_address(obj_index, k, sects);
                }
                k = k + 1;
            }
            obj_index = obj_index + 1;
        }
        proof {
            assert forall|o: int, k: int| !is_first_start(objs, o, k) by {
                if is_first_start(objs, o, k) {
                    assert(is_start(objs, o, k));
                }
            }
        }
        Err(LinkerError::EntryPointNotFound)
    }
}

/// The bytes that a section takes in the file: its bytes, or as many zeros
/// as its length for a section that has only a length.
pub open spec fn file_bytes(s: OutputSection) -> Seq<u8> {
    match s.bytes {
        OutputSectionBytesKind::Bytes(b) => b@,
        OutputSectionBytesKind::NobitsLen(n) => zeros(n as int),
    }
}

/// Appends the bytes that a section takes in the file.
pub fn write_section_bytes(out: &mut Vec<u8>, sect: &OutputSection)
    ensures
        final(out)@ == old(out)@ + file_bytes(*sect),
{
    match &sect.bytes {
        OutputSectionBytesKind::Bytes(bytes) => {
            out.extend_from_slice(bytes.as_slice());
        },
        OutputSectionBytesKind::NobitsLen(n) => {
            push_zeros(out, *n);
        },
    }
}

/// The layout of the file, from the lengths of its parts.
pub open spec fn layout_for(
    sects: OutputSectionList,
    il: int,
    dsl: int,
    dstl: int,
    hl: int,
    rpl: int,
    dyl: int,
    sl: int,
) -> OutputFileLayout {
    let f = file_layout(
        sects.text.spec_len() as int,
        sects.plt.spec_len() as int,
        sects.rodata.spec_len() as int,
        il,
        dsl,
        dstl,
        hl,
        rpl,
        dyl,
        sects.data.spec_len() as int,
        sl,
    );
    OutputFileLayout {
        text: f[0] as usize,
        plt: f[1] as usize,
        rodata: f[2] as usize,
        interp: f[3] as usize,
        dynsym: f[4] as usize,
        dynstr: f[5] as usize,
        hash: f[6] as usize,
        rela_plt: f[7] as usize,
        dynamic: f[8] as usize,
        data: f[9] as usize,
        shstrtab: f[10] as usize,
        shdrs: f[11] as usize,
        interp_len: il as usize,
        dynsym_len: dsl as usize,
        dynstr_len: dstl as usize,
        hash_len: hl as usize,
        rela_plt_len: rpl as usize,
        dynamic_len: dyl as usize,
    }
}

/// The bytes of the executable, part after part: the file header, the
/// program headers, `.text` and `.plt`; zeros up to the next page; `.rodata`,
/// `.interp`, `.dynsym`, `.dynstr`, `.hash`, `.rela.plt` and `.dynamic`;
/// zeros up to the next page; `.data`, `.shstrtab` and the section headers.
pub open spec fn output_image(
    ehdr: Seq<u8>,
    sects: OutputSectionList,
    layout: OutputFileLayout,
    interp: Seq<u8>,
    dynsym: Seq<Elf64_Sym>,
    dynstr: Seq<u8>,
    hash: Seq<u8>,
    rela_plt: Seq<Elf64_Rela>,
    dynamic: Seq<Elf64_Dyn>,
    shstrtab: Seq<u8>,
    shdrs: Seq<Elf64_Shdr>,
) -> Seq<u8> {
    ehdr + records_bytes(spec_phdrs(sects, layout)) + file_bytes(sects.text) + file_bytes(sects.plt) + zeros(
        layout.rodata - layout.plt - sects.plt.spec_len(),
    ) + file_bytes(sects.rodata) + interp + records_bytes(dynsym) + dynstr + hash + records_bytes(rela_plt)
        + records_bytes(dynamic) + zeros(layout.data - layout.dynamic - layout.dynamic_len) + file_bytes(
        sects.data,
    ) + shstrtab + records_bytes(shdrs)
}

/// The bytes that the dynamic linking tables take after `.rodata`: `.interp`,
/// `.dynsym` (`nsyms` entries), `.dynstr`, `.hash`, `.rela.plt` (`ndyn`
/// relocations) and `.dynamic` (an entry for each of `nshared` shared
/// objects and the fixed entries).
pub open spec fn ro_extra_of(il: int, nsyms: int, dstl: int, hl: int, ndyn: int, nshared: int) -> int {
    il + 24 * nsyms + dstl + hl + 24 * ndyn + 16 * (nshared + 10)
}

/// `img` is the executable built from placed sections, its entry point, and
/// its dynamic linking tables: `.interp`, `.dynsym`, `.dynstr`, `.hash`;
/// `.rela.plt` and `.dynamic` as they follow from those, and `.shstrtab` and
/// the headers as they follow from the layout.
pub open spec fn is_output(
    img: Seq<u8>,
    shared: Seq<ElfSharedObject>,
    sects: OutputSectionList,
    entry: int,
    interp: Seq<u8>,
    dynsym: Seq<Elf64_Sym>,
    dynstr: Strtab,
    hash: Seq<u8>,
    ndyn: int,
) -> bool {
    let sh = strtab_build(shstrtab_names());
    let layout = layout_for(
        sects,
        interp.len() as int,
        (24 * dynsym.len()) as int,
        dynstr.bytes@.len() as int,
        hash.len() as int,
        24 * ndyn,
        (16 * (shared.len() + 10)) as int,
        sh.0.len() as int,
    );
    exists|h: Elf64_Ehdr|
        ehdr_is(h, entry, layout.shdrs as int, 5, 14) && is_image(
            img,
            ehdr_bytes(h),
            sects,
            layout,
            interp,
            dynsym,
            dynstr.bytes@,
            hash,
            spec_rela_plt(sects.got.base as int, ndyn),
            spec_dynamic(sects, layout, dynstr.spec_table().1, shared),
            sh.0,
            spec_shdrs(sects, layout, sh.1, sh.0.len() as int),
        )
}

/// The names of the output's sections take 94 bytes with their NUL bytes.
pub proof fn lemma_shstrtab_names_len()
    ensures
        total_len(shstrtab_names()) == 94,
{
    let s = shstrtab_names();
    assert(total_len(s.take(0)) == 0);
    assert(s.take(1).drop_last() =~= s.take(0));
    assert(s.take(1).last() == s[0]);
    assert(total_len(s.take(1)) == 6);
    assert(s.take(2).drop_last() =~= s.take(1));
    assert(s.take(2).last() == s[1]);
    assert(total_len(s.take(2)) == 11);
    assert(s.take(3).drop_last() =~= s.take(2));
    assert(s.take(3).last() == s[2]);
    assert(total_len(s.take(3)) == 19);
    assert(s.take(4).drop_last() =~= s.take(3));
    assert(s.take(4).last() == s[3]);
    assert(total_len(s.take(4)) == 27);
    assert(s.take(5).drop_last() =~= s.take(4));
    assert(s.take(5).last() == s[4]);
    assert(total_len(s.take(5)) == 35);
    assert(s.take(6).drop_last() =~= s.take(5));
    assert(s.take(6).last() == s[5]);
    assert(total_len(s.take(6)) == 43);
    assert(s.take(7).drop_last() =~= s.take(6));
    assert(s.take(7).last() == s[6]);
    assert(total_len(s.take(7)) == 49);
    assert(s.take(8).drop_last() =~= s.take(7));
    assert(s.take(8).last() == s[7]);
    assert(total_len(s.take(8)) == 59);
    assert(s.take(9).drop_last() =~= s.take(8));
    assert(s.take(9).last() == s[8]);
    assert(total_len(s.take(9)) == 68);
    assert(s.take(10).drop_last() =~= s.take(9));
    assert(s.take(10).last() == s[9]);
    assert(total_len(s.take(10)) == 74);
    assert(s.take(11).drop_last() =~= s.take(10));
    assert(s.take(11).last() == s[10]);
    assert(total_len(s.take(11)) == 79);
    assert(s.take(12).drop_last() =~= s.take(11));
    assert(s.take(12).last() == s[11]);
    assert(total_len(s.take(12)) == 84);
    assert(s.take(13).drop_last() =~= s.take(12));
    assert(s.take(13).last() == s[12]);
    assert(total_len(s.take(13)) == 94);
    assert(s.take(13) =~= s);
}

/// A layout whose offsets are those of `file_layout` is `layout_for`.
proof fn lemma_layout_is(
    l: OutputFileLayout,
    sects: OutputSectionList,
    il: int,
    dsl: int,
    dstl: int,
    hl: int,
    rpl: int,
    dyl: int,
    sl: int,
)
    requires
        l.offsets() == file_layout(
            sects.text.spec_len() as int,
            sects.plt.spec_len() as int,
            sects.rodata.spec_len() as int,
            il,
            dsl,
            dstl,
            hl,
            rpl,
            dyl,
            sects.data.spec_len() as int,
            sl,
        ),
        l.interp_len == il,
        l.dynsym_len == dsl,
        l.dynstr_len == dstl,
        l.hash_len == hl,
        l.rela_plt_len == rpl,
        l.dynamic_len == dyl,
    ensures
        l == layout_for(sects, il, dsl, dstl, hl, rpl, dyl, sl),
{
    assert(l.offsets()[0] == l.text);
    assert(l.offsets()[1] == l.plt);
    assert(l.offsets()[2] == l.rodata);
    assert(l.offsets()[3] == l.interp);
    assert(l.offsets()[4] == l.dynsym);
    assert(l.offsets()[5] == l.dynstr);
    assert(l.offsets()[6] == l.hash);
    assert(l.offsets()[7] == l.rela_plt);
    assert(l.offsets()[8] == l.dynamic);
    assert(l.offsets()[9] == l.data);
    assert(l.offsets()[10] == l.shstrtab);
    assert(l.offsets()[11] == l.shdrs);
}

/// Writes the bytes of the executable, part after part.
fn write_output(
    ehdr: &Elf64_Ehdr,
    phdrs: &Vec<Elf64_Phdr>,
    sects: &OutputSectionList,
    layout: &OutputFileLayout,
    interp: &Vec<u8>,
    dynsym: &Vec<Elf64_Sym>,
    dynstr: &Vec<u8>,
    hash: &Vec<u8>,
    rela_plt: &Vec<Elf64_Rela>,
    dynamic: &Vec<Elf64_Dyn>,
    shstrtab: &Vec<u8>,
    shdrs: &Vec<Elf64_Shdr>,
) -> (out: Vec<u8>)
    requires
        phdrs@ == spec_phdrs(*sects, *layout),
        layout.plt + sects.plt.spec_len() <= layout.rodata,
        layout.dynamic + layout.dynamic_len <= layout.data,
    ensures
        is_image(
            out@,
            ehdr_bytes(*ehdr),
            *sects,
            *layout,
            interp@,
            dynsym@,
            dynstr@,
            hash@,
            rela_plt@,
            dynamic@,
            shstrtab@,
            shdrs@,
        ),
{
    let mut out: Vec<u8> = Vec::new();
    write_ehdr(&mut out, ehdr);
    let ghost a = ehdr_bytes(*ehdr);
    assert(out@ =~= a);
    write_records(&mut out, phdrs.as_slice());
    let ghost a = a + records_bytes(phdrs@);
    assert(out@ =~= a);
    write_section_bytes(&mut out, &sects.text);
    let ghost a = a + file_bytes(sects.text);
    assert(out@ =~= a);
    write_section_bytes(&mut out, &sects.plt);
    let ghost a = a + file_bytes(sects.plt);
    assert(out@ =~= a);
    push_zeros(&mut out, layout.rodata - layout.plt - sects.plt.bytes_len());
    let ghost a = a + zeros(layout.rodata - layout.plt - sects.plt.spec_len());
    assert(out@ =~= a);
    write_section_bytes(&mut out, &sects.rodata);
    let ghost a = a + file_bytes(sects.rodata);
    assert(out@ =~= a);
    out.extend_from_slice(interp.as_slice());
    let ghost a = a + interp@;
    assert(out@ =~= a);
    write_records(&mut out, dynsym.as_slice());
    let ghost a = a + records_bytes(dynsym@);
    assert(out@ =~= a);
    out.extend_from_slice(dynstr.as_slice());
    let ghost a = a + dynstr@;
    assert(out@ =~= a);
    out.extend_from_slice(hash.as_slice());
    let ghost a = a + hash@;
    assert(out@ =~= a);
    write_records(&mut out, rela_plt.as_slice());
    let ghost a = a + records_bytes(rela_plt@);
    assert(out@ =~= a);
    write_records(&mut out, dynamic.as_slice());
    let ghost a = a + records_bytes(dynamic@);
    assert(out@ =~= a);
    push_zeros(&mut out, layout.data - layout.dynamic - layout.dynamic_len);
    let ghost a = a + zeros(layout.data - layout.dynamic - layout.dynamic_len);
    assert(out@ =~= a);
    write_section_bytes(&mut out, &sects.data);
    let ghost a = a + file_bytes(sects.data);
    assert(out@ =~= a);
    // .bss and .got take no bytes of the file
    out.extend_from_slice(shstrtab.as_slice());
    let ghost a = a + shstrtab@;
    assert(out@ =~= a);
    write_records(&mut out, shdrs.as_slice());
    let ghost a = a + records_bytes(shdrs@);
    assert(out@ =~= a);
    proof {
        reveal(is_image);
        assert(a == output_image(
            ehdr_bytes(*ehdr),
            *sects,
            *layout,
            interp@,
            dynsym@,
            dynstr@,
            hash@,
            rela_plt@,
            dynamic@,
            shstrtab@,
            shdrs@,
        ));
    }
    out
}

/// The executable for the sections `sects` and parts of these lengths fits
/// the address space: the file with its section headers, the addresses of
/// the `ngot` slots of `.got`, and what its program and section headers
/// hold.
pub open spec fn output_fits(
    sects: OutputSectionList,
    il: int,
    dsl: int,
    dstl: int,
    hl: int,
    rpl: int,
    dyl: int,
    sl: int,
    ngot: int,
) -> bool {
    let f = file_layout(
        sects.text.spec_len() as int,
        sects.plt.spec_len() as int,
        sects.rodata.spec_len() as int,
        il,
        dsl,
        dstl,
        hl,
        rpl,
        dyl,
        sects.data.spec_len() as int,
        sl,
    );
    let l = layout_for(sects, il, dsl, dstl, hl, rpl, dyl, sl);
    &&& f[11] + 14 * 64 <= usize::MAX
    &&& sects.got.base + 8 * ngot <= usize::MAX
    &&& phdrs_fit(sects, l)
    &&& shdrs_fit(sects, l)
}

/// The end of the file lies past all the parts that it holds, and each part
/// ends where the next starts or before.
proof fn lemma_file_layout_grows(
    tl: int,
    pl: int,
    rl: int,
    il: int,
    dsl: int,
    dstl: int,
    hl: int,
    rpl: int,
    dyl: int,
    dl: int,
    sl: int,
)
    requires
        tl >= 0 && pl >= 0 && rl >= 0 && il >= 0 && dsl >= 0 && dstl >= 0 && hl >= 0 && rpl >= 0 && dyl >= 0
            && dl >= 0 && sl >= 0,
    ensures
        ({
            let f = file_layout(tl, pl, rl, il, dsl, dstl, hl, rpl, dyl, dl, sl);
            &&& f[1] + pl <= f[2]
            &&& f[8] + dyl <= f[9]
            &&& f[11] >= il + dsl + dstl + hl + rpl + dyl + sl
        }),
{
    let text = OUTPUT_ELF_HEADER_RESERVED_SIZE as int;
    crate::linker::section::lemma_page_align_bounds(text + tl + pl);
    let rodata = page_align(text + tl + pl);
    crate::linker::section::lemma_page_align_bounds(rodata + rl + il + dsl + dstl + hl + rpl + dyl);
}

/// Whether what the program and section headers hold fits a machine word.
fn headers_fit(sects: &OutputSectionList, layout: &OutputFileLayout) -> (b: bool)
    ensures
        b == (phdrs_fit(*sects, *layout) && shdrs_fit(*sects, *layout)),
{
    let max = usize::MAX;
    let tl = sects.text.bytes_len();
    let pl = sects.plt.bytes_len();
    let dl = sects.data.bytes_len();
    let bl = sects.bss.bytes_len();
    let gl = sects.got.bytes_len();
    if tl > max - layout.text || pl > max - layout.text - tl {
        return false;
    }
    if layout.dynamic_len > max - layout.dynamic || layout.rodata > layout.dynamic + layout.dynamic_len {
        return false;
    }
    if bl > max - dl || gl > max - dl - bl {
        return false;
    }
    if dl > max - layout.data || bl > max - layout.data - dl {
        return false;
    }
    ro_fits_exec(sects, layout, layout.interp) && ro_fits_exec(sects, layout, layout.dynsym) && ro_fits_exec(
        sects,
        layout,
        layout.dynstr,
    ) && ro_fits_exec(sects, layout, layout.hash) && ro_fits_exec(sects, layout, layout.rela_plt)
        && ro_fits_exec(sects, layout, layout.dynamic)
}

/// Whether the address in the read-only segment of the file offset `off`
/// fits a machine word.
fn ro_fits_exec(sects: &OutputSectionList, layout: &OutputFileLayout, off: usize) -> (b: bool)
    ensures
        b == ro_fits(*sects, *layout, off),
{
    off >= layout.rodata && off - layout.rodata <= usize::MAX - sects.rodata.base
}

impl<'a> Linker<'a> {
    /// Generates the headers and `.dynamic` of the executable and writes it.
    fn write_executable(
        &self,
        sects: &OutputSectionList,
        entry: usize,
        layout: &OutputFileLayout,
        interp: &Vec<u8>,
        dynsym: &Vec<Elf64_Sym>,
        dynstr: &Strtab,
        hash: &DynsymHashTable,
        rela_plt: &Vec<Elf64_Rela>,
        shstrtab: &Strtab,
    ) -> (r: Vec<u8>)
        requires
            phdrs_fit(*sects, *layout),
            shdrs_fit(*sects, *layout),
            layout.plt + sects.plt.spec_len() <= layout.rodata,
            layout.dynamic + layout.dynamic_len <= layout.data,
            is_shstrtab(*shstrtab),
            forall|j: int|
                0 <= j < needed_names(self.shared_objs@).len() ==> dynstr.spec_table().1.contains_key(
                    #[trigger] needed_names(self.shared_objs@)[j],
                ),
            entries_distinct(dynstr.offsets@),
        ensures
            exists|h: Elf64_Ehdr|
                ehdr_is(h, entry as int, layout.shdrs as int, 5, 14) && is_image(
                    r@,
                    ehdr_bytes(h),
                    *sects,
                    *layout,
                    interp@,
                    dynsym@,
                    dynstr.bytes@,
                    hash.spec_bytes(),
                    rela_plt@,
                    spec_dynamic(*sects, *layout, dynstr.spec_table().1, self.shared_objs@),
                    shstrtab.bytes@,
                    spec_shdrs(*sects, *layout, shstrtab.spec_table().1, shstrtab.bytes@.len() as int),
                ),
    {
        proof {
            lemma_strtab_has_names(shstrtab_names());
        }
        let phdrs = self.generate_phdrs(sects, layout);
        let shdrs = self.generate_shdrs(sects, shstrtab, layout);
        let ehdr = self.generate_ehdr(entry, phdrs.as_slice(), shdrs.as_slice(), layout);
        let dynamic = self.generate_dynamic(sects, layout, dynstr);
        let hash_bytes = hash.as_bytes();
        let out = write_output(
            &ehdr,
            &phdrs,
            sects,
            layout,
            interp,
            dynsym,
            &dynstr.bytes,
            &hash_bytes,
            rela_plt,
            &dynamic,
            &shstrtab.bytes,
            &shdrs,
        );
        assert(ehdr_is(ehdr, entry as int, layout.shdrs as int, 5, 14));
        out
    }
}

impl<'a> Linker<'a> {
    /// Writes the executable: the headers, the sections and the dynamic
    /// linking tables, each at its place in the file.  Fails when there is
    /// no entry point.
    pub fn output_elf(
        &self,
        sects: OutputSectionList,
        dyn_syms: &Vec<DynSymEntry>,
        interp: Vec<u8>,
        dynstr: Strtab,
        dynsym: Vec<Elf64_Sym>,
        hash: DynsymHashTable,
    ) -> (r: Result<Vec<u8>, LinkerError>)
        requires
            forall|o: int, k: int| #[trigger] is_first_start(self.objs@, o, k) ==> address_defined(self.objs@, sects, o, k),
            dyn_syms@.len() < u32::MAX,
            4 * hash.words().len() <= usize::MAX,
            forall|j: int|
                0 <= j < needed_names(self.shared_objs@).len() ==> dynstr.spec_table().1.contains_key(
                    #[trigger] needed_names(self.shared_objs@)[j],
                ),
            entries_distinct(dynstr.offsets@),
        ensures
            match entry_point(self.objs@, sects) {
                Err(e) => r is Err && r->Err_0@ == e,
                Ok(entry) => if output_fits(
                    sects,
                    interp@.len() as int,
                    (24 * dynsym@.len()) as int,
                    dynstr.bytes@.len() as int,
                    hash.spec_bytes().len() as int,
                    (24 * dyn_syms@.len()) as int,
                    (16 * (self.shared_objs@.len() + 10)) as int,
                    strtab_build(shstrtab_names()).0.len() as int,
                    dyn_syms@.len() as int,
                ) {
                    &&& r is Ok
                    &&& is_output(
                        r->Ok_0@,
                        self.shared_objs@,
                        sects,
                        entry,
                        interp@,
                        dynsym@,
                        dynstr,
                        hash.spec_bytes(),
                        dyn_syms@.len() as int,
                    )
                    &&& reads_as_output(
                        r->Ok_0@,
                        self.shared_objs@,
                        sects,
                        interp@,
                        dynsym@,
                        dynstr,
                        hash.spec_bytes(),
                        dyn_syms@.len() as int,
                    )
                } else {
                    r is Err && r->Err_0@ == LinkerErrorView::AddressOverflow
                },
            },
    {
        let entry = match self.find_entry_point(&sects) {
            Ok(e) => e,
            Err(e) => {
                return Err(e);
            },
        };
        let names = shstrtab_name_list();
        proof {
            lemma_shstrtab_names_len();
            lemma_strtab_len(shstrtab_names());
        }
        let shstrtab = Strtab::new(names);
        let needed = self.needed_list();
        let ghost sh = strtab_build(shstrtab_names());
        let ghost il = interp@.len() as int;
        let ghost dsl = (24 * dynsym@.len()) as int;
        let ghost dstl = dynstr.bytes@.len() as int;
        let ghost hl = hash.spec_bytes().len() as int;
        let ghost rpl = (24 * dyn_syms@.len()) as int;
        let ghost dyl = (16 * (self.shared_objs@.len() + 10)) as int;
        let ghost sl = sh.0.len() as int;
        proof {
            lemma_hash_bytes_len(hash);
            assert(views(needed@).len() == needed@.len());
            assert(shstrtab.bytes@ == sh.0);
            lemma_file_layout_grows(
                sects.text.spec_len() as int,
                sects.plt.spec_len() as int,
                sects.rodata.spec_len() as int,
                il,
                dsl,
                dstl,
                hl,
                rpl,
                dyl,
                sects.data.spec_len() as int,
                sl,
            );
        }
        let n = dyn_syms.len();
        if n > (usize::MAX - sects.got.base) / GOT_ENTRY_BYTE_SIZE {
            assert(sects.got.base + 8 * n > usize::MAX) by (nonlinear_arith)
                requires
                    n > (usize::MAX - sects.got.base) / 8,
                    sects.got.base <= usize::MAX,
            ;
            return Err(LinkerError::AddressOverflow);
        }
        assert(sects.got.base + 8 * n <= usize::MAX) by (nonlinear_arith)
            requires
                n <= (usize::MAX - sects.got.base) / 8,
                sects.got.base <= usize::MAX,
        ;
        let rela_plt = self.generate_rela_plt(&sects, n);
        let dynsym_len = match dynsym.len().checked_mul(SYM_SIZE) {
            Some(x) => x,
            None => {
                return Err(LinkerError::AddressOverflow);
            },
        };
        let rela_plt_len = match rela_plt.len().checked_mul(RELA_SIZE) {
            Some(x) => x,
            None => {
                return Err(LinkerError::AddressOverflow);
            },
        };
        let dynamic_count = match self.shared_objs.len().checked_add(DYNAMIC_FIXED_ENTRY_COUNT) {
            Some(x) => x,
            None => {
                return Err(LinkerError::AddressOverflow);
            },
        };
        let dynamic_len = match dynamic_count.checked_mul(DYN_SIZE) {
            Some(x) => x,
            None => {
                return Err(LinkerError::AddressOverflow);
            },
        };
        let layout = match OutputFileLayout::new(
            &sects,
            interp.len(),
            dynsym_len,
            dynstr.bytes.len(),
            hash.bytes_len(),
            rela_plt_len,
            dynamic_len,
            shstrtab.bytes.len(),
        ) {
            Some(l) => l,
            None => {
                return Err(LinkerError::AddressOverflow);
            },
        };
        proof {
            lemma_layout_is(layout, sects, il, dsl, dstl, hl, rpl, dyl, sl);
            lemma_layout_for_offsets(sects, il, dsl, dstl, hl, rpl, dyl, sl);
        }
        if !headers_fit(&sects, &layout) {
            return Err(LinkerError::AddressOverflow);
        }
        let out = self.write_executable(&sects, entry, &layout, &interp, &dynsym, &dynstr, &hash, &rela_plt, &shstrtab);
        proof {
            assert(is_output(
                out@,
                self.shared_objs@,
                sects,
                entry as int,
                interp@,
                dynsym@,
                dynstr,
                hash.spec_bytes(),
                dyn_syms@.len() as int,
            ));
            lemma_output_parses(
                out@,
                self.shared_objs@,
                sects,
                entry as int,
                interp@,
                dynsym@,
                dynstr,
                hash.spec_bytes(),
                dyn_syms@.len() as int,
            );
        }
        Ok(out)
    }
}

/// What reading the executable gives back: its length; its file header;
/// its program headers right after the file header; the bytes of each
/// section and table at the offset that the layout gives it; and the
/// section headers at the offset that the file header gives, one after the
/// other.
#[verifier::opaque]
pub open spec fn reads_back(
    img: Seq<u8>,
    sects: OutputSectionList,
    layout: OutputFileLayout,
    entry: int,
    interp: Seq<u8>,
    dynsym: Seq<Elf64_Sym>,
    dynstr: Seq<u8>,
    hash: Seq<u8>,
    rela_plt: Seq<Elf64_Rela>,
    dynamic: Seq<Elf64_Dyn>,
    shstrtab: Seq<u8>,
    shdrs: Seq<Elf64_Shdr>,
) -> bool {
    &&& exists|h: Elf64_Ehdr| ehdr_is(h, entry, layout.shdrs as int, 5, 14) && ehdr_matches(h, img.subrange(0, 64))
    &&& parts_at(img, sects, layout, interp, dynsym, dynstr, hash, rela_plt, dynamic, shstrtab, shdrs)
}

/// Each of sixteen parts lies in their concatenation where the parts before
/// it end.
proof fn lemma_concat16(
    img: Seq<u8>,
    p0: Seq<u8>,
    p1: Seq<u8>,
    p2: Seq<u8>,
    p3: Seq<u8>,
    p4: Seq<u8>,
    p5: Seq<u8>,
    p6: Seq<u8>,
    p7: Seq<u8>,
    p8: Seq<u8>,
    p9: Seq<u8>,
    p10: Seq<u8>,
    p11: Seq<u8>,
    p12: Seq<u8>,
    p13: Seq<u8>,
    p14: Seq<u8>,
    p15: Seq<u8>,
)
    requires
        img == p0 + p1 + p2 + p3 + p4 + p5 + p6 + p7 + p8 + p9 + p10 + p11 + p12 + p13 + p14 + p15,
    ensures
        img.subrange(0, (p0.len()) as int) == p0,
        img.subrange((p0.len()) as int, (p0.len() + p1.len()) as int) == p1,
        img.subrange((p0.len() + p1.len()) as int, (p0.len() + p1.len() + p2.len()) as int) == p2,
        img.subrange((p0.len() + p1.len() + p2.len()) as int, (p0.len() + p1.len() + p2.len() + p3.len()) as int) == p3,
        img.subrange((p0.len() + p1.len() + p2.len() + p3.len()) as int, (p0.len() + p1.len() + p2.len() + p3.len() + p4.len()) as int) == p4,
        img.subrange((p0.len() + p1.len() + p2.len() + p3.len() + p4.len()) as int, (p0.len() + p1.len() + p2.len() + p3.len() + p4.len() + p5.len()) as int) == p5,
        img.subrange((p0.len() + p1.len() + p2.len() + p3.len() + p4.len() + p5.len()) as int, (p0.len() + p1.len() + p2.len() + p3.len() + p4.len() + p5.len() + p6.len()) as int) == p6,
        img.subrange((p0.len() + p1.len() + p2.len() + p3.len() + p4.len() + p5.len() + p6.len()) as int, (p0.len() + p1.len() + p2.len() + p3.len() + p4.len() + p5.len() + p6.len() + p7.len()) as int) == p7,
        img.subrange((p0.len() + p1.len() + p2.len() + p3.len() + p4.len() + p5.len() + p6.len() + p7.len()) as int, (p0.len() + p1.len() + p2.len() + p3.len() + p4.len() + p5.len() + p6.len() + p7.len() + p8.len()) as int) == p8,
        img.subrange((p0.len() + p1.len() + p2.len() + p3.len() + p4.len() + p5.len() + p6.len() + p7.len() + p8.len()) as int, (p0.len() + p1.len() + p2.len() + p3.len() + p4.len() + p5.len() + p6.len() + p7.len() + p8.len() + p9.len()) as int) == p9,
        img.subrange((p0.len() + p1.len() + p2.len() + p3.len() + p4.len() + p5.len() + p6.len() + p7.len() + p8.len() + p9.len()) as int, (p0.len() + p1.len() + p2.len() + p3.len() + p4.len() + p5.len() + p6.len() + p7.len() + p8.len() + p9.len() + p10.len()) as int) == p10,
        img.subrange((p0.len() + p1.len() + p2.len() + p3.len() + p4.len() + p5.len() + p6.len() + p7.len() + p8.len() + p9.len() + p10.len()) as int, (p0.len() + p1.len() + p2.len() + p3.len() + p4.len() + p5.len() + p6.len() + p7.len() + p8.len() + p9.len() + p10.len() + p11.len()) as int) == p11,
        img.subrange((p0.len() + p1.len() + p2.len() + p3.len() + p4.len() + p5.len() + p6.len() + p7.len() + p8.len() + p9.len() + p10.len() + p11.len()) as int, (p0.len() + p1.len() + p2.len() + p3.len() + p4.len() + p5.len() + p6.len() + p7.len() + p8.len() + p9.len() + p10.len() + p11.len() + p12.len()) as int) == p12,
        img.subrange((p0.len() + p1.len() + p2.len() + p3.len() + p4.len() + p5.len() + p6.len() + p7.len() + p8.len() + p9.len() + p10.len() + p11.len() + p12.len()) as int, (p0.len() + p1.len() + p2.len() + p3.len() + p4.len() + p5.len() + p6.len() + p7.len() + p8.len() + p9.len() + p10.len() + p11.len() + p12.len() + p13.len()) as int) == p13,
        img.subrange((p0.len() + p1.len() + p2.len() + p3.len() + p4.len() + p5.len() + p6.len() + p7.len() + p8.len() + p9.len() + p10.len() + p11.len() + p12.len() + p13.len()) as int, (p0.len() + p1.len() + p2.len() + p3.len() + p4.len() + p5.len() + p6.len() + p7.len() + p8.len() + p9.len() + p10.len() + p11.len() + p12.len() + p13.len() + p14.len()) as int) == p14,
        img.subrange((p0.len() + p1.len() + p2.len() + p3.len() + p4.len() + p5.len() + p6.len() + p7.len() + p8.len() + p9.len() + p10.len() + p11.len() + p12.len() + p13.len() + p14.len()) as int, (p0.len() + p1.len() + p2.len() + p3.len() + p4.len() + p5.len() + p6.len() + p7.len() + p8.len() + p9.len() + p10.len() + p11.len() + p12.len() + p13.len() + p14.len() + p15.len()) as int) == p15,
{
    let a0 = p0;
    let a1 = a0 + p1;
    let a2 = a1 + p2;
    let a3 = a2 + p3;
    let a4 = a3 + p4;
    let a5 = a4 + p5;
    let a6 = a5 + p6;
    let a7 = a6 + p7;
    let a8 = a7 + p8;
    let a9 = a8 + p9;
    let a10 = a9 + p10;
    let a11 = a10 + p11;
    let a12 = a11 + p12;
    let a13 = a12 + p13;
    let a14 = a13 + p14;
    let a15 = a14 + p15;
    assert(img.subrange(0, a15.len() as int) =~= a15);
    assert(img.subrange(0, a14.len() as int) =~= a14);
    assert(img.subrange(0, a13.len() as int) =~= a13);
    assert(img.subrange(0, a12.len() as int) =~= a12);
    assert(img.subrange(0, a11.len() as int) =~= a11);
    assert(img.subrange(0, a10.len() as int) =~= a10);
    assert(img.subrange(0, a9.len() as int) =~= a9);
    assert(img.subrange(0, a8.len() as int) =~= a8);
    assert(img.subrange(0, a7.len() as int) =~= a7);
    assert(img.subrange(0, a6.len() as int) =~= a6);
    assert(img.subrange(0, a5.len() as int) =~= a5);
    assert(img.subrange(0, a4.len() as int) =~= a4);
    assert(img.subrange(0, a3.len() as int) =~= a3);
    assert(img.subrange(0, a2.len() as int) =~= a2);
    assert(img.subrange(0, a1.len() as int) =~= a1);
    assert(img.subrange(0, a0.len() as int) =~= a0);
    assert(img.subrange(a0.len() as int, a1.len() as int) =~= p1);
    assert(img.subrange(a1.len() as int, a2.len() as int) =~= p2);
    assert(img.subrange(a2.len() as int, a3.len() as int) =~= p3);
    assert(img.subrange(a3.len() as int, a4.len() as int) =~= p4);
    assert(img.subrange(a4.len() as int, a5.len() as int) =~= p5);
    assert(img.subrange(a5.len() as int, a6.len() as int) =~= p6);
    assert(img.subrange(a6.len() as int, a7.len() as int) =~= p7);
    assert(img.subrange(a7.len() as int, a8.len() as int) =~= p8);
    assert(img.subrange(a8.len() as int, a9.len() as int) =~= p9);
    assert(img.subrange(a9.len() as int, a10.len() as int) =~= p10);
    assert(img.subrange(a10.len() as int, a11.len() as int) =~= p11);
    assert(img.subrange(a11.len() as int, a12.len() as int) =~= p12);
    assert(img.subrange(a12.len() as int, a13.len() as int) =~= p13);
    assert(img.subrange(a13.len() as int, a14.len() as int) =~= p14);
    assert(img.subrange(a14.len() as int, a15.len() as int) =~= p15);
}

/// Each part of an image lies at the offset that the layout gives it, the
/// image ending with the section headers.
#[verifier::opaque]
pub open spec fn parts_at(
    img: Seq<u8>,
    sects: OutputSectionList,
    layout: OutputFileLayout,
    interp: Seq<u8>,
    dynsym: Seq<Elf64_Sym>,
    dynstr: Seq<u8>,
    hash: Seq<u8>,
    rela_plt: Seq<Elf64_Rela>,
    dynamic: Seq<Elf64_Dyn>,
    shstrtab: Seq<u8>,
    shdrs: Seq<Elf64_Shdr>,
) -> bool {
    &&& img.len() == layout.shdrs + 64 * shdrs.len()
    &&& reads_back_parts(img, sects, layout, dynsym, rela_plt, dynamic, shdrs)
    &&& img.subrange(layout.text as int, layout.text + sects.text.spec_len()) == file_bytes(sects.text)
    &&& img.subrange(layout.plt as int, layout.plt + sects.plt.spec_len()) == file_bytes(sects.plt)
    &&& img.subrange(layout.rodata as int, layout.rodata + sects.rodata.spec_len()) == file_bytes(sects.rodata)
    &&& img.subrange(layout.interp as int, layout.interp + layout.interp_len) == interp
    &&& img.subrange(layout.dynstr as int, layout.dynstr + layout.dynstr_len) == dynstr
    &&& img.subrange(layout.hash as int, layout.hash + layout.hash_len) == hash
    &&& img.subrange(layout.data as int, layout.data + sects.data.spec_len()) == file_bytes(sects.data)
    &&& img.subrange(layout.shstrtab as int, layout.shdrs as int) == shstrtab
}

/// The records of the headers and tables of an image read back from where
/// they lie: the program headers after the file header, `.dynsym`,
/// `.rela.plt` and `.dynamic` at their offsets, and the section headers at
/// the end.
pub open spec fn reads_back_parts(
    img: Seq<u8>,
    sects: OutputSectionList,
    layout: OutputFileLayout,
    dynsym: Seq<Elf64_Sym>,
    rela_plt: Seq<Elf64_Rela>,
    dynamic: Seq<Elf64_Dyn>,
    shdrs: Seq<Elf64_Shdr>,
) -> bool {
    &&& forall|k: int|
        0 <= k < 5 ==> spec_phdr(#[trigger] img.subrange(64 + 56 * k, 64 + 56 * k + 56)) == spec_phdrs(sects, layout)[k]
    &&& forall|k: int|
        0 <= k < dynsym.len() ==> spec_sym(#[trigger] img.subrange(layout.dynsym + 24 * k, layout.dynsym + 24 * k + 24))
            == dynsym[k]
    &&& forall|k: int|
        0 <= k < rela_plt.len() ==> spec_rela(
            #[trigger] img.subrange(layout.rela_plt + 24 * k, layout.rela_plt + 24 * k + 24),
        ) == rela_plt[k]
    &&& forall|k: int|
        0 <= k < dynamic.len() ==> spec_dyn(
            #[trigger] img.subrange(layout.dynamic + 16 * k, layout.dynamic + 16 * k + 16),
        ) == dynamic[k]
    &&& forall|k: int|
        0 <= k < shdrs.len() ==> spec_shdr(#[trigger] img.subrange(layout.shdrs + 64 * k, layout.shdrs + 64 * k + 64))
            == shdrs[k]
}

/// A table of records read back record by record from where it lies.
proof fn lemma_table_reads_back<T: ElfRecord>(img: Seq<u8>, start: int, recs: Seq<T>, size: int, k: int)
    requires
        forall|j: int| 0 <= j < recs.len() ==> (#[trigger] recs[j].record_bytes()).len() == size,
        0 <= start,
        start + records_bytes(recs).len() <= img.len(),
        img.subrange(start, start + records_bytes(recs).len()) == records_bytes(recs),
        0 <= k < recs.len(),
        size >= 0,
    ensures
        img.subrange(start + size * k, start + size * k + size) == recs[k].record_bytes(),
{
    crate::codec::lemma_records_at(recs, size, k);
    assert(size * k + size <= size * recs.len()) by (nonlinear_arith)
        requires
            k < recs.len(),
            size >= 0,
    ;
    assert(img.subrange(start + size * k, start + size * k + size) =~= records_bytes(recs).subrange(
        size * k,
        size * k + size,
    ));
}

/// The offsets of a layout that fits the address space, one after the other.
proof fn lemma_layout_for_offsets(
    sects: OutputSectionList,
    il: int,
    dsl: int,
    dstl: int,
    hl: int,
    rpl: int,
    dyl: int,
    sl: int,
)
    requires
        il >= 0 && dsl >= 0 && dstl >= 0 && hl >= 0 && rpl >= 0 && dyl >= 0 && sl >= 0,
        file_layout(
            sects.text.spec_len() as int,
            sects.plt.spec_len() as int,
            sects.rodata.spec_len() as int,
            il,
            dsl,
            dstl,
            hl,
            rpl,
            dyl,
            sects.data.spec_len() as int,
            sl,
        )[11] + 14 * 64 <= usize::MAX,
    ensures
        ({
            let l = layout_for(sects, il, dsl, dstl, hl, rpl, dyl, sl);
            &&& l.text == 344
            &&& l.plt == l.text + sects.text.spec_len()
            &&& l.plt + sects.plt.spec_len() <= l.rodata
            &&& l.interp == l.rodata + sects.rodata.spec_len()
            &&& l.interp_len == il
            &&& l.dynsym == l.interp + il
            &&& l.dynsym_len == dsl
            &&& l.dynstr == l.dynsym + dsl
            &&& l.dynstr_len == dstl
            &&& l.hash == l.dynstr + dstl
            &&& l.hash_len == hl
            &&& l.rela_plt == l.hash + hl
            &&& l.rela_plt_len == rpl
            &&& l.dynamic == l.rela_plt + rpl
            &&& l.dynamic_len == dyl
            &&& l.dynamic + dyl <= l.data
            &&& l.shstrtab == l.data + sects.data.spec_len()
            &&& l.shdrs == l.shstrtab + sl
        }),
{
    let tl = sects.text.spec_len() as int;
    let pl = sects.plt.spec_len() as int;
    let f = file_layout(tl, pl, sects.rodata.spec_len() as int, il, dsl, dstl, hl, rpl, dyl, sects.data.spec_len() as int, sl);
    crate::linker::section::lemma_page_align_bounds(OUTPUT_ELF_HEADER_RESERVED_SIZE + tl + pl);
    crate::linker::section::lemma_page_align_bounds(f[8] + dyl);
}

/// The layout's offsets follow the lengths of the parts of an image.
pub open spec fn layout_fits_parts(
    sects: OutputSectionList,
    layout: OutputFileLayout,
    interp: Seq<u8>,
    dynsym: Seq<Elf64_Sym>,
    dynstr: Seq<u8>,
    hash: Seq<u8>,
    rela_plt: Seq<Elf64_Rela>,
    dynamic: Seq<Elf64_Dyn>,
    shstrtab: Seq<u8>,
) -> bool {
    &&& layout.text == 344
    &&& layout.plt == layout.text + sects.text.spec_len()
    &&& layout.plt + sects.plt.spec_len() <= layout.rodata
    &&& layout.interp == layout.rodata + sects.rodata.spec_len()
    &&& layout.interp_len == interp.len()
    &&& layout.dynsym == layout.interp + layout.interp_len
    &&& layout.dynsym_len == 24 * dynsym.len()
    &&& layout.dynstr == layout.dynsym + layout.dynsym_len
    &&& layout.dynstr_len == dynstr.len()
    &&& layout.hash == layout.dynstr + layout.dynstr_len
    &&& layout.hash_len == hash.len()
    &&& layout.rela_plt == layout.hash + layout.hash_len
    &&& layout.rela_plt_len == 24 * rela_plt.len()
    &&& layout.dynamic == layout.rela_plt + layout.rela_plt_len
    &&& layout.dynamic_len == 16 * dynamic.len()
    &&& layout.dynamic + layout.dynamic_len <= layout.data
    &&& layout.shstrtab == layout.data + sects.data.spec_len()
    &&& layout.shdrs == layout.shstrtab + shstrtab.len()
}

/// `img` is the image of these parts.
#[verifier::opaque]
pub open spec fn is_image(
    img: Seq<u8>,
    ehdr: Seq<u8>,
    sects: OutputSectionList,
    layout: OutputFileLayout,
    interp: Seq<u8>,
    dynsym: Seq<Elf64_Sym>,
    dynstr: Seq<u8>,
    hash: Seq<u8>,
    rela_plt: Seq<Elf64_Rela>,
    dynamic: Seq<Elf64_Dyn>,
    shstrtab: Seq<u8>,
    shdrs: Seq<Elf64_Shdr>,
) -> bool {
    img == output_image(ehdr, sects, layout, interp, dynsym, dynstr, hash, rela_plt, dynamic, shstrtab, shdrs)
}

/// An image whose layout follows the lengths of its parts holds each part at
/// its offset.
proof fn lemma_image_reads_back(
    img: Seq<u8>,
    ehdr: Seq<u8>,
    sects: OutputSectionList,
    layout: OutputFileLayout,
    interp: Seq<u8>,
    dynsym: Seq<Elf64_Sym>,
    dynstr: Seq<u8>,
    hash: Seq<u8>,
    rela_plt: Seq<Elf64_Rela>,
    dynamic: Seq<Elf64_Dyn>,
    shstrtab: Seq<u8>,
    shdrs: Seq<Elf64_Shdr>,
)
    requires
        is_image(img, ehdr, sects, layout, interp, dynsym, dynstr, hash, rela_plt, dynamic, shstrtab, shdrs),
        ehdr.len() == 64,
        layout_fits_parts(sects, layout, interp, dynsym, dynstr, hash, rela_plt, dynamic, shstrtab),
        shdrs.len() == 14,
    ensures
        img.subrange(0, 64) == ehdr,
        parts_at(img, sects, layout, interp, dynsym, dynstr, hash, rela_plt, dynamic, shstrtab, shdrs),
{
    reveal(is_image);
    reveal(parts_at);
    let pl = sects.plt.spec_len() as int;
    let phdrs = spec_phdrs(sects, layout);
    assert forall|j: int| 0 <= j < phdrs.len() implies (#[trigger] phdrs[j].record_bytes()).len() == 56 by {
        crate::codec::lemma_phdr_roundtrip(phdrs[j]);
    }
    assert forall|j: int| 0 <= j < dynsym.len() implies (#[trigger] dynsym[j].record_bytes()).len() == 24 by {
        crate::codec::lemma_sym_roundtrip(dynsym[j]);
    }
    assert forall|j: int| 0 <= j < rela_plt.len() implies (#[trigger] rela_plt[j].record_bytes()).len() == 24 by {
        crate::codec::lemma_rela_roundtrip(rela_plt[j]);
    }
    assert forall|j: int| 0 <= j < dynamic.len() implies (#[trigger] dynamic[j].record_bytes()).len() == 16 by {
        crate::codec::lemma_dyn_roundtrip(dynamic[j]);
    }
    assert forall|j: int| 0 <= j < shdrs.len() implies (#[trigger] shdrs[j].record_bytes()).len() == 64 by {
        crate::codec::lemma_shdr_roundtrip(shdrs[j]);
    }
    crate::codec::lemma_records_len(phdrs, 56);
    crate::codec::lemma_records_len(dynsym, 24);
    crate::codec::lemma_records_len(rela_plt, 24);
    crate::codec::lemma_records_len(dynamic, 16);
    crate::codec::lemma_records_len(shdrs, 64);
    // each part lies where the parts before it end
    lemma_concat16(
        img,
        ehdr,
        records_bytes(phdrs),
        file_bytes(sects.text),
        file_bytes(sects.plt),
        zeros(layout.rodata - layout.plt - pl),
        file_bytes(sects.rodata),
        interp,
        records_bytes(dynsym),
        dynstr,
        hash,
        records_bytes(rela_plt),
        records_bytes(dynamic),
        zeros(layout.data - layout.dynamic - layout.dynamic_len),
        file_bytes(sects.data),
        shstrtab,
        records_bytes(shdrs),
    );
    assert forall|k: int| 0 <= k < 5 implies spec_phdr(#[trigger] img.subrange(64 + 56 * k, 64 + 56 * k + 56)) == phdrs[k] by {
        lemma_table_reads_back(img, 64, phdrs, 56, k);
        crate::codec::lemma_phdr_roundtrip(phdrs[k]);
    }
    assert forall|k: int| 0 <= k < dynsym.len() implies spec_sym(
        #[trigger] img.subrange(layout.dynsym + 24 * k, layout.dynsym + 24 * k + 24),
    ) == dynsym[k] by {
        lemma_table_reads_back(img, layout.dynsym as int, dynsym, 24, k);
        crate::codec::lemma_sym_roundtrip(dynsym[k]);
    }
    assert forall|k: int| 0 <= k < rela_plt.len() implies spec_rela(
        #[trigger] img.subrange(layout.rela_plt + 24 * k, layout.rela_plt + 24 * k + 24),
    ) == rela_plt[k] by {
        lemma_table_reads_back(img, layout.rela_plt as int, rela_plt, 24, k);
        crate::codec::lemma_rela_roundtrip(rela_plt[k]);
    }
    assert forall|k: int| 0 <= k < dynamic.len() implies spec_dyn(
        #[trigger] img.subrange(layout.dynamic + 16 * k, layout.dynamic + 16 * k + 16),
    ) == dynamic[k] by {
        lemma_table_reads_back(img, layout.dynamic as int, dynamic, 16, k);
        crate::codec::lemma_dyn_roundtrip(dynamic[k]);
    }
    assert forall|k: int| 0 <= k < shdrs.len() implies spec_shdr(
        #[trigger] img.subrange(layout.shdrs + 64 * k, layout.shdrs + 64 * k + 64),
    ) == shdrs[k] by {
        lemma_table_reads_back(img, layout.shdrs as int, shdrs, 64, k);
        crate::codec::lemma_shdr_roundtrip(shdrs[k]);
    }
}


/// An image with a file header for `entry` reads back as `reads_back` says.
proof fn lemma_header_and_parts(
    img: Seq<u8>,
    h: Elf64_Ehdr,
    entry: int,
    sects: OutputSectionList,
    layout: OutputFileLayout,
    interp: Seq<u8>,
    dynsym: Seq<Elf64_Sym>,
    dynstr: Seq<u8>,
    hash: Seq<u8>,
    rela_plt: Seq<Elf64_Rela>,
    dynamic: Seq<Elf64_Dyn>,
    shstrtab: Seq<u8>,
    shdrs: Seq<Elf64_Shdr>,
)
    requires
        ehdr_is(h, entry, layout.shdrs as int, 5, 14),
        is_image(img, ehdr_bytes(h), sects, layout, interp, dynsym, dynstr, hash, rela_plt, dynamic, shstrtab, shdrs),
        layout_fits_parts(sects, layout, interp, dynsym, dynstr, hash, rela_plt, dynamic, shstrtab),
        shdrs.len() == 14,
    ensures
        reads_back(img, sects, layout, entry, interp, dynsym, dynstr, hash, rela_plt, dynamic, shstrtab, shdrs),
{
    reveal(reads_back);
    lemma_ehdr_roundtrip(h);
    lemma_image_reads_back(img, ehdr_bytes(h), sects, layout, interp, dynsym, dynstr, hash, rela_plt, dynamic, shstrtab, shdrs);
    assert(ehdr_is(h, entry, layout.shdrs as int, 5, 14) && ehdr_matches(h, img.subrange(0, 64)));
}

/// The executable reads back as it was written: each part of it lies at the
/// offset that the layout gives, so that each section header points at the
/// bytes of its section, and the headers themselves lie where the file
/// header says.

pub proof fn lemma_output_reads_back(
    img: Seq<u8>,
    shared: Seq<ElfSharedObject>,
    sects: OutputSectionList,
    entry: int,
    interp: Seq<u8>,
    dynsym: Seq<Elf64_Sym>,
    dynstr: Strtab,
    hash: Seq<u8>,
    ndyn: int,
)
    requires
        is_output(img, shared, sects, entry, interp, dynsym, dynstr, hash, ndyn),
        ndyn >= 0,
        file_layout(
            sects.text.spec_len() as int,
            sects.plt.spec_len() as int,
            sects.rodata.spec_len() as int,
            interp.len() as int,
            (24 * dynsym.len()) as int,
            dynstr.bytes@.len() as int,
            hash.len() as int,
            24 * ndyn,
            (16 * (shared.len() + 10)) as int,
            sects.data.spec_len() as int,
            strtab_build(shstrtab_names()).0.len() as int,
        )[11] + 14 * 64 <= usize::MAX,
    ensures
        ({
            let sh = strtab_build(shstrtab_names());
            let layout = layout_for(
                sects,
                interp.len() as int,
                (24 * dynsym.len()) as int,
                dynstr.bytes@.len() as int,
                hash.len() as int,
                24 * ndyn,
                (16 * (shared.len() + 10)) as int,
                sh.0.len() as int,
            );
            reads_back(
                img,
                sects,
                layout,
                entry,
                interp,
                dynsym,
                dynstr.bytes@,
                hash,
                spec_rela_plt(sects.got.base as int, ndyn),
                spec_dynamic(sects, layout, dynstr.spec_table().1, shared),
                sh.0,
                spec_shdrs(sects, layout, sh.1, sh.0.len() as int),
            )
        }),
{
    let sh = strtab_build(shstrtab_names());
    let tl = sects.text.spec_len() as int;
    let pl = sects.plt.spec_len() as int;
    let rl = sects.rodata.spec_len() as int;
    let dl = sects.data.spec_len() as int;
    let il = interp.len() as int;
    let dstl = dynstr.bytes@.len() as int;
    let hl = hash.len() as int;
    let dyl = (16 * (shared.len() + 10)) as int;
    let sl = sh.0.len() as int;
    let layout = layout_for(sects, il, (24 * dynsym.len()) as int, dstl, hl, 24 * ndyn, dyl, sl);
    let rela_plt = spec_rela_plt(sects.got.base as int, ndyn);
    let dynamic = spec_dynamic(sects, layout, dynstr.spec_table().1, shared);
    let shdrs = spec_shdrs(sects, layout, sh.1, sl);
    let h = choose|h: Elf64_Ehdr|
        ehdr_is(h, entry, layout.shdrs as int, 5, 14) && is_image(
            img,
            ehdr_bytes(h),
            sects,
            layout,
            interp,
            dynsym,
            dynstr.bytes@,
            hash,
            rela_plt,
            dynamic,
            sh.0,
            shdrs,
        );
    lemma_layout_for_offsets(sects, il, (24 * dynsym.len()) as int, dstl, hl, 24 * ndyn, dyl, sl);
    crate::linker::dynamic::lemma_needed_len(shared);
    assert(dynamic.len() == shared.len() + 10);
    assert(rela_plt.len() == ndyn);
    assert(shdrs.len() == 14);
    assert(layout_fits_parts(sects, layout, interp, dynsym, dynstr.bytes@, hash, rela_plt, dynamic, sh.0));
    lemma_header_and_parts(img, h, entry, sects, layout, interp, dynsym, dynstr.bytes@, hash, rela_plt, dynamic, sh.0, shdrs);
}


/// The first loaded segment maps the file from its start through `.text`
/// and `.plt` and may be read and run but not written; the read-only
/// segment may only be read; the writable segment may be read and written
/// but not run.
pub proof fn lemma_phdrs_permissions(sects: OutputSectionList, layout: OutputFileLayout)
    requires
        phdrs_fit(sects, layout),
    ensures
        ({
            let ph = spec_phdrs(sects, layout);
            &&& ph.len() == 5
            &&& ph[0].p_type == PT_LOAD && ph[1].p_type == PT_LOAD && ph[2].p_type == PT_LOAD
            &&& ph[3].p_type != PT_LOAD && ph[4].p_type != PT_LOAD
            &&& ph[0].p_offset == 0
            &&& ph[0].p_filesz == layout.text + sects.text.spec_len() + sects.plt.spec_len()
            &&& ph[0].p_flags & PF_R == PF_R && ph[0].p_flags & PF_X == PF_X && ph[0].p_flags & PF_W == 0
            &&& ph[1].p_flags & PF_R == PF_R && ph[1].p_flags & PF_X == 0 && ph[1].p_flags & PF_W == 0
            &&& ph[2].p_flags & PF_R == PF_R && ph[2].p_flags & PF_W == PF_W && ph[2].p_flags & PF_X == 0
        }),
{
    let ph = spec_phdrs(sects, layout);
    let f0 = ph[0].p_flags;
    let f1 = ph[1].p_flags;
    let f2 = ph[2].p_flags;
    assert(f0 & 4 == 4 && f0 & 1 == 1 && f0 & 2 == 0) by (bit_vector)
        requires
            f0 == 4u32 | 1u32,
    ;
    assert(f1 & 4 == 4 && f1 & 1 == 0 && f1 & 2 == 0) by (bit_vector)
        requires
            f1 == 4u32,
    ;
    assert(f2 & 4 == 4 && f2 & 2 == 2 && f2 & 1 == 0) by (bit_vector)
        requires
            f2 == 4u32 | 2u32,
    ;
}


/// The `i`-th `.rela.plt` entry has the loader write into the `i`-th `.got`
/// slot, the one that the `i`-th `.plt` entry jumps through, the address of
/// the `(i + 1)`-th `.dynsym` symbol, which is the `i`-th dynamic symbol:
/// each entry binds its own slot to its own symbol, and no two entries name
/// the same symbol or the same slot.
pub proof fn lemma_rela_plt_binds_slots(got_base: int, d: Seq<DynSymEntry>, names: Map<Seq<u8>, nat>)
    requires
        d.len() < u32::MAX,
    ensures
        spec_rela_plt(got_base, d.len() as int).len() == d.len(),
        forall|i: int|
            0 <= i < d.len() ==> {
                let e = #[trigger] spec_rela_plt(got_base, d.len() as int)[i];
                &&& e.r_offset == (got_base + 8 * i) as u64
                &&& crate::elf64::spec_r_type(e.r_info) == R_X86_64_JUMP_SLOT
                &&& crate::elf64::spec_r_sym(e.r_info) == i + 1
                &&& crate::linker::dynamic::spec_dynsym(d, names)[i + 1].st_name == names[d[i].name@] as u32
            },
        forall|i: int, j: int|
            0 <= i < j < d.len() ==> crate::elf64::spec_r_sym(
                (#[trigger] spec_rela_plt(got_base, d.len() as int)[i]).r_info,
            ) != crate::elf64::spec_r_sym((#[trigger] spec_rela_plt(got_base, d.len() as int)[j]).r_info),
{
    let n = d.len() as int;
    assert forall|i: int| 0 <= i < n implies crate::elf64::spec_r_sym(
        (#[trigger] spec_rela_plt(got_base, n)[i]).r_info,
    ) == i + 1 && crate::elf64::spec_r_type(spec_rela_plt(got_base, n)[i].r_info) == R_X86_64_JUMP_SLOT by {
        crate::elf64::lemma_r_info_roundtrip((i + 1) as u32, R_X86_64_JUMP_SLOT);
    }
}

} // verus!
