//! The procedure linkage table and the global offset table through which
//! the executable reaches the symbols of shared objects.
use vstd::prelude::*;

use crate::codec::{le_bytes, records_bytes, write_records, ElfRecord, SYM_SIZE};
use crate::elf64::{
    spec_st_info, Elf64_Dyn, Elf64_Sym, DT_BIND_NOW, DT_HASH, DT_JMPREL, DT_NEEDED, DT_NULL, DT_PLTREL,
    DT_PLTRELSZ, DT_RELA, DT_STRSZ, DT_STRTAB, DT_SYMENT, DT_SYMTAB, ELF64_ST_INFO, SHN_UNDEF, STB_GLOBAL,
    STT_FUNC,
};
use crate::linker::output::{
    entries_distinct, ro_addr, shdrs_fit, views, OutputFileLayout, Strtab,
};
use crate::linker::relocation::pc32_value;
use crate::linker::section::{OutputSectionBytesKind, OutputSectionList};
use crate::linker::symbol::DynSymEntry;
use crate::linker::{ElfSharedObject, Linker};
use crate::parser::copy_bytes;

verus! {

/// A `.plt` entry: `jmp qword ptr [rip + disp32]`.
pub const PLT_ENTRY_BYTE_SIZE: usize = 6;

/// A `.got` slot holds an address.
pub const GOT_ENTRY_BYTE_SIZE: usize = 8;

/// The `i`-th `.plt` entry: `jmp qword ptr [rip + disp32]` (`FF /4` with
/// ModRM `00 100 101`), whose displacement, taken from the address of the
/// next instruction, reaches the `i`-th `.got` slot.
pub open spec fn plt_entry(plt_base: int, got_base: int, i: int) -> Seq<u8> {
    seq![0xffu8, 0x25u8] + le_bytes(
        ((got_base + 8 * i - (plt_base + 6 * (i + 1))) % 0x1_0000_0000) as nat,
        4,
    )
}

/// `b` is `a` with only the bytes of `.plt` changed, to `plt`.
pub open spec fn plt_replaced(a: OutputSectionList, b: OutputSectionList, plt: Seq<u8>) -> bool {
    &&& b.plt.base == a.plt.base
    &&& b.plt.section_offsets == a.plt.section_offsets
    &&& b.plt.bytes is Bytes
    &&& b.plt.bytes->Bytes_0@ == plt
    &&& b.text == a.text
    &&& b.rodata == a.rodata
    &&& b.data == a.data
    &&& b.bss == a.bss
    &&& b.got == a.got
}

/// `plt` holds the first `n` entries, one after the other.
pub open spec fn plt_filled(plt: Seq<u8>, plt_base: int, got_base: int, n: int) -> bool {
    &&& plt.len() == 6 * n
    &&& forall|i: int| 0 <= i < n ==> #[trigger] plt.subrange(6 * i, 6 * i + 6) == plt_entry(plt_base, got_base, i)
}

/// `plt` is `before` with its first `n` entries written, one after the
/// other, and its other bytes as they were.
pub open spec fn plt_written(before: Seq<u8>, plt: Seq<u8>, plt_base: int, got_base: int, n: int) -> bool {
    &&& plt.len() == before.len()
    &&& forall|i: int| 0 <= i < n ==> #[trigger] plt.subrange(6 * i, 6 * i + 6) == plt_entry(plt_base, got_base, i)
    &&& plt.subrange(6 * n, plt.len() as int) == before.subrange(6 * n, before.len() as int)
}

/// A `.plt` of exactly `n` entries that were all written is filled.
pub proof fn lemma_plt_written_filled(before: Seq<u8>, plt: Seq<u8>, plt_base: int, got_base: int, n: int)
    requires
        plt_written(before, plt, plt_base, got_base, n),
        before.len() == 6 * n,
    ensures
        plt_filled(plt, plt_base, got_base, n),
{
}

impl<'a> Linker<'a> {
    /// Fills the `.plt` with one entry per dynamic symbol, each jumping
    /// through the `.got` slot of that symbol; a `.plt` that holds no bytes
    /// is left as it is.
    pub fn fill_plt(&self, sects: &mut OutputSectionList, dynsym_len: usize)
        requires
            old(sects).plt.bytes is Bytes ==> old(sects).plt.bytes->Bytes_0@.len() >= 6 * dynsym_len,
            old(sects).plt.base + 6 * dynsym_len <= usize::MAX,
            old(sects).got.base + 8 * dynsym_len <= usize::MAX,
        ensures
            match old(sects).plt.bytes {
                OutputSectionBytesKind::NobitsLen(_) => *final(sects) == *old(sects),
                OutputSectionBytesKind::Bytes(b) => exists|plt: Seq<u8>|
                    plt_replaced(*old(sects), *final(sects), plt) && plt_written(
                        b@,
                        plt,
                        old(sects).plt.base as int,
                        old(sects).got.base as int,
                        dynsym_len as int,
                    ),
            },
    {
        if let OutputSectionBytesKind::NobitsLen(_) = &sects.plt.bytes {
            return;
        }
        let ghost s0 = *sects;
        let plt_base = sects.plt.base;
        let got_base = sects.got.base;
        let mut i: usize = 0;
        while i < dynsym_len
            invariant
                s0 == *old(sects),
                plt_base == s0.plt.base,
                got_base == s0.got.base,
                0 <= i <= dynsym_len,
                plt_base + 6 * dynsym_len <= usize::MAX,
                got_base + 8 * dynsym_len <= usize::MAX,
                sects.plt.bytes is Bytes,
                s0.plt.bytes is Bytes,
                plt_replaced(s0, *sects, sects.plt.bytes->Bytes_0@),
                sects.plt.bytes->Bytes_0@.len() == s0.plt.bytes->Bytes_0@.len(),
                s0.plt.bytes->Bytes_0@.len() >= 6 * dynsym_len,
                sects.plt.bytes->Bytes_0@.subrange(6 * i, sects.plt.bytes->Bytes_0@.len() as int)
                    == s0.plt.bytes->Bytes_0@.subrange(6 * i, s0.plt.bytes->Bytes_0@.len() as int),
                forall|j: int|
                    0 <= j < i ==> #[trigger] sects.plt.bytes->Bytes_0@.subrange(6 * j, 6 * j + 6)
                        == plt_entry(plt_base as int, got_base as int, j),
            decreases dynsym_len - i,
        {
            let got_slot_addr = got_base + i * GOT_ENTRY_BYTE_SIZE;
            // the base of rip-relative addressing is the next instruction
            let next_instr_addr = plt_base + (i + 1) * PLT_ENTRY_BYTE_SIZE;
            let disp32 = pc32_value(got_slot_addr, 0, next_instr_addr);
            let ghost before = sects.plt.bytes->Bytes_0@;
            match &mut sects.plt.bytes {
                OutputSectionBytesKind::Bytes(bytes) => {
                    bytes.set(i * PLT_ENTRY_BYTE_SIZE, 0xff);
                    bytes.set(i * PLT_ENTRY_BYTE_SIZE + 1, 0x25);
                    crate::linker::relocation::write_le_at(bytes, i * PLT_ENTRY_BYTE_SIZE + 2, disp32, 4);
                },
                OutputSectionBytesKind::NobitsLen(_) => {},
            }
            proof {
                let after = sects.plt.bytes->Bytes_0@;
                crate::codec::lemma_le_bytes_len(disp32 as nat, 4);
                assert(after.subrange(6 * i, 6 * i + 6) =~= plt_entry(plt_base as int, got_base as int, i as int));
                assert forall|j: int| 0 <= j < i implies #[trigger] after.subrange(6 * j, 6 * j + 6)
                    == plt_entry(plt_base as int, got_base as int, j) by {
                    assert(after.subrange(6 * j, 6 * j + 6) =~= before.subrange(6 * j, 6 * j + 6));
                }
                assert(after.subrange(6 * (i + 1), after.len() as int) =~= before.subrange(
                    6 * (i + 1),
                    before.len() as int,
                ));
                assert(before.subrange(6 * (i + 1), before.len() as int) =~= s0.plt.bytes->Bytes_0@.subrange(
                    6 * i,
                    s0.plt.bytes->Bytes_0@.len() as int,
                ).subrange(6, s0.plt.bytes->Bytes_0@.len() - 6 * i));
                assert(s0.plt.bytes->Bytes_0@.subrange(6 * (i + 1), s0.plt.bytes->Bytes_0@.len() as int)
                    =~= s0.plt.bytes->Bytes_0@.subrange(6 * i, s0.plt.bytes->Bytes_0@.len() as int).subrange(
                    6,
                    s0.plt.bytes->Bytes_0@.len() - 6 * i,
                ));
            }
            i = i + 1;
        }
        proof {
            let p = sects.plt.bytes->Bytes_0@;
            assert(plt_written(s0.plt.bytes->Bytes_0@, p, plt_base as int, got_base as int, dynsym_len as int));
        }
    }
}

/// The signed value of a 32-bit word.
pub open spec fn i32_of(v: nat) -> int {
    if v < 0x8000_0000 {
        v as int
    } else {
        v - 0x1_0000_0000
    }
}

/// A `.plt` entry is an indirect jump whose target address is read from its
/// `.got` slot: the displacement it holds, added to the address of the next
/// instruction, is the address of the slot, whenever the slot is within the
/// reach of a 32-bit displacement.
pub proof fn lemma_plt_entry_reaches_got_slot(plt_base: int, got_base: int, i: int)
    requires
        -0x8000_0000 <= got_base + 8 * i - (plt_base + 6 * (i + 1)) < 0x8000_0000,
    ensures
        plt_entry(plt_base, got_base, i).len() == 6,
        plt_entry(plt_base, got_base, i)[0] == 0xff,
        plt_entry(plt_base, got_base, i)[1] == 0x25,
        plt_base + 6 * (i + 1) + i32_of(
            crate::codec::le_value(plt_entry(plt_base, got_base, i).subrange(2, 6)),
        ) == got_base + 8 * i,
{
    let d = got_base + 8 * i - (plt_base + 6 * (i + 1));
    let x = (d % 0x1_0000_0000) as nat;
    crate::codec::lemma_pow256_values();
    crate::codec::lemma_le_roundtrip(x, 4);
    assert(plt_entry(plt_base, got_base, i).subrange(2, 6) =~= le_bytes(x, 4));
}

/// The entries of `.dynamic` besides the `DT_NEEDED` ones: `DT_HASH`,
/// `DT_STRTAB`, `DT_SYMTAB`, `DT_STRSZ`, `DT_SYMENT`, `DT_JMPREL`,
/// `DT_PLTRELSZ`, `DT_PLTREL`, `DT_BIND_NOW` and the closing `DT_NULL`.
pub const DYNAMIC_FIXED_ENTRY_COUNT: usize = 10;

/// The SysV hash table of `.dynsym` (`.hash`): the number of buckets and of
/// chain links, the buckets, and the chain links.
pub struct DynsymHashTable {
    pub nbucket: u32,
    pub nchain: u32,
    pub buckets: Vec<u32>,
    pub chains: Vec<u32>,
}

impl DynsymHashTable {
    /// The words of the table, in the order of the file.
    pub open spec fn words(&self) -> Seq<u32> {
        seq![self.nbucket, self.nchain] + self.buckets@ + self.chains@
    }

    /// The bytes of the table in the file.
    pub open spec fn spec_bytes(&self) -> Seq<u8> {
        records_bytes(self.words())
    }
}

/// `t` is the table of `nsyms` dynamic symbols (the null one included) with
/// a single bucket: whatever a name hashes to, its lookup starts at the last
/// symbol, and the chain leads from each symbol to the one before it.
pub open spec fn single_bucket(t: DynsymHashTable, nsyms: int) -> bool {
    &&& t.nbucket == 1
    &&& t.nchain == nsyms
    &&& t.buckets@ == seq![(nsyms - 1) as u32]
    &&& t.chains@ == Seq::new(nsyms as nat, |i: int| if i == 0 { 0u32 } else { (i - 1) as u32 })
}

/// The words of the single-bucket table of `nsyms` dynamic symbols.
pub open spec fn single_bucket_words(nsyms: int) -> Seq<u32> {
    seq![1u32, nsyms as u32, (nsyms - 1) as u32] + Seq::new(
        nsyms as nat,
        |i: int| if i == 0 { 0u32 } else { (i - 1) as u32 },
    )
}

impl DynsymHashTable {
    /// The table of `nsyms` dynamic symbols (the null one included), with a
    /// single bucket whose chain holds every symbol.
    pub fn new(nsyms: usize) -> (r: Self)
        requires
            1 <= nsyms <= u32::MAX,
        ensures
            single_bucket(r, nsyms as int),
            r.words() == single_bucket_words(nsyms as int),
    {
        let mut chains: Vec<u32> = Vec::new();
        let mut i: usize = 0;
        while i < nsyms
            invariant
                0 <= i <= nsyms <= u32::MAX,
                chains@ == Seq::new(i as nat, |k: int| if k == 0 { 0u32 } else { (k - 1) as u32 }),
            decreases nsyms - i,
        {
            // STN_UNDEF (0) ends the chain
            let link: u32 = if i == 0 { 0 } else { (i - 1) as u32 };
            chains.push(link);
            assert(chains@ =~= Seq::new((i + 1) as nat, |k: int| if k == 0 { 0u32 } else { (k - 1) as u32 }));
            i = i + 1;
        }
        let buckets = vec![(nsyms - 1) as u32];
        assert(buckets@ =~= seq![(nsyms - 1) as u32]);
        let r = DynsymHashTable { nbucket: 1, nchain: nsyms as u32, buckets, chains };
        assert(r.words() =~= single_bucket_words(nsyms as int));
        r
    }

    /// The length of the table in bytes.
    pub fn bytes_len(&self) -> (r: usize)
        requires
            4 * self.words().len() <= usize::MAX,
        ensures
            r == 4 * self.words().len(),
            r == self.spec_bytes().len(),
    {
        proof {
            lemma_hash_bytes_len(*self);
        }
        4 * (2 + self.buckets.len() + self.chains.len())
    }

    /// The bytes of the table in the file.
    pub fn as_bytes(&self) -> (r: Vec<u8>)
        ensures
            r@ == self.spec_bytes(),
    {
        let mut words: Vec<u32> = vec![self.nbucket, self.nchain];
        let mut i: usize = 0;
        while i < self.buckets.len()
            invariant
                0 <= i <= self.buckets@.len(),
                words@ == seq![self.nbucket, self.nchain] + self.buckets@.take(i as int),
            decreases self.buckets@.len() - i,
        {
            words.push(self.buckets[i]);
            assert(self.buckets@.take(i + 1) =~= self.buckets@.take(i as int).push(self.buckets@[i as int]));
            i = i + 1;
        }
        let mut j: usize = 0;
        assert(self.buckets@.take(self.buckets@.len() as int) =~= self.buckets@);
        while j < self.chains.len()
            invariant
                0 <= j <= self.chains@.len(),
                words@ == seq![self.nbucket, self.nchain] + self.buckets@ + self.chains@.take(j as int),
            decreases self.chains@.len() - j,
        {
            words.push(self.chains[j]);
            assert(self.chains@.take(j + 1) =~= self.chains@.take(j as int).push(self.chains@[j as int]));
            j = j + 1;
        }
        assert(self.chains@.take(self.chains@.len() as int) =~= self.chains@);
        assert(words@ =~= self.words());
        let mut out: Vec<u8> = Vec::new();
        write_records(&mut out, words.as_slice());
        assert(out@ =~= self.spec_bytes());
        out
    }
}

/// Each word of the table takes four bytes.
pub proof fn lemma_hash_bytes_len(t: DynsymHashTable)
    ensures
        t.spec_bytes().len() == 4 * t.words().len(),
{
    assert forall|j: int| 0 <= j < t.words().len() implies (#[trigger] t.words()[j].record_bytes()).len() == 4 by {
        crate::codec::lemma_le_bytes_len(t.words()[j] as nat, 4);
    }
    crate::codec::lemma_records_len(t.words(), 4);
}

/// The symbol reached from `start` after `j` links of a chain.
pub open spec fn chain_walk(chains: Seq<u32>, start: u32, j: nat) -> u32
    decreases j,
{
    if j == 0 {
        start
    } else {
        chains[chain_walk(chains, start, (j - 1) as nat) as int]
    }
}

/// A lookup in a single-bucket table walks through every dynamic symbol,
/// from the last to the first, and then reaches the null symbol, which ends
/// the chain: whatever the hash of a name, the loader finds it if it is
/// there.
pub proof fn lemma_hash_chain_visits_all(t: DynsymHashTable, nsyms: int, j: nat)
    requires
        single_bucket(t, nsyms),
        1 <= nsyms <= u32::MAX,
        j < nsyms,
    ensures
        chain_walk(t.chains@, t.buckets@[0], j) == nsyms - 1 - j,
        j == nsyms - 1 ==> t.chains@[chain_walk(t.chains@, t.buckets@[0], j) as int] == 0,
    decreases j,
{
    if j > 0 {
        lemma_hash_chain_visits_all(t, nsyms, (j - 1) as nat);
    }
}

/// The `.dynsym` entry of a symbol taken from a shared object: a global
/// function, undefined here, named at `name` in `.dynstr`.
pub open spec fn dynsym_entry(name: nat) -> Elf64_Sym {
    Elf64_Sym {
        st_name: name as u32,
        st_info: spec_st_info(STB_GLOBAL, STT_FUNC),
        st_other: 0,
        st_shndx: SHN_UNDEF,
        st_value: 0,
        st_size: 0,
    }
}

/// The null symbol, first of every symbol table.
pub open spec fn null_sym() -> Elf64_Sym {
    Elf64_Sym { st_name: 0, st_info: 0, st_other: 0, st_shndx: 0, st_value: 0, st_size: 0 }
}

/// `.dynsym`: the null symbol, then one entry per dynamic symbol, in order,
/// named through `names`, the offsets of `.dynstr`.
pub open spec fn spec_dynsym(dyn_syms: Seq<DynSymEntry>, names: Map<Seq<u8>, nat>) -> Seq<Elf64_Sym> {
    Seq::new(
        (dyn_syms.len() + 1) as nat,
        |i: int| if i == 0 { null_sym() } else { dynsym_entry(names[dyn_syms[i - 1].name@]) },
    )
}

/// Every dynamic symbol is named in the string table.
pub open spec fn names_in(dyn_syms: Seq<DynSymEntry>, names: Map<Seq<u8>, nat>) -> bool {
    forall|j: int| 0 <= j < dyn_syms.len() ==> names.contains_key(#[trigger] dyn_syms[j].name@)
}

/// The symbols of `.dynsym`.
pub fn generate_dynsym(dyn_syms: &Vec<DynSymEntry>, dynstr: &Strtab) -> (r: Vec<Elf64_Sym>)
    requires
        names_in(dyn_syms@, dynstr.spec_table().1),
        entries_distinct(dynstr.offsets@),
    ensures
        r@ == spec_dynsym(dyn_syms@, dynstr.spec_table().1),
{
    let mut r: Vec<Elf64_Sym> = vec![
        Elf64_Sym { st_name: 0, st_info: 0, st_other: 0, st_shndx: 0, st_value: 0, st_size: 0 },
    ];
    let info = ELF64_ST_INFO(STB_GLOBAL, STT_FUNC);
    let mut i: usize = 0;
    while i < dyn_syms.len()
        invariant
            0 <= i <= dyn_syms@.len(),
            info == spec_st_info(STB_GLOBAL, STT_FUNC),
            names_in(dyn_syms@, dynstr.spec_table().1),
            entries_distinct(dynstr.offsets@),
            r@ == spec_dynsym(dyn_syms@.take(i as int), dynstr.spec_table().1),
        decreases dyn_syms@.len() - i,
    {
        let name_off = dynstr.offset_of(dyn_syms[i].name.as_slice());
        r.push(
            Elf64_Sym {
                st_name: name_off,
                st_info: info,
                st_other: 0,
                st_shndx: SHN_UNDEF,
                st_value: 0,
                st_size: 0,
            },
        );
        assert(r@ =~= spec_dynsym(dyn_syms@.take(i + 1), dynstr.spec_table().1));
        i = i + 1;
    }
    assert(dyn_syms@.take(dyn_syms@.len() as int) =~= dyn_syms@);
    r
}

/// The names of the shared objects that give themselves one (`DT_SONAME`),
/// in order: the libraries that the executable needs.
pub open spec fn needed_names(shared: Seq<ElfSharedObject>) -> Seq<Seq<u8>>
    decreases shared.len(),
{
    if shared.len() == 0 {
        Seq::empty()
    } else {
        let p = needed_names(shared.drop_last());
        match shared.last().soname {
            Some(n) => p.push(n@),
            None => p,
        }
    }
}

/// A `.dynamic` entry.
pub open spec fn dyn_entry(tag: i64, val: int) -> Elf64_Dyn {
    Elf64_Dyn { d_tag: tag, d_un: val as u64 }
}

/// `.dynamic`: a `DT_NEEDED` entry for each needed library, named through
/// `names`, the offsets of `.dynstr`; then the addresses of `.hash`,
/// `.dynstr` and `.dynsym`, the length of `.dynstr`, the size of a symbol,
/// the address and length of `.rela.plt`, whose relocations are `Elf64_Rela`
/// records; `DT_BIND_NOW`, since `.got` is filled before the program starts;
/// and `DT_NULL`.
pub open spec fn spec_dynamic(
    sects: OutputSectionList,
    layout: OutputFileLayout,
    names: Map<Seq<u8>, nat>,
    shared: Seq<ElfSharedObject>,
) -> Seq<Elf64_Dyn> {
    let needed = needed_names(shared);
    Seq::new(needed.len(), |i: int| dyn_entry(DT_NEEDED, names[needed[i]] as int)) + seq![
        dyn_entry(DT_HASH, ro_addr(sects, layout, layout.hash as int)),
        dyn_entry(DT_STRTAB, ro_addr(sects, layout, layout.dynstr as int)),
        dyn_entry(DT_SYMTAB, ro_addr(sects, layout, layout.dynsym as int)),
        dyn_entry(DT_STRSZ, layout.dynstr_len as int),
        dyn_entry(DT_SYMENT, SYM_SIZE as int),
        dyn_entry(DT_JMPREL, ro_addr(sects, layout, layout.rela_plt as int)),
        dyn_entry(DT_PLTRELSZ, layout.rela_plt_len as int),
        dyn_entry(DT_PLTREL, DT_RELA as int),
        dyn_entry(DT_BIND_NOW, 0),
        dyn_entry(DT_NULL, 0),
    ] + Seq::new((shared.len() - needed.len()) as nat, |i: int| dyn_entry(DT_NULL, 0))
}

/// There is at most one needed library per shared object.
pub proof fn lemma_needed_len(shared: Seq<ElfSharedObject>)
    ensures
        needed_names(shared).len() <= shared.len(),
    decreases shared.len(),
{
    if shared.len() > 0 {
        lemma_needed_len(shared.drop_last());
    }
}

impl<'a> Linker<'a> {
    /// The names of the libraries that the executable needs: the names that
    /// the shared objects give themselves, in order.
    pub fn needed_list(&self) -> (r: Vec<Vec<u8>>)
        ensures
            views(r@) == needed_names(self.shared_objs@),
    {
        let mut r: Vec<Vec<u8>> = Vec::new();
        let mut i: usize = 0;
        while i < self.shared_objs.len()
            invariant
                0 <= i <= self.shared_objs@.len(),
                views(r@) == needed_names(self.shared_objs@.take(i as int)),
            decreases self.shared_objs@.len() - i,
        {
            assert(self.shared_objs@.take(i + 1).drop_last() =~= self.shared_objs@.take(i as int));
            match &self.shared_objs[i].soname {
                Some(n) => {
                    r.push(copy_bytes(n.as_slice()));
                    assert(views(r@) =~= needed_names(self.shared_objs@.take(i + 1)));
                },
                None => {},
            }
            i = i + 1;
        }
        assert(self.shared_objs@.take(self.shared_objs@.len() as int) =~= self.shared_objs@);
        r
    }

    /// The entries of `.dynamic`.
    pub fn generate_dynamic(&self, sects: &OutputSectionList, layout: &OutputFileLayout, dynstr: &Strtab) -> (r: Vec<
        Elf64_Dyn,
    >)
        requires
            shdrs_fit(*sects, *layout),
            forall|j: int|
                0 <= j < needed_names(self.shared_objs@).len() ==> dynstr.spec_table().1.contains_key(
                    #[trigger] needed_names(self.shared_objs@)[j],
                ),
            entries_distinct(dynstr.offsets@),
        ensures
            r@ == spec_dynamic(*sects, *layout, dynstr.spec_table().1, self.shared_objs@),
    {
        let needed = self.needed_list();
        let ghost names = dynstr.spec_table().1;
        let mut r: Vec<Elf64_Dyn> = Vec::new();
        let mut i: usize = 0;
        while i < needed.len()
            invariant
                0 <= i <= needed@.len(),
                views(needed@) == needed_names(self.shared_objs@),
                names == dynstr.spec_table().1,
                forall|j: int|
                    0 <= j < needed_names(self.shared_objs@).len() ==> names.contains_key(
                        #[trigger] needed_names(self.shared_objs@)[j],
                    ),
                entries_distinct(dynstr.offsets@),
                r@ == Seq::new(i as nat, |k: int| dyn_entry(DT_NEEDED, names[views(needed@)[k]] as int)),
            decreases needed@.len() - i,
        {
            assert(views(needed@)[i as int] == needed@[i as int]@);
            let off = dynstr.offset_of(needed[i].as_slice());
            r.push(Elf64_Dyn { d_tag: DT_NEEDED, d_un: off as u64 });
            assert(r@ =~= Seq::new((i + 1) as nat, |k: int| dyn_entry(DT_NEEDED, names[views(needed@)[k]] as int)));
            i = i + 1;
        }
        r.push(Elf64_Dyn { d_tag: DT_HASH, d_un: layout.addr_in_rodata_segment(sects, layout.hash) as u64 });
        r.push(Elf64_Dyn { d_tag: DT_STRTAB, d_un: layout.addr_in_rodata_segment(sects, layout.dynstr) as u64 });
        r.push(Elf64_Dyn { d_tag: DT_SYMTAB, d_un: layout.addr_in_rodata_segment(sects, layout.dynsym) as u64 });
        r.push(Elf64_Dyn { d_tag: DT_STRSZ, d_un: layout.dynstr_len as u64 });
        r.push(Elf64_Dyn { d_tag: DT_SYMENT, d_un: SYM_SIZE as u64 });
        r.push(Elf64_Dyn { d_tag: DT_JMPREL, d_un: layout.addr_in_rodata_segment(sects, layout.rela_plt) as u64 });
        r.push(Elf64_Dyn { d_tag: DT_PLTRELSZ, d_un: layout.rela_plt_len as u64 });
        r.push(Elf64_Dyn { d_tag: DT_PLTREL, d_un: DT_RELA as u64 });
        // the loader fills `.got` before the program starts
        r.push(Elf64_Dyn { d_tag: DT_BIND_NOW, d_un: 0 });
        r.push(Elf64_Dyn { d_tag: DT_NULL, d_un: 0 });
        // room for a `DT_NEEDED` entry for each shared object; those that
        // give themselves no name leave theirs as `DT_NULL`
        proof {
            lemma_needed_len(self.shared_objs@);
        }
        let fixed = r.len();
        let ghost old_r = r@;
        let pad = self.shared_objs.len() - needed.len();
        let mut k: usize = 0;
        while k < pad
            invariant
                0 <= k <= pad,
                r@.len() == fixed + k,
                forall|j: int| fixed <= j < r@.len() ==> #[trigger] r@[j] == dyn_entry(DT_NULL, 0),
                forall|j: int| 0 <= j < fixed ==> #[trigger] r@[j] == old_r[j],
            decreases pad - k,
        {
            r.push(Elf64_Dyn { d_tag: DT_NULL, d_un: 0 });
            k = k + 1;
        }
        assert(r@ =~= spec_dynamic(*sects, *layout, names, self.shared_objs@));
        r
    }
}

/// The path of the dynamic linker that the executable asks for when none is
/// given: `/lib64/ld-linux-x86-64.so.2`.
pub open spec fn spec_default_interp() -> Seq<u8> {
    seq![
        0x2fu8, 0x6c, 0x69, 0x62, 0x36, 0x34, 0x2f, 0x6c, 0x64, 0x2d, 0x6c, 0x69, 0x6e, 0x75, 0x78, 0x2d,
        0x78, 0x38, 0x36, 0x2d, 0x36, 0x34, 0x2e, 0x73, 0x6f, 0x2e, 0x32,
    ]
}

/// `.interp`: the path of the dynamic linker, ended by a NUL byte.
pub open spec fn spec_interp(dyn_linker: Option<Vec<u8>>) -> Seq<u8> {
    match dyn_linker {
        Some(p) => p@.push(0),
        None => spec_default_interp().push(0),
    }
}

/// The bytes of `.interp`: the given path of the dynamic linker, or the
/// default one, ended by a NUL byte.
pub fn build_interp(dyn_linker: &Option<Vec<u8>>) -> (r: Vec<u8>)
    ensures
        r@ == spec_interp(*dyn_linker),
{
    let mut r = match dyn_linker {
        Some(p) => copy_bytes(p.as_slice()),
        None => {
            let d: Vec<u8> = vec![
                0x2f, 0x6c, 0x69, 0x62, 0x36, 0x34, 0x2f, 0x6c, 0x64, 0x2d, 0x6c, 0x69, 0x6e, 0x75, 0x78,
                0x2d, 0x78, 0x38, 0x36, 0x2d, 0x36, 0x34, 0x2e, 0x73, 0x6f, 0x2e, 0x32,
            ];
            assert(d@ =~= spec_default_interp());
            d
        },
    };
    r.push(0);
    r
}

} // verus!
