//! Little-endian encoding of integers, and of the fixed-size ELF records
//! that the linker reads from object files and writes to its output.
use vstd::prelude::*;

use crate::elf64::{Elf64_Dyn, Elf64_Ehdr, Elf64_Phdr, Elf64_Rela, Elf64_Shdr, Elf64_Sym};

verus! {

/// `256` to the power `n`.
pub open spec fn pow256(n: nat) -> nat
    decreases n,
{
    if n == 0 {
        1
    } else {
        256 * pow256((n - 1) as nat)
    }
}

/// The unsigned value of a little-endian byte sequence.
pub open spec fn le_value(s: Seq<u8>) -> nat
    decreases s.len(),
{
    if s.len() == 0 {
        0
    } else {
        (s[0] + 256 * le_value(s.drop_first())) as nat
    }
}

/// The `n` low bytes of `v`, least significant first.
pub open spec fn le_bytes(v: nat, n: nat) -> Seq<u8>
    decreases n,
{
    if n == 0 {
        Seq::empty()
    } else {
        seq![(v % 256) as u8] + le_bytes(v / 256, (n - 1) as nat)
    }
}

/// The little-endian field of `n` bytes at offset `a` of `s`.
pub open spec fn field(s: Seq<u8>, a: int, n: int) -> nat {
    le_value(s.subrange(a, a + n))
}

/// Two's complement reading of a 64-bit word.
pub open spec fn u64_to_i64(v: nat) -> int {
    if v < 0x8000_0000_0000_0000 {
        v as int
    } else {
        v - 0x1_0000_0000_0000_0000
    }
}

/// Two's complement bits of a signed 64-bit value.
pub open spec fn i64_to_u64(x: int) -> nat {
    if x >= 0 {
        x as nat
    } else {
        (x + 0x1_0000_0000_0000_0000) as nat
    }
}

pub proof fn lemma_pow256_values()
    ensures
        pow256(0) == 1,
        pow256(1) == 0x100,
        pow256(2) == 0x1_0000,
        pow256(4) == 0x1_0000_0000,
        pow256(8) == 0x1_0000_0000_0000_0000,
{
    reveal_with_fuel(pow256, 9);
}

pub proof fn lemma_pow256_monotone(a: nat, b: nat)
    requires
        a <= b,
    ensures
        pow256(a) <= pow256(b),
        pow256(a) >= 1,
    decreases b,
{
    if b > 0 && a < b {
        lemma_pow256_monotone(a, (b - 1) as nat);
    } else if b > 0 {
        lemma_pow256_monotone((a - 1) as nat, (b - 1) as nat);
    }
}

/// A little-endian value is below `256` to the power of its length.
pub proof fn lemma_le_value_bound(s: Seq<u8>)
    ensures
        le_value(s) < pow256(s.len()),
    decreases s.len(),
{
    if s.len() > 0 {
        lemma_le_value_bound(s.drop_first());
    }
}

pub proof fn lemma_le_bytes_len(v: nat, n: nat)
    ensures
        le_bytes(v, n).len() == n,
    decreases n,
{
    if n > 0 {
        lemma_le_bytes_len(v / 256, (n - 1) as nat);
    }
}

/// Reading back `n` written bytes gives the value, for a value that fits.
pub proof fn lemma_le_roundtrip(v: nat, n: nat)
    requires
        v < pow256(n),
    ensures
        le_value(le_bytes(v, n)) == v,
        le_bytes(v, n).len() == n,
    decreases n,
{
    lemma_le_bytes_len(v, n);
    if n > 0 {
        let rest = le_bytes(v / 256, (n - 1) as nat);
        assert(le_bytes(v, n).drop_first() =~= rest);
        lemma_le_roundtrip(v / 256, (n - 1) as nat);
    }
}

/// Writing the bytes of a sequence's value gives back the sequence.
pub proof fn lemma_le_bytes_of_value(s: Seq<u8>)
    ensures
        le_bytes(le_value(s), s.len()) == s,
    decreases s.len(),
{
    if s.len() > 0 {
        lemma_le_bytes_of_value(s.drop_first());
        let v = le_value(s);
        assert(v % 256 == s[0]);
        assert(v / 256 == le_value(s.drop_first()));
        assert(le_bytes(v, s.len()) =~= s);
    }
}

/// Reads the little-endian unsigned value of the `n` bytes at `off`.
pub fn read_le(bin: &[u8], off: usize, n: usize) -> (r: u64)
    requires
        off + n <= bin@.len(),
        n <= 8,
    ensures
        r == field(bin@, off as int, n as int),
{
    let mut acc: u64 = 0;
    let mut i: usize = n;
    proof {
        lemma_pow256_values();
    }
    while i > 0
        invariant
            0 <= i <= n <= 8,
            off + n <= bin.len(),
            pow256(8) == 0x1_0000_0000_0000_0000,
            acc == le_value(bin@.subrange(off + i, off + n)),
            acc < pow256((n - i) as nat),
        decreases i,
    {
        let b = bin[off + i - 1];
        proof {
            let s = bin@.subrange(off + i - 1, off + n);
            assert(s.drop_first() =~= bin@.subrange(off + i, off + n));
            lemma_pow256_monotone((n - i + 1) as nat, 8);
            assert(pow256((n - i + 1) as nat) == 256 * pow256((n - i) as nat));
        }
        acc = acc * 256 + b as u64;
        i = i - 1;
    }
    acc
}

/// Appends the `n` low bytes of `v`, least significant first.
pub fn write_le(out: &mut Vec<u8>, v: u64, n: usize)
    ensures
        final(out)@ == old(out)@ + le_bytes(v as nat, n as nat),
{
    let mut x: u64 = v;
    let mut i: usize = 0;
    while i < n
        invariant
            0 <= i <= n,
            out@ + le_bytes(x as nat, (n - i) as nat) == old(out)@ + le_bytes(v as nat, n as nat),
        decreases n - i,
    {
        let ghost before = out@;
        out.push((x % 256) as u8);
        proof {
            let k = (n - i) as nat;
            assert(le_bytes(x as nat, k) == seq![(x % 256) as u8] + le_bytes((x / 256) as nat, (k
                - 1) as nat));
            assert(out@ + le_bytes((x / 256) as nat, (k - 1) as nat) =~= before + le_bytes(
                x as nat,
                k,
            ));
        }
        x = x / 256;
        i = i + 1;
    }
    assert(le_bytes(x as nat, 0) =~= Seq::<u8>::empty());
    assert(out@ =~= out@ + le_bytes(x as nat, 0));
}

/// Converts a 64-bit word to the signed value of its two's complement bits.
pub fn word_to_i64(v: u64) -> (r: i64)
    ensures
        r == u64_to_i64(v as nat),
{
    if v < 0x8000_0000_0000_0000 {
        v as i64
    } else {
        let d = (0xffff_ffff_ffff_ffff - v) as i64;
        -d - 1
    }
}

/// The two's complement bits of a signed 64-bit value.
pub fn i64_to_word(x: i64) -> (r: u64)
    ensures
        r == i64_to_u64(x as int),
{
    if x >= 0 {
        x as u64
    } else {
        let d = (-(x + 1)) as u64;
        0xffff_ffff_ffff_ffff - d
    }
}

pub proof fn lemma_i64_word_roundtrip(x: i64)
    ensures
        u64_to_i64(i64_to_u64(x as int)) == x,
        i64_to_u64(x as int) < 0x1_0000_0000_0000_0000,
{
}

/* ---- Elf64_Ehdr (64 bytes) ---- */

pub const EHDR_SIZE: usize = 64;

/// `h` is what the 64 bytes of `s` hold as a file header.
pub open spec fn ehdr_matches(h: Elf64_Ehdr, s: Seq<u8>) -> bool {
    &&& s.len() == 64
    &&& h.e_ident@ == s.subrange(0, 16)
    &&& h.e_type == field(s, 16, 2)
    &&& h.e_machine == field(s, 18, 2)
    &&& h.e_version == field(s, 20, 4)
    &&& h.e_entry == field(s, 24, 8)
    &&& h.e_phoff == field(s, 32, 8)
    &&& h.e_shoff == field(s, 40, 8)
    &&& h.e_flags == field(s, 48, 4)
    &&& h.e_ehsize == field(s, 52, 2)
    &&& h.e_phentsize == field(s, 54, 2)
    &&& h.e_phnum == field(s, 56, 2)
    &&& h.e_shentsize == field(s, 58, 2)
    &&& h.e_shnum == field(s, 60, 2)
    &&& h.e_shstrndx == field(s, 62, 2)
}

/// The bytes of a file header, in the order of its fields.
pub open spec fn ehdr_bytes(h: Elf64_Ehdr) -> Seq<u8> {
    h.e_ident@ + le_bytes(h.e_type as nat, 2) + le_bytes(h.e_machine as nat, 2) + le_bytes(
        h.e_version as nat,
        4,
    ) + le_bytes(h.e_entry as nat, 8) + le_bytes(h.e_phoff as nat, 8) + le_bytes(
        h.e_shoff as nat,
        8,
    ) + le_bytes(h.e_flags as nat, 4) + le_bytes(h.e_ehsize as nat, 2) + le_bytes(
        h.e_phentsize as nat,
        2,
    ) + le_bytes(h.e_phnum as nat, 2) + le_bytes(h.e_shentsize as nat, 2) + le_bytes(
        h.e_shnum as nat,
        2,
    ) + le_bytes(h.e_shstrndx as nat, 2)
}

/// Reads the file header in the first 64 bytes of `bin`.
pub fn parse_ehdr(bin: &[u8]) -> (h: Elf64_Ehdr)
    requires
        bin@.len() >= 64,
    ensures
        ehdr_matches(h, bin@.subrange(0, 64)),
{
    let ident: [u8; 16] = [
        bin[0],
        bin[1],
        bin[2],
        bin[3],
        bin[4],
        bin[5],
        bin[6],
        bin[7],
        bin[8],
        bin[9],
        bin[10],
        bin[11],
        bin[12],
        bin[13],
        bin[14],
        bin[15],
    ];
    let h = Elf64_Ehdr {
        e_ident: ident,
        e_type: read_le(bin, 16, 2) as u16,
        e_machine: read_le(bin, 18, 2) as u16,
        e_version: read_le(bin, 20, 4) as u32,
        e_entry: read_le(bin, 24, 8),
        e_phoff: read_le(bin, 32, 8),
        e_shoff: read_le(bin, 40, 8),
        e_flags: read_le(bin, 48, 4) as u32,
        e_ehsize: read_le(bin, 52, 2) as u16,
        e_phentsize: read_le(bin, 54, 2) as u16,
        e_phnum: read_le(bin, 56, 2) as u16,
        e_shentsize: read_le(bin, 58, 2) as u16,
        e_shnum: read_le(bin, 60, 2) as u16,
        e_shstrndx: read_le(bin, 62, 2) as u16,
    };
    proof {
        let s = bin@.subrange(0, 64);
        assert forall|a: int, n: int| 0 <= a && 0 <= n && a + n <= 64 implies field(s, a, n)
            == field(bin@, a, n) by {
            assert(s.subrange(a, a + n) =~= bin@.subrange(a, a + n));
        }
        lemma_small_fields(bin@);
        assert(h.e_ident@ =~= s.subrange(0, 16));
    }
    h
}

/// Fields of two and four bytes fit their types.
proof fn lemma_small_fields(s: Seq<u8>)
    ensures
        forall|a: int|
            0 <= a && a + 2 <= s.len() ==> #[trigger] field(s, a, 2) < 0x1_0000,
        forall|a: int|
            0 <= a && a + 4 <= s.len() ==> #[trigger] field(s, a, 4) < 0x1_0000_0000,
{
    lemma_pow256_values();
    assert forall|a: int| 0 <= a && a + 2 <= s.len() implies #[trigger] field(s, a, 2)
        < 0x1_0000 by {
        lemma_le_value_bound(s.subrange(a, a + 2));
    }
    assert forall|a: int| 0 <= a && a + 4 <= s.len() implies #[trigger] field(s, a, 4)
        < 0x1_0000_0000 by {
        lemma_le_value_bound(s.subrange(a, a + 4));
    }
}


/// Writes the bytes of a file header.
pub fn write_ehdr(out: &mut Vec<u8>, h: &Elf64_Ehdr)
    ensures
        final(out)@ == old(out)@ + ehdr_bytes(*h),
{
    let mut i: usize = 0;
    while i < 16
        invariant
            0 <= i <= 16,
            out@ == old(out)@ + h.e_ident@.subrange(0, i as int),
        decreases 16 - i,
    {
        out.push(h.e_ident[i]);
        assert(h.e_ident@.subrange(0, i + 1) =~= h.e_ident@.subrange(0, i as int).push(
            h.e_ident@[i as int],
        ));
        i = i + 1;
    }
    assert(h.e_ident@.subrange(0, 16) =~= h.e_ident@);
    write_le(out, h.e_type as u64, 2);
    write_le(out, h.e_machine as u64, 2);
    write_le(out, h.e_version as u64, 4);
    write_le(out, h.e_entry, 8);
    write_le(out, h.e_phoff, 8);
    write_le(out, h.e_shoff, 8);
    write_le(out, h.e_flags as u64, 4);
    write_le(out, h.e_ehsize as u64, 2);
    write_le(out, h.e_phentsize as u64, 2);
    write_le(out, h.e_phnum as u64, 2);
    write_le(out, h.e_shentsize as u64, 2);
    write_le(out, h.e_shnum as u64, 2);
    write_le(out, h.e_shstrndx as u64, 2);
    assert(out@ =~= old(out)@ + ehdr_bytes(*h));
}

/// The bytes written for a file header read back as that header.
pub proof fn lemma_ehdr_roundtrip(h: Elf64_Ehdr)
    ensures
        ehdr_matches(h, ehdr_bytes(h)),
{
    lemma_pow256_values();
    let s = ehdr_bytes(h);
    lemma_le_roundtrip(h.e_type as nat, 2);
    lemma_le_roundtrip(h.e_machine as nat, 2);
    lemma_le_roundtrip(h.e_version as nat, 4);
    lemma_le_roundtrip(h.e_entry as nat, 8);
    lemma_le_roundtrip(h.e_phoff as nat, 8);
    lemma_le_roundtrip(h.e_shoff as nat, 8);
    lemma_le_roundtrip(h.e_flags as nat, 4);
    lemma_le_roundtrip(h.e_ehsize as nat, 2);
    lemma_le_roundtrip(h.e_phentsize as nat, 2);
    lemma_le_roundtrip(h.e_phnum as nat, 2);
    lemma_le_roundtrip(h.e_shentsize as nat, 2);
    lemma_le_roundtrip(h.e_shnum as nat, 2);
    lemma_le_roundtrip(h.e_shstrndx as nat, 2);
    assert(s.len() == 64);
    assert(s.subrange(0, 16) =~= h.e_ident@);
    assert(s.subrange(16, 18) =~= le_bytes(h.e_type as nat, 2));
    assert(s.subrange(18, 20) =~= le_bytes(h.e_machine as nat, 2));
    assert(s.subrange(20, 24) =~= le_bytes(h.e_version as nat, 4));
    assert(s.subrange(24, 32) =~= le_bytes(h.e_entry as nat, 8));
    assert(s.subrange(32, 40) =~= le_bytes(h.e_phoff as nat, 8));
    assert(s.subrange(40, 48) =~= le_bytes(h.e_shoff as nat, 8));
    assert(s.subrange(48, 52) =~= le_bytes(h.e_flags as nat, 4));
    assert(s.subrange(52, 54) =~= le_bytes(h.e_ehsize as nat, 2));
    assert(s.subrange(54, 56) =~= le_bytes(h.e_phentsize as nat, 2));
    assert(s.subrange(56, 58) =~= le_bytes(h.e_phnum as nat, 2));
    assert(s.subrange(58, 60) =~= le_bytes(h.e_shentsize as nat, 2));
    assert(s.subrange(60, 62) =~= le_bytes(h.e_shnum as nat, 2));
    assert(s.subrange(62, 64) =~= le_bytes(h.e_shstrndx as nat, 2));
}

/* ---- Elf64_Shdr (64 bytes) ---- */

pub const SHDR_SIZE: usize = 64;

/// The section header that the 64 bytes of `s` hold.
pub open spec fn spec_shdr(s: Seq<u8>) -> Elf64_Shdr {
    Elf64_Shdr {
        sh_name: field(s, 0, 4) as u32,
        sh_type: field(s, 4, 4) as u32,
        sh_flags: field(s, 8, 8) as u64,
        sh_addr: field(s, 16, 8) as u64,
        sh_offset: field(s, 24, 8) as u64,
        sh_size: field(s, 32, 8) as u64,
        sh_link: field(s, 40, 4) as u32,
        sh_info: field(s, 44, 4) as u32,
        sh_addralign: field(s, 48, 8) as u64,
        sh_entsize: field(s, 56, 8) as u64,
    }
}

/// The bytes of a section header, in the order of its fields.
pub open spec fn shdr_bytes(h: Elf64_Shdr) -> Seq<u8> {
    le_bytes(h.sh_name as nat, 4) + le_bytes(h.sh_type as nat, 4) + le_bytes(h.sh_flags as nat, 8)
        + le_bytes(h.sh_addr as nat, 8) + le_bytes(h.sh_offset as nat, 8) + le_bytes(
        h.sh_size as nat,
        8,
    ) + le_bytes(h.sh_link as nat, 4) + le_bytes(h.sh_info as nat, 4) + le_bytes(
        h.sh_addralign as nat,
        8,
    ) + le_bytes(h.sh_entsize as nat, 8)
}

/// Reads the section header in the 64 bytes at `off`.
pub fn parse_shdr(bin: &[u8], off: usize) -> (h: Elf64_Shdr)
    requires
        off + 64 <= bin.len(),
    ensures
        h == spec_shdr(bin@.subrange(off as int, off + 64)),
{
    let h = Elf64_Shdr {
        sh_name: read_le(bin, off, 4) as u32,
        sh_type: read_le(bin, off + 4, 4) as u32,
        sh_flags: read_le(bin, off + 8, 8),
        sh_addr: read_le(bin, off + 16, 8),
        sh_offset: read_le(bin, off + 24, 8),
        sh_size: read_le(bin, off + 32, 8),
        sh_link: read_le(bin, off + 40, 4) as u32,
        sh_info: read_le(bin, off + 44, 4) as u32,
        sh_addralign: read_le(bin, off + 48, 8),
        sh_entsize: read_le(bin, off + 56, 8),
    };
    proof {
        lemma_record_fields(bin@, off as int, 64);
        lemma_small_fields(bin@);
    }
    h
}

/// Writes the bytes of a section header.
pub fn write_shdr(out: &mut Vec<u8>, h: &Elf64_Shdr)
    ensures
        final(out)@ == old(out)@ + shdr_bytes(*h),
{
    write_le(out, h.sh_name as u64, 4);
    write_le(out, h.sh_type as u64, 4);
    write_le(out, h.sh_flags, 8);
    write_le(out, h.sh_addr, 8);
    write_le(out, h.sh_offset, 8);
    write_le(out, h.sh_size, 8);
    write_le(out, h.sh_link as u64, 4);
    write_le(out, h.sh_info as u64, 4);
    write_le(out, h.sh_addralign, 8);
    write_le(out, h.sh_entsize, 8);
    assert(out@ =~= old(out)@ + shdr_bytes(*h));
}

/// The bytes written for a section header read back as that header.
pub proof fn lemma_shdr_roundtrip(h: Elf64_Shdr)
    ensures
        spec_shdr(shdr_bytes(h)) == h,
        shdr_bytes(h).len() == 64,
{
    lemma_pow256_values();
    let s = shdr_bytes(h);
    lemma_le_roundtrip(h.sh_name as nat, 4);
    lemma_le_roundtrip(h.sh_type as nat, 4);
    lemma_le_roundtrip(h.sh_flags as nat, 8);
    lemma_le_roundtrip(h.sh_addr as nat, 8);
    lemma_le_roundtrip(h.sh_offset as nat, 8);
    lemma_le_roundtrip(h.sh_size as nat, 8);
    lemma_le_roundtrip(h.sh_link as nat, 4);
    lemma_le_roundtrip(h.sh_info as nat, 4);
    lemma_le_roundtrip(h.sh_addralign as nat, 8);
    lemma_le_roundtrip(h.sh_entsize as nat, 8);
    assert(s.subrange(0, 4) =~= le_bytes(h.sh_name as nat, 4));
    assert(s.subrange(4, 8) =~= le_bytes(h.sh_type as nat, 4));
    assert(s.subrange(8, 16) =~= le_bytes(h.sh_flags as nat, 8));
    assert(s.subrange(16, 24) =~= le_bytes(h.sh_addr as nat, 8));
    assert(s.subrange(24, 32) =~= le_bytes(h.sh_offset as nat, 8));
    assert(s.subrange(32, 40) =~= le_bytes(h.sh_size as nat, 8));
    assert(s.subrange(40, 44) =~= le_bytes(h.sh_link as nat, 4));
    assert(s.subrange(44, 48) =~= le_bytes(h.sh_info as nat, 4));
    assert(s.subrange(48, 56) =~= le_bytes(h.sh_addralign as nat, 8));
    assert(s.subrange(56, 64) =~= le_bytes(h.sh_entsize as nat, 8));
}

/// Fields read inside a record at `off` are the record's own fields.
pub proof fn lemma_record_fields(s: Seq<u8>, off: int, len: int)
    requires
        0 <= off,
        0 <= len,
        off + len <= s.len(),
    ensures
        forall|a: int, n: int|
            0 <= a && 0 <= n && a + n <= len ==> #[trigger] field(s.subrange(off, off + len), a, n)
                == field(s, off + a, n),
{
    assert forall|a: int, n: int| 0 <= a && 0 <= n && a + n <= len implies #[trigger] field(
        s.subrange(off, off + len),
        a,
        n,
    ) == field(s, off + a, n) by {
        assert(s.subrange(off, off + len).subrange(a, a + n) =~= s.subrange(off + a, off + a + n));
    }
}

/* ---- Elf64_Sym (24 bytes) ---- */

pub const SYM_SIZE: usize = 24;

/// The symbol that the 24 bytes of `s` hold.
pub open spec fn spec_sym(s: Seq<u8>) -> Elf64_Sym {
    Elf64_Sym {
        st_name: field(s, 0, 4) as u32,
        st_info: field(s, 4, 1) as u8,
        st_other: field(s, 5, 1) as u8,
        st_shndx: field(s, 6, 2) as u16,
        st_value: field(s, 8, 8) as u64,
        st_size: field(s, 16, 8) as u64,
    }
}

/// The bytes of a symbol, in the order of its fields.
pub open spec fn sym_bytes(h: Elf64_Sym) -> Seq<u8> {
    le_bytes(h.st_name as nat, 4) + le_bytes(h.st_info as nat, 1) + le_bytes(h.st_other as nat, 1)
        + le_bytes(h.st_shndx as nat, 2) + le_bytes(h.st_value as nat, 8) + le_bytes(
        h.st_size as nat,
        8,
    )
}

/// Reads the symbol in the 24 bytes at `off`.
pub fn parse_sym(bin: &[u8], off: usize) -> (h: Elf64_Sym)
    requires
        off + 24 <= bin.len(),
    ensures
        h == spec_sym(bin@.subrange(off as int, off + 24)),
{
    let h = Elf64_Sym {
        st_name: read_le(bin, off, 4) as u32,
        st_info: read_le(bin, off + 4, 1) as u8,
        st_other: read_le(bin, off + 5, 1) as u8,
        st_shndx: read_le(bin, off + 6, 2) as u16,
        st_value: read_le(bin, off + 8, 8),
        st_size: read_le(bin, off + 16, 8),
    };
    proof {
        lemma_record_fields(bin@, off as int, 24);
        lemma_small_fields(bin@);
    }
    h
}

/// Writes the bytes of a symbol.
pub fn write_sym(out: &mut Vec<u8>, h: &Elf64_Sym)
    ensures
        final(out)@ == old(out)@ + sym_bytes(*h),
{
    write_le(out, h.st_name as u64, 4);
    write_le(out, h.st_info as u64, 1);
    write_le(out, h.st_other as u64, 1);
    write_le(out, h.st_shndx as u64, 2);
    write_le(out, h.st_value, 8);
    write_le(out, h.st_size, 8);
    assert(out@ =~= old(out)@ + sym_bytes(*h));
}

/// The bytes written for a symbol read back as that symbol.
pub proof fn lemma_sym_roundtrip(h: Elf64_Sym)
    ensures
        spec_sym(sym_bytes(h)) == h,
        sym_bytes(h).len() == 24,
{
    lemma_pow256_values();
    let s = sym_bytes(h);
    lemma_le_roundtrip(h.st_name as nat, 4);
    lemma_le_roundtrip(h.st_info as nat, 1);
    lemma_le_roundtrip(h.st_other as nat, 1);
    lemma_le_roundtrip(h.st_shndx as nat, 2);
    lemma_le_roundtrip(h.st_value as nat, 8);
    lemma_le_roundtrip(h.st_size as nat, 8);
    assert(s.subrange(0, 4) =~= le_bytes(h.st_name as nat, 4));
    assert(s.subrange(4, 5) =~= le_bytes(h.st_info as nat, 1));
    assert(s.subrange(5, 6) =~= le_bytes(h.st_other as nat, 1));
    assert(s.subrange(6, 8) =~= le_bytes(h.st_shndx as nat, 2));
    assert(s.subrange(8, 16) =~= le_bytes(h.st_value as nat, 8));
    assert(s.subrange(16, 24) =~= le_bytes(h.st_size as nat, 8));
}

/* ---- Elf64_Rela (24 bytes) ---- */

pub const RELA_SIZE: usize = 24;

/// The relocation that the 24 bytes of `s` hold.
pub open spec fn spec_rela(s: Seq<u8>) -> Elf64_Rela {
    Elf64_Rela {
        r_offset: field(s, 0, 8) as u64,
        r_info: field(s, 8, 8) as u64,
        r_addend: u64_to_i64(field(s, 16, 8)) as i64,
    }
}

/// The bytes of a relocation, in the order of its fields.
pub open spec fn rela_bytes(h: Elf64_Rela) -> Seq<u8> {
    le_bytes(h.r_offset as nat, 8) + le_bytes(h.r_info as nat, 8) + le_bytes(
        i64_to_u64(h.r_addend as int),
        8,
    )
}

/// Reads the relocation in the 24 bytes at `off`.
pub fn parse_rela(bin: &[u8], off: usize) -> (h: Elf64_Rela)
    requires
        off + 24 <= bin.len(),
    ensures
        h == spec_rela(bin@.subrange(off as int, off + 24)),
{
    let h = Elf64_Rela {
        r_offset: read_le(bin, off, 8),
        r_info: read_le(bin, off + 8, 8),
        r_addend: word_to_i64(read_le(bin, off + 16, 8)),
    };
    proof {
        lemma_record_fields(bin@, off as int, 24);
    }
    h
}

/// Writes the bytes of a relocation.
pub fn write_rela(out: &mut Vec<u8>, h: &Elf64_Rela)
    ensures
        final(out)@ == old(out)@ + rela_bytes(*h),
{
    write_le(out, h.r_offset, 8);
    write_le(out, h.r_info, 8);
    write_le(out, i64_to_word(h.r_addend), 8);
    assert(out@ =~= old(out)@ + rela_bytes(*h));
}

/// The bytes written for a relocation read back as that relocation.
pub proof fn lemma_rela_roundtrip(h: Elf64_Rela)
    ensures
        spec_rela(rela_bytes(h)) == h,
        rela_bytes(h).len() == 24,
{
    lemma_pow256_values();
    let s = rela_bytes(h);
    lemma_le_roundtrip(h.r_offset as nat, 8);
    lemma_le_roundtrip(h.r_info as nat, 8);
    lemma_i64_word_roundtrip(h.r_addend);
    lemma_le_roundtrip(i64_to_u64(h.r_addend as int), 8);
    assert(s.subrange(0, 8) =~= le_bytes(h.r_offset as nat, 8));
    assert(s.subrange(8, 16) =~= le_bytes(h.r_info as nat, 8));
    assert(s.subrange(16, 24) =~= le_bytes(i64_to_u64(h.r_addend as int), 8));
}

/* ---- Elf64_Dyn (16 bytes) ---- */

pub const DYN_SIZE: usize = 16;

/// The dynamic entry that the 16 bytes of `s` hold.
pub open spec fn spec_dyn(s: Seq<u8>) -> Elf64_Dyn {
    Elf64_Dyn { d_tag: u64_to_i64(field(s, 0, 8)) as i64, d_un: field(s, 8, 8) as u64 }
}

/// The bytes of a dynamic entry, in the order of its fields.
pub open spec fn dyn_bytes(h: Elf64_Dyn) -> Seq<u8> {
    le_bytes(i64_to_u64(h.d_tag as int), 8) + le_bytes(h.d_un as nat, 8)
}

/// Reads the dynamic entry in the 16 bytes at `off`.
pub fn parse_dyn(bin: &[u8], off: usize) -> (h: Elf64_Dyn)
    requires
        off + 16 <= bin.len(),
    ensures
        h == spec_dyn(bin@.subrange(off as int, off + 16)),
{
    let h = Elf64_Dyn { d_tag: word_to_i64(read_le(bin, off, 8)), d_un: read_le(bin, off + 8, 8) };
    proof {
        lemma_record_fields(bin@, off as int, 16);
    }
    h
}

/// Writes the bytes of a dynamic entry.
pub fn write_dyn(out: &mut Vec<u8>, h: &Elf64_Dyn)
    ensures
        final(out)@ == old(out)@ + dyn_bytes(*h),
{
    write_le(out, i64_to_word(h.d_tag), 8);
    write_le(out, h.d_un, 8);
    assert(out@ =~= old(out)@ + dyn_bytes(*h));
}

/// The bytes written for a dynamic entry read back as that entry.
pub proof fn lemma_dyn_roundtrip(h: Elf64_Dyn)
    ensures
        spec_dyn(dyn_bytes(h)) == h,
        dyn_bytes(h).len() == 16,
{
    lemma_pow256_values();
    let s = dyn_bytes(h);
    lemma_i64_word_roundtrip(h.d_tag);
    lemma_le_roundtrip(i64_to_u64(h.d_tag as int), 8);
    lemma_le_roundtrip(h.d_un as nat, 8);
    assert(s.subrange(0, 8) =~= le_bytes(i64_to_u64(h.d_tag as int), 8));
    assert(s.subrange(8, 16) =~= le_bytes(h.d_un as nat, 8));
}

/* ---- Elf64_Phdr (56 bytes) ---- */

pub const PHDR_SIZE: usize = 56;

/// The program header that the 56 bytes of `s` hold.
pub open spec fn spec_phdr(s: Seq<u8>) -> Elf64_Phdr {
    Elf64_Phdr {
        p_type: field(s, 0, 4) as u32,
        p_flags: field(s, 4, 4) as u32,
        p_offset: field(s, 8, 8) as u64,
        p_vaddr: field(s, 16, 8) as u64,
        p_paddr: field(s, 24, 8) as u64,
        p_filesz: field(s, 32, 8) as u64,
        p_memsz: field(s, 40, 8) as u64,
        p_align: field(s, 48, 8) as u64,
    }
}

/// The bytes of a program header, in the order of its fields.
pub open spec fn phdr_bytes(h: Elf64_Phdr) -> Seq<u8> {
    le_bytes(h.p_type as nat, 4) + le_bytes(h.p_flags as nat, 4) + le_bytes(h.p_offset as nat, 8)
        + le_bytes(h.p_vaddr as nat, 8) + le_bytes(h.p_paddr as nat, 8) + le_bytes(
        h.p_filesz as nat,
        8,
    ) + le_bytes(h.p_memsz as nat, 8) + le_bytes(h.p_align as nat, 8)
}

/// Writes the bytes of a program header.
pub fn write_phdr(out: &mut Vec<u8>, h: &Elf64_Phdr)
    ensures
        final(out)@ == old(out)@ + phdr_bytes(*h),
{
    write_le(out, h.p_type as u64, 4);
    write_le(out, h.p_flags as u64, 4);
    write_le(out, h.p_offset, 8);
    write_le(out, h.p_vaddr, 8);
    write_le(out, h.p_paddr, 8);
    write_le(out, h.p_filesz, 8);
    write_le(out, h.p_memsz, 8);
    write_le(out, h.p_align, 8);
    assert(out@ =~= old(out)@ + phdr_bytes(*h));
}

/// The bytes written for a program header read back as that header.
pub proof fn lemma_phdr_roundtrip(h: Elf64_Phdr)
    ensures
        spec_phdr(phdr_bytes(h)) == h,
        phdr_bytes(h).len() == 56,
{
    lemma_pow256_values();
    let s = phdr_bytes(h);
    lemma_le_roundtrip(h.p_type as nat, 4);
    lemma_le_roundtrip(h.p_flags as nat, 4);
    lemma_le_roundtrip(h.p_offset as nat, 8);
    lemma_le_roundtrip(h.p_vaddr as nat, 8);
    lemma_le_roundtrip(h.p_paddr as nat, 8);
    lemma_le_roundtrip(h.p_filesz as nat, 8);
    lemma_le_roundtrip(h.p_memsz as nat, 8);
    lemma_le_roundtrip(h.p_align as nat, 8);
    assert(s.subrange(0, 4) =~= le_bytes(h.p_type as nat, 4));
    assert(s.subrange(4, 8) =~= le_bytes(h.p_flags as nat, 4));
    assert(s.subrange(8, 16) =~= le_bytes(h.p_offset as nat, 8));
    assert(s.subrange(16, 24) =~= le_bytes(h.p_vaddr as nat, 8));
    assert(s.subrange(24, 32) =~= le_bytes(h.p_paddr as nat, 8));
    assert(s.subrange(32, 40) =~= le_bytes(h.p_filesz as nat, 8));
    assert(s.subrange(40, 48) =~= le_bytes(h.p_memsz as nat, 8));
    assert(s.subrange(48, 56) =~= le_bytes(h.p_align as nat, 8));
}

/* ---- tables of records ---- */

/// A record of an ELF file: the bytes that stand for it in the file.
pub trait ElfRecord: Sized {
    /// The bytes of the record in the file.
    spec fn record_bytes(&self) -> Seq<u8>;

    /// Appends the bytes of the record.
    fn write_to(&self, out: &mut Vec<u8>)
        ensures
            final(out)@ == old(out)@ + self.record_bytes(),
    ;
}

impl ElfRecord for Elf64_Phdr {
    open spec fn record_bytes(&self) -> Seq<u8> {
        phdr_bytes(*self)
    }

    fn write_to(&self, out: &mut Vec<u8>) {
        write_phdr(out, self)
    }
}

impl ElfRecord for Elf64_Shdr {
    open spec fn record_bytes(&self) -> Seq<u8> {
        shdr_bytes(*self)
    }

    fn write_to(&self, out: &mut Vec<u8>) {
        write_shdr(out, self)
    }
}

impl ElfRecord for Elf64_Sym {
    open spec fn record_bytes(&self) -> Seq<u8> {
        sym_bytes(*self)
    }

    fn write_to(&self, out: &mut Vec<u8>) {
        write_sym(out, self)
    }
}

impl ElfRecord for Elf64_Rela {
    open spec fn record_bytes(&self) -> Seq<u8> {
        rela_bytes(*self)
    }

    fn write_to(&self, out: &mut Vec<u8>) {
        write_rela(out, self)
    }
}

impl ElfRecord for Elf64_Dyn {
    open spec fn record_bytes(&self) -> Seq<u8> {
        dyn_bytes(*self)
    }

    fn write_to(&self, out: &mut Vec<u8>) {
        write_dyn(out, self)
    }
}

/// A 32-bit word of a table, such as the hash table of dynamic symbols.
impl ElfRecord for u32 {
    open spec fn record_bytes(&self) -> Seq<u8> {
        le_bytes(*self as nat, 4)
    }

    fn write_to(&self, out: &mut Vec<u8>) {
        write_le(out, *self as u64, 4)
    }
}

/// The bytes of a table of records, one after the other.
pub open spec fn records_bytes<T: ElfRecord>(s: Seq<T>) -> Seq<u8>
    decreases s.len(),
{
    if s.len() == 0 {
        Seq::empty()
    } else {
        records_bytes(s.drop_last()) + s.last().record_bytes()
    }
}

/// Appends the bytes of a table of records.
pub fn write_records<T: ElfRecord>(out: &mut Vec<u8>, recs: &[T])
    ensures
        final(out)@ == old(out)@ + records_bytes(recs@),
{
    let mut i: usize = 0;
    while i < recs.len()
        invariant
            0 <= i <= recs@.len(),
            out@ == old(out)@ + records_bytes(recs@.take(i as int)),
        decreases recs@.len() - i,
    {
        recs[i].write_to(out);
        assert(recs@.take(i + 1).drop_last() =~= recs@.take(i as int));
        assert(out@ =~= old(out)@ + records_bytes(recs@.take(i + 1)));
        i = i + 1;
    }
    assert(recs@.take(recs@.len() as int) =~= recs@);
}

/// Records of `size` bytes each lie one after the other: the `k`-th takes
/// the `size` bytes from `size * k`.
pub proof fn lemma_records_at<T: ElfRecord>(s: Seq<T>, size: int, k: int)
    requires
        forall|j: int| 0 <= j < s.len() ==> (#[trigger] s[j].record_bytes()).len() == size,
        0 <= k < s.len(),
    ensures
        records_bytes(s).len() == size * s.len(),
        records_bytes(s).subrange(size * k, size * k + size) == s[k].record_bytes(),
    decreases s.len(),
{
    lemma_records_len(s, size);
    let p = s.drop_last();
    lemma_records_len(p, size);
    assert(size * s.len() == size * p.len() + size) by (nonlinear_arith)
        requires
            s.len() == p.len() + 1,
    ;
    if k < s.len() - 1 {
        assert forall|j: int| 0 <= j < p.len() implies (#[trigger] p[j].record_bytes()).len() == size by {
            assert(p[j] == s[j]);
        }
        lemma_records_at(p, size, k);
        assert(size * k + size <= size * p.len()) by (nonlinear_arith)
            requires
                k < p.len(),
                size >= 0,
        ;
        assert(records_bytes(s).subrange(size * k, size * k + size) =~= records_bytes(p).subrange(
            size * k,
            size * k + size,
        ));
        assert(p[k] == s[k]);
    } else {
        assert(records_bytes(s).subrange(size * k, size * k + size) =~= s.last().record_bytes());
    }
}

/// A table of records of `size` bytes each takes `size` bytes per record.
pub proof fn lemma_records_len<T: ElfRecord>(s: Seq<T>, size: int)
    requires
        forall|j: int| 0 <= j < s.len() ==> (#[trigger] s[j].record_bytes()).len() == size,
    ensures
        records_bytes(s).len() == size * s.len(),
        size >= 0 || s.len() == 0,
    decreases s.len(),
{
    if s.len() > 0 {
        let p = s.drop_last();
        assert forall|j: int| 0 <= j < p.len() implies (#[trigger] p[j].record_bytes()).len() == size by {
            assert(p[j] == s[j]);
        }
        lemma_records_len(p, size);
        assert(s[s.len() - 1].record_bytes().len() == size);
        assert(size * s.len() == size * p.len() + size) by (nonlinear_arith)
            requires
                s.len() == p.len() + 1,
        ;
    }
}

impl Elf64_Ehdr {
    /// The bytes of the file header, as they stand in a file.
    pub fn as_bytes(&self) -> (r: Vec<u8>)
        ensures
            r@ == ehdr_bytes(*self),
    {
        let mut r: Vec<u8> = Vec::new();
        write_ehdr(&mut r, self);
        r
    }
}

impl Elf64_Phdr {
    /// The bytes of the program header, as they stand in a file.
    pub fn as_bytes(&self) -> (r: Vec<u8>)
        ensures
            r@ == phdr_bytes(*self),
    {
        let mut r: Vec<u8> = Vec::new();
        write_phdr(&mut r, self);
        r
    }
}

impl Elf64_Shdr {
    /// The bytes of the section header, as they stand in a file.
    pub fn as_bytes(&self) -> (r: Vec<u8>)
        ensures
            r@ == shdr_bytes(*self),
    {
        let mut r: Vec<u8> = Vec::new();
        write_shdr(&mut r, self);
        r
    }
}

impl Elf64_Sym {
    /// The bytes of the symbol, as they stand in a file.
    pub fn as_bytes(&self) -> (r: Vec<u8>)
        ensures
            r@ == sym_bytes(*self),
    {
        let mut r: Vec<u8> = Vec::new();
        write_sym(&mut r, self);
        r
    }
}

impl Elf64_Rela {
    /// The bytes of the relocation, as they stand in a file.
    pub fn as_bytes(&self) -> (r: Vec<u8>)
        ensures
            r@ == rela_bytes(*self),
    {
        let mut r: Vec<u8> = Vec::new();
        write_rela(&mut r, self);
        r
    }
}

} // verus!
