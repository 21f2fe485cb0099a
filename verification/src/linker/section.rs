//! Merging the `.text`, `.data`, `.rodata` and `.bss` sections of the objects
//! into the sections of the output, and placing those in memory.
use vstd::prelude::*;

use crate::codec::{EHDR_SIZE, PHDR_SIZE};
use crate::elf64::Elf64_Shdr;
use crate::linker::{ElfObject, Linker, LinkerError, LinkerErrorView};
use crate::names::{spec_bss_name, spec_data_name, spec_rodata_name, spec_text_name};
use crate::parser::{
    in_file, is_first_named, is_section_at, lemma_first_named_unique, section_contents, Elf64Parser,
    ElfParseError, ParseErrorView,
};

verus! {

/// The first virtual address of the executable segment.
pub const TEXT_BASE_ADDR: usize = 0x400000;

pub const PAGE_SIZE: usize = 0x1000;

/// The bytes reserved at the start of the output for the file header and the
/// five program headers: three `PT_LOAD`, `PT_INTERP` and `PT_DYNAMIC`.
pub const OUTPUT_ELF_HEADER_RESERVED_SIZE: usize = EHDR_SIZE + PHDR_SIZE * 5;

/// The contents of an output section: bytes, or only a length for a section
/// that occupies no bytes of the file.
pub enum OutputSectionBytesKind {
    Bytes(Vec<u8>),
    NobitsLen(usize),
}

/// An output section: its address, its contents, and where the section of
/// each object starts in it (`None` for an object without that section).
pub struct OutputSection {
    pub base: usize,
    pub bytes: OutputSectionBytesKind,
    pub section_offsets: Vec<Option<usize>>,
}

/// The sections of the output.
pub struct OutputSectionList {
    pub text: OutputSection,
    pub plt: OutputSection,
    pub rodata: OutputSection,
    pub data: OutputSection,
    pub bss: OutputSection,
    pub got: OutputSection,
}

impl OutputSection {
    /// The length of the section in memory.
    pub open spec fn spec_len(&self) -> nat {
        match self.bytes {
            OutputSectionBytesKind::Bytes(b) => b@.len(),
            OutputSectionBytesKind::NobitsLen(n) => n as nat,
        }
    }

    /// The address just past the section.
    pub open spec fn spec_end(&self) -> int {
        self.base + self.spec_len()
    }

    pub fn bytes_len(&self) -> (r: usize)
        ensures
            r == self.spec_len(),
    {
        match &self.bytes {
            OutputSectionBytesKind::Bytes(bytes) => bytes.len(),
            OutputSectionBytesKind::NobitsLen(len) => *len,
        }
    }

    pub fn end_addr(&self) -> (r: usize)
        requires
            self.spec_end() <= usize::MAX,
        ensures
            r == self.spec_end(),
    {
        self.base + self.bytes_len()
    }
}

/// The header of the first section named `name` of an object, if it has one.
pub open spec fn named_section(elf: Elf64Parser, name: Seq<u8>) -> Option<Elf64_Shdr> {
    if exists|j: int| is_first_named(elf.shdrs@, name, j) {
        Some(elf.shdrs@[choose|j: int| is_first_named(elf.shdrs@, name, j)].hdr)
    } else {
        None
    }
}

/// The bytes of `name` appended to `acc`, when the object has such a section.
pub open spec fn append_named(elf: Elf64Parser, name: Seq<u8>, acc: Seq<u8>) -> Seq<u8> {
    match named_section(elf, name) {
        Some(h) => acc + section_contents(elf.bin@, h),
        None => acc,
    }
}

/// The object has a section named `name` whose bytes do not lie in its file.
pub open spec fn unreadable(elf: Elf64Parser, name: Seq<u8>) -> bool {
    named_section(elf, name) is Some && !in_file(elf.bin@, named_section(elf, name).unwrap())
}

/// What merging the sections of the first objects gives.
pub enum MergeState {
    Merged { text: Seq<u8>, data: Seq<u8>, rodata: Seq<u8>, bss: nat },
    /// A section of some object does not lie in its file.
    Unreadable,
    /// The total size of `.bss` does not fit a machine word.
    TooLarge,
}

/// Merging the sections of the first `n` objects, in order: each object's
/// `.text`, `.data` and `.rodata` bytes are appended to the output's, and
/// the size of its `.bss` added to the output's.
pub open spec fn merge_state(objs: Seq<ElfObject>, n: int) -> MergeState
    decreases n,
{
    if n <= 0 {
        MergeState::Merged {
            text: Seq::empty(),
            data: Seq::empty(),
            rodata: Seq::empty(),
            bss: 0,
        }
    } else {
        match merge_state(objs, n - 1) {
            MergeState::Merged { text, data, rodata, bss } => merge_step(
                objs[n - 1].elf,
                text,
                data,
                rodata,
                bss,
            ),
            other => other,
        }
    }
}

/// Merging the sections of one more object.
pub open spec fn merge_step(
    elf: Elf64Parser,
    text: Seq<u8>,
    data: Seq<u8>,
    rodata: Seq<u8>,
    bss: nat,
) -> MergeState {
    let bss2 = match named_section(elf, spec_bss_name()) {
        Some(h) => bss + h.sh_size,
        None => bss as int,
    };
    if unreadable(elf, spec_text_name()) || unreadable(elf, spec_data_name()) || unreadable(
        elf,
        spec_rodata_name(),
    ) {
        MergeState::Unreadable
    } else if bss2 > usize::MAX {
        MergeState::TooLarge
    } else {
        MergeState::Merged {
            text: append_named(elf, spec_text_name(), text),
            data: append_named(elf, spec_data_name(), data),
            rodata: append_named(elf, spec_rodata_name(), rodata),
            bss: bss2 as nat,
        }
    }
}

/// The length of the merged `name` section before the `o`-th object.
pub open spec fn merged_len_before(objs: Seq<ElfObject>, name: Seq<u8>, o: int) -> int {
    match merge_state(objs, o) {
        MergeState::Merged { text, data, rodata, bss } => if name == spec_text_name() {
            text.len() as int
        } else if name == spec_data_name() {
            data.len() as int
        } else if name == spec_rodata_name() {
            rodata.len() as int
        } else {
            bss as int
        },
        _ => 0,
    }
}

/// The offsets of an output section: where the `name` section of each object
/// that has one starts in the output section.
pub open spec fn offsets_of(objs: Seq<ElfObject>, name: Seq<u8>, offsets: Seq<Option<usize>>) -> bool {
    &&& offsets.len() == objs.len()
    &&& forall|o: int|
        0 <= o < objs.len() ==> #[trigger] offsets[o] == if named_section(objs[o].elf, name) is Some {
            Some(merged_len_before(objs, name, o) as usize)
        } else {
            None::<usize>
        }
}

/// The output sections record where the sections of each object start in
/// them, and `.text` holds bytes.
pub open spec fn offsets_from(objs: Seq<ElfObject>, sects: OutputSectionList) -> bool {
    &&& sects.text.bytes is Bytes
    &&& offsets_of(objs, spec_text_name(), sects.text.section_offsets@)
    &&& offsets_of(objs, spec_data_name(), sects.data.section_offsets@)
    &&& offsets_of(objs, spec_rodata_name(), sects.rodata.section_offsets@)
    &&& offsets_of(objs, spec_bss_name(), sects.bss.section_offsets@)
}

/// `sects` holds the merged sections of `objs`, not yet placed.
pub open spec fn merged_from(objs: Seq<ElfObject>, sects: OutputSectionList) -> bool {
    match merge_state(objs, objs.len() as int) {
        MergeState::Merged { text, data, rodata, bss } => {
            &&& sects.text.bytes is Bytes && sects.text.bytes->Bytes_0@ == text
            &&& sects.data.bytes is Bytes && sects.data.bytes->Bytes_0@ == data
            &&& sects.rodata.bytes is Bytes && sects.rodata.bytes->Bytes_0@ == rodata
            &&& sects.bss.bytes is NobitsLen && sects.bss.bytes->NobitsLen_0 == bss
            &&& offsets_from(objs, sects)
        },
        _ => false,
    }
}

/// Sections not placed yet: every base is 0, `.plt` holds no bytes and
/// `.got` takes none.
pub open spec fn unplaced(s: OutputSectionList) -> bool {
    &&& s.text.base == 0 && s.plt.base == 0 && s.rodata.base == 0
    &&& s.data.base == 0 && s.bss.base == 0 && s.got.base == 0
    &&& s.plt.bytes is Bytes && s.plt.bytes->Bytes_0@.len() == 0
    &&& s.got.bytes is NobitsLen && s.got.bytes->NobitsLen_0 == 0
}

/// What the readers of named sections return tells `named_section`.
proof fn lemma_named_section(
    elf: Elf64Parser,
    name: Seq<u8>,
    r: Result<Option<(Elf64_Shdr, &[u8])>, ElfParseError>,
)
    requires
        crate::parser::section::progbits::is_named_section(elf.bin@, elf.shdrs@, name, r),
    ensures
        match r {
            Ok(None) => named_section(elf, name) is None,
            Ok(Some((h, b))) => named_section(elf, name) == Some(h) && in_file(elf.bin@, h) && b@
                == section_contents(elf.bin@, h),
            Err(e) => unreadable(elf, name) && e == ElfParseError::TooShort,
        },
{
    match r {
        Ok(None) => {
            if exists|j: int| is_first_named(elf.shdrs@, name, j) {
                let j = choose|j: int| is_first_named(elf.shdrs@, name, j);
                assert(elf.shdrs@[j].name@ == name);
            }
        },
        Ok(Some((h, b))) => {
            let j = choose|j: int|
                is_first_named(elf.shdrs@, name, j) && is_section_at(
                    elf.bin@,
                    elf.shdrs@,
                    j,
                    Ok::<(Elf64_Shdr, &[u8]), ElfParseError>((h, b)),
                );
            let j2 = choose|j: int| is_first_named(elf.shdrs@, name, j);
            lemma_first_named_unique(elf.shdrs@, name, j, j2);
        },
        Err(e) => {
            let j = choose|j: int|
                is_first_named(elf.shdrs@, name, j) && is_section_at(
                    elf.bin@,
                    elf.shdrs@,
                    j,
                    Err::<(Elf64_Shdr, &[u8]), ElfParseError>(e),
                );
            let j2 = choose|j: int| is_first_named(elf.shdrs@, name, j);
            lemma_first_named_unique(elf.shdrs@, name, j, j2);
        },
    }
}

/// `x` rounded up to a multiple of the page size.
pub open spec fn page_align(x: int) -> int {
    ((x + 4095) / 4096) * 4096
}

/// Rounds `x` up to a multiple of the page size; `None` when that does not
/// fit a machine word.
pub fn align_to_page(x: usize) -> (r: Option<usize>)
    ensures
        match r {
            Some(v) => v == page_align(x as int),
            None => page_align(x as int) > usize::MAX,
        },
{
    let rem = x % PAGE_SIZE;
    if rem == 0 {
        Some(x)
    } else {
        let down = x - rem;
        if down > usize::MAX - PAGE_SIZE {
            None
        } else {
            Some(down + PAGE_SIZE)
        }
    }
}

/// `n` zero bytes.
pub open spec fn zeros(n: int) -> Seq<u8> {
    Seq::new(n as nat, |i: int| 0u8)
}

/// Appends `n` zero bytes.
pub fn push_zeros(out: &mut Vec<u8>, n: usize)
    ensures
        final(out)@ == old(out)@ + zeros(n as int),
{
    let mut i: usize = 0;
    while i < n
        invariant
            0 <= i <= n,
            out@ == old(out)@ + Seq::new(i as nat, |k: int| 0u8),
        decreases n - i,
    {
        out.push(0);
        assert(old(out)@ + Seq::new((i + 1) as nat, |k: int| 0u8) =~= old(out)@ + Seq::new(
            i as nat,
            |k: int| 0u8,
        ) + seq![0u8]);
        i = i + 1;
    }
}

impl<'a> Linker<'a> {
    /// Merges the `.text`, `.data` and `.rodata` bytes and the `.bss` sizes of
    /// the objects, in object order, recording where each object's section
    /// starts.  The merged sections are not placed yet (their address is 0).
    pub fn merge_sections(&self) -> (r: Result<OutputSectionList, LinkerError>)
        ensures
            match merge_state(self.objs@, self.objs@.len() as int) {
                MergeState::Merged { .. } => r is Ok && merged_from(self.objs@, r->Ok_0) && unplaced(r->Ok_0),
                MergeState::Unreadable => r is Err && r->Err_0@ == LinkerErrorView::ParseError {
                    errors: seq![ParseErrorView::TooShort],
                },
                MergeState::TooLarge => r is Err && r->Err_0@ == LinkerErrorView::AddressOverflow,
            },
    {
        let ghost objs = self.objs@;
        let mut text_section_bytes: Vec<u8> = Vec::new();
        let mut data_section_bytes: Vec<u8> = Vec::new();
        let mut rodata_section_bytes: Vec<u8> = Vec::new();
        let mut text_section_offsets: Vec<Option<usize>> = Vec::new();
        let mut data_section_offsets: Vec<Option<usize>> = Vec::new();
        let mut rodata_section_offsets: Vec<Option<usize>> = Vec::new();
        let mut bss_section_offsets: Vec<Option<usize>> = Vec::new();
        let mut bss_current_offset: usize = 0;
        let mut obj_index: usize = 0;
        while obj_index < self.objs.len()
            invariant
                objs == self.objs@,
                0 <= obj_index <= objs.len(),
                merge_state(objs, obj_index as int) == (MergeState::Merged {
                    text: text_section_bytes@,
                    data: data_section_bytes@,
                    rodata: rodata_section_bytes@,
                    bss: bss_current_offset as nat,
                }),
                text_section_offsets@.len() == obj_index,
                data_section_offsets@.len() == obj_index,
                rodata_section_offsets@.len() == obj_index,
                bss_section_offsets@.len() == obj_index,
                forall|o: int|
                    0 <= o < obj_index ==> #[trigger] text_section_offsets@[o] == if named_section(
                        objs[o].elf,
                        spec_text_name(),
                    ) is Some {
                        Some(merged_len_before(objs, spec_text_name(), o) as usize)
                    } else {
                        None::<usize>
                    },
                forall|o: int|
                    0 <= o < obj_index ==> #[trigger] data_section_offsets@[o] == if named_section(
                        objs[o].elf,
                        spec_data_name(),
                    ) is Some {
                        Some(merged_len_before(objs, spec_data_name(), o) as usize)
                    } else {
                        None::<usize>
                    },
                forall|o: int|
                    0 <= o < obj_index ==> #[trigger] rodata_section_offsets@[o] == if named_section(
                        objs[o].elf,
                        spec_rodata_name(),
                    ) is Some {
                        Some(merged_len_before(objs, spec_rodata_name(), o) as usize)
                    } else {
                        None::<usize>
                    },
                forall|o: int|
                    0 <= o < obj_index ==> #[trigger] bss_section_offsets@[o] == if named_section(
                        objs[o].elf,
                        spec_bss_name(),
                    ) is Some {
                        Some(merged_len_before(objs, spec_bss_name(), o) as usize)
                    } else {
                        None::<usize>
                    },
            decreases objs.len() - obj_index,
        {
            let o = &self.objs[obj_index];
            let opt_text = o.elf.section_text();
            proof {
                lemma_named_section(o.elf, spec_text_name(), opt_text);
            }
            let opt_data = o.elf.section_data();
            proof {
                lemma_named_section(o.elf, spec_data_name(), opt_data);
            }
            let opt_rodata = o.elf.section_rodata();
            proof {
                lemma_named_section(o.elf, spec_rodata_name(), opt_rodata);
            }
            let opt_bss = o.elf.section_bss();
            proof {
                lemma_merge_unfold(objs, obj_index as int);
                if let Some(h) = opt_bss {
                    let j = choose|j: int|
                        is_first_named(o.elf.shdrs@, spec_bss_name(), j) && h == o.elf.shdrs@[j].hdr;
                    let j2 = choose|j: int| is_first_named(o.elf.shdrs@, spec_bss_name(), j);
                    lemma_first_named_unique(o.elf.shdrs@, spec_bss_name(), j, j2);
                } else {
                    if exists|j: int| is_first_named(o.elf.shdrs@, spec_bss_name(), j) {
                        let j = choose|j: int| is_first_named(o.elf.shdrs@, spec_bss_name(), j);
                        assert(o.elf.shdrs@[j].name@ == spec_bss_name());
                    }
                }
            }
            let (text_sect, data_sect, rodata_sect) = match (opt_text, opt_data, opt_rodata) {
                (Ok(t), Ok(d), Ok(r)) => (t, d, r),
                _ => {
                    proof {
                        lemma_merge_sticky(objs, obj_index + 1, objs.len() as int);
                    }
                    let errors = vec![ElfParseError::TooShort];
                    assert(errors@.map_values(|e: ElfParseError| e@) =~= seq![ParseErrorView::TooShort]);
                    return Err(LinkerError::ParseError { errors });
                },
            };
            let ghost text_before = text_section_bytes@;
            let ghost data_before = data_section_bytes@;
            let ghost rodata_before = rodata_section_bytes@;
            let new_bss: usize = match opt_bss {
                Some(shdr) => {
                    if shdr.sh_size > (usize::MAX - bss_current_offset) as u64 {
                        proof {
                            lemma_merge_sticky(objs, obj_index + 1, objs.len() as int);
                        }
                        return Err(LinkerError::AddressOverflow);
                    }
                    bss_current_offset + shdr.sh_size as usize
                },
                None => bss_current_offset,
            };
            match text_sect {
                Some((_, s_body)) => {
                    text_section_offsets.push(Some(text_section_bytes.len()));
                    text_section_bytes.extend_from_slice(s_body);
                },
                None => {
                    text_section_offsets.push(None);
                },
            }
            match data_sect {
                Some((_, s_body)) => {
                    data_section_offsets.push(Some(data_section_bytes.len()));
                    data_section_bytes.extend_from_slice(s_body);
                },
                None => {
                    data_section_offsets.push(None);
                },
            }
            match rodata_sect {
                Some((_, s_body)) => {
                    rodata_section_offsets.push(Some(rodata_section_bytes.len()));
                    rodata_section_bytes.extend_from_slice(s_body);
                },
                None => {
                    rodata_section_offsets.push(None);
                },
            }
            match opt_bss {
                Some(_) => {
                    bss_section_offsets.push(Some(bss_current_offset));
                },
                None => {
                    bss_section_offsets.push(None);
                },
            }
            proof {
                if let Some((_, b)) = text_sect {
                    assert(text_section_bytes@ =~= text_before + b@);
                }
                if let Some((_, b)) = data_sect {
                    assert(data_section_bytes@ =~= data_before + b@);
                }
                if let Some((_, b)) = rodata_sect {
                    assert(rodata_section_bytes@ =~= rodata_before + b@);
                }
            }
            bss_current_offset = new_bss;
            obj_index = obj_index + 1;
        }
        Ok(
            OutputSectionList {
                text: OutputSection {
                    base: 0,
                    bytes: OutputSectionBytesKind::Bytes(text_section_bytes),
                    section_offsets: text_section_offsets,
                },
                plt: OutputSection {
                    base: 0,
                    bytes: OutputSectionBytesKind::Bytes(Vec::new()),
                    section_offsets: Vec::new(),
                },
                rodata: OutputSection {
                    base: 0,
                    bytes: OutputSectionBytesKind::Bytes(rodata_section_bytes),
                    section_offsets: rodata_section_offsets,
                },
                data: OutputSection {
                    base: 0,
                    bytes: OutputSectionBytesKind::Bytes(data_section_bytes),
                    section_offsets: data_section_offsets,
                },
                bss: OutputSection {
                    base: 0,
                    bytes: OutputSectionBytesKind::NobitsLen(bss_current_offset),
                    section_offsets: bss_section_offsets,
                },
                got: OutputSection {
                    base: 0,
                    bytes: OutputSectionBytesKind::NobitsLen(0),
                    section_offsets: Vec::new(),
                },
            },
        )
    }
}

proof fn lemma_merge_sticky(objs: Seq<ElfObject>, n: int, m: int)
    requires
        0 <= n <= m,
        !(merge_state(objs, n) is Merged),
    ensures
        merge_state(objs, m) == merge_state(objs, n),
    decreases m - n,
{
    if m > n {
        lemma_merge_sticky(objs, n, m - 1);
    }
}

proof fn lemma_merge_unfold(objs: Seq<ElfObject>, n: int)
    requires
        0 <= n < objs.len(),
    ensures
        merge_state(objs, n + 1) == match merge_state(objs, n) {
            MergeState::Merged { text, data, rodata, bss } => merge_step(objs[n].elf, text, data, rodata, bss),
            other => other,
        },
{
}

/// The addresses of the output sections, from their lengths: `.text` at the
/// base address, `.plt` right after it; `.rodata` on the page after the end
/// of `.text`; `.data` on the page after the end of `.rodata`, `.bss` and
/// `.got` right after it.  The tuple ends with the highest address that a
/// section reaches.
///
/// `.plt` takes no part in where `.rodata` starts, so a `.plt` that runs past
/// the end of the page of `.text` shares addresses with `.rodata`.
pub open spec fn placement(tl: int, pl: int, rl: int, dl: int, bl: int, gl: int) -> (
    int,
    int,
    int,
    int,
    int,
    int,
    int,
) {
    let tb = TEXT_BASE_ADDR as int;
    let pb = tb + tl;
    let rb = page_align(tb + tl);
    let db = page_align(rb + rl);
    let bb = db + dl;
    let gb = bb + bl;
    let end = if pb + pl > gb + gl {
        pb + pl
    } else {
        gb + gl
    };
    (tb, pb, rb, db, bb, gb, end)
}

/// The placement of the sections.
pub open spec fn placement_of(sects: OutputSectionList) -> (int, int, int, int, int, int, int) {
    placement(
        sects.text.spec_len() as int,
        sects.plt.spec_len() as int,
        sects.rodata.spec_len() as int,
        sects.data.spec_len() as int,
        sects.bss.spec_len() as int,
        sects.got.spec_len() as int,
    )
}

/// The sections are placed as `placement` says, and all of them end within
/// the address space.
pub open spec fn placed(sects: OutputSectionList) -> bool {
    let p = placement_of(sects);
    &&& sects.text.base == p.0
    &&& sects.plt.base == p.1
    &&& sects.rodata.base == p.2
    &&& sects.data.base == p.3
    &&& sects.bss.base == p.4
    &&& sects.got.base == p.5
    &&& p.6 <= usize::MAX
}

/// Two section lists hold the same sections, at any addresses.
pub open spec fn same_contents(a: OutputSectionList, b: OutputSectionList) -> bool {
    &&& a.text.bytes == b.text.bytes && a.text.section_offsets == b.text.section_offsets
    &&& a.plt.bytes == b.plt.bytes && a.plt.section_offsets == b.plt.section_offsets
    &&& a.rodata.bytes == b.rodata.bytes && a.rodata.section_offsets == b.rodata.section_offsets
    &&& a.data.bytes == b.data.bytes && a.data.section_offsets == b.data.section_offsets
    &&& a.bss.bytes == b.bss.bytes && a.bss.section_offsets == b.bss.section_offsets
    &&& a.got.bytes == b.got.bytes && a.got.section_offsets == b.got.section_offsets
}

impl<'a> Linker<'a> {
    /// Gives the sections their addresses (see `placement`).  Fails when the
    /// sections do not fit the address space.
    pub fn arrange_sections(&self, sects: OutputSectionList) -> (r: Result<OutputSectionList, LinkerError>)
        ensures
            match r {
                Ok(s) => same_contents(s, sects) && placed(s),
                Err(e) => e@ == LinkerErrorView::AddressOverflow && placement_of(sects).6 > usize::MAX,
            },
    {
        let mut sects = sects;
        let ghost p = placement_of(sects);
        let tl = sects.text.bytes_len();
        let pl = sects.plt.bytes_len();
        let rl = sects.rodata.bytes_len();
        let dl = sects.data.bytes_len();
        let bl = sects.bss.bytes_len();
        let gl = sects.got.bytes_len();
        proof {
            lemma_page_align_bounds(TEXT_BASE_ADDR + tl);
        }
        // R-X segment: .text, then .plt
        let tb = TEXT_BASE_ADDR;
        if tl > usize::MAX - tb {
            return Err(LinkerError::AddressOverflow);
        }
        let pb = tb + tl;
        if pl > usize::MAX - pb {
            return Err(LinkerError::AddressOverflow);
        }
        // R-- segment: .rodata
        let rb = match align_to_page(pb) {
            Some(v) => v,
            None => {
                return Err(LinkerError::AddressOverflow);
            },
        };
        proof {
            lemma_page_align_bounds(rb + rl);
        }
        if rl > usize::MAX - rb {
            return Err(LinkerError::AddressOverflow);
        }
        // RW- segment: .data, .bss and .got
        let db = match align_to_page(rb + rl) {
            Some(v) => v,
            None => {
                return Err(LinkerError::AddressOverflow);
            },
        };
        if dl > usize::MAX - db {
            return Err(LinkerError::AddressOverflow);
        }
        let bb = db + dl;
        if bl > usize::MAX - bb {
            return Err(LinkerError::AddressOverflow);
        }
        let gb = bb + bl;
        if gl > usize::MAX - gb {
            return Err(LinkerError::AddressOverflow);
        }
        sects.text.base = tb;
        sects.plt.base = pb;
        sects.rodata.base = rb;
        sects.data.base = db;
        sects.bss.base = bb;
        sects.got.base = gb;
        Ok(sects)
    }
}

/// The `.plt` of `n` entries, not yet filled, and the `.got` of `n` slots.
pub open spec fn plt_got_reserved(sects: OutputSectionList, n: int) -> bool {
    &&& sects.plt.bytes is Bytes
    &&& sects.plt.bytes->Bytes_0@ == Seq::new((6 * n) as nat, |i: int| 0u8)
    &&& sects.got.bytes == OutputSectionBytesKind::NobitsLen((8 * n) as usize)
}

impl<'a> Linker<'a> {
    /// Merges the sections of the objects, reserves a `.plt` entry and a
    /// `.got` slot for each of the `dyn_count` dynamic symbols, and places
    /// the sections.
    pub fn merge_and_arrange_sections(&self, dyn_count: usize) -> (r: Result<
        OutputSectionList,
        LinkerError,
    >)
        ensures
            match r {
                Ok(s) => merged_from(self.objs@, s) && plt_got_reserved(s, dyn_count as int) && placed(s),
                Err(e) => match merge_state(self.objs@, self.objs@.len() as int) {
                    MergeState::Unreadable => e@ == LinkerErrorView::ParseError {
                        errors: seq![ParseErrorView::TooShort],
                    },
                    MergeState::TooLarge => e@ == LinkerErrorView::AddressOverflow,
                    MergeState::Merged { .. } => e@ == LinkerErrorView::AddressOverflow && (dyn_count > usize::MAX
                        / 8 || exists|s: OutputSectionList|
                        merged_from(self.objs@, s) && plt_got_reserved(s, dyn_count as int) && placement_of(s).6
                            > usize::MAX),
                },
            },
    {
        let mut sects = match self.merge_sections() {
            Ok(s) => s,
            Err(e) => {
                return Err(e);
            },
        };
        if dyn_count > usize::MAX / 8 {
            return Err(LinkerError::AddressOverflow);
        }
        let mut plt_bytes: Vec<u8> = Vec::new();
        push_zeros(&mut plt_bytes, 6 * dyn_count);
        assert(plt_bytes@ =~= Seq::new((6 * dyn_count) as nat, |i: int| 0u8));
        sects.plt.bytes = OutputSectionBytesKind::Bytes(plt_bytes);
        sects.got.bytes = OutputSectionBytesKind::NobitsLen(8 * dyn_count);
        let ghost reserved = sects;
        let r = self.arrange_sections(sects);
        proof {
            if r is Err {
                assert(merged_from(self.objs@, reserved) && plt_got_reserved(reserved, dyn_count as int));
            }
        }
        r
    }
}

/// `x` rounded up to a page is at least `x`, and less than a page more.
pub proof fn lemma_page_align_bounds(x: int)
    requires
        x >= 0,
    ensures
        x <= page_align(x) < x + 4096,
{
    assert(x <= ((x + 4095) / 4096) * 4096 < x + 4096) by (nonlinear_arith)
        requires
            x >= 0,
    ;
}

/// Placed sections follow one another in memory as `placement` says, and
/// each ends within the address space.
pub proof fn lemma_placed_bounds(sects: OutputSectionList)
    requires
        placed(sects),
    ensures
        sects.text.base == TEXT_BASE_ADDR,
        sects.text.base + sects.text.spec_len() == sects.plt.base,
        sects.plt.base + sects.plt.spec_len() <= usize::MAX,
        sects.text.base + sects.text.spec_len() <= sects.rodata.base,
        sects.rodata.base + sects.rodata.spec_len() <= sects.data.base,
        sects.data.base + sects.data.spec_len() == sects.bss.base,
        sects.bss.base + sects.bss.spec_len() == sects.got.base,
        sects.got.base + sects.got.spec_len() <= usize::MAX,
{
    let p = placement_of(sects);
    lemma_page_align_bounds(p.1);
    lemma_page_align_bounds(p.2 + sects.rodata.spec_len());
}

/// Merging reads only the sections of the objects: objects with the same
/// sections merge alike.
pub proof fn lemma_merge_same_sections(a: Seq<ElfObject>, b: Seq<ElfObject>, n: int)
    requires
        a.len() == b.len(),
        forall|o: int| 0 <= o < a.len() ==> (#[trigger] a[o]).elf == b[o].elf,
        n <= a.len(),
    ensures
        merge_state(a, n) == merge_state(b, n),
    decreases n,
{
    if n > 0 {
        lemma_merge_same_sections(a, b, n - 1);
        assert(a[n - 1].elf == b[n - 1].elf);
    }
}

/// Objects with the same sections merge into the same output sections.
pub proof fn lemma_merged_from_same_sections(a: Seq<ElfObject>, b: Seq<ElfObject>, s: OutputSectionList)
    requires
        a.len() == b.len(),
        forall|o: int| 0 <= o < a.len() ==> (#[trigger] a[o]).elf == b[o].elf,
        merged_from(a, s),
    ensures
        merged_from(b, s),
{
    lemma_merge_same_sections(a, b, a.len() as int);
    assert forall|o: int| 0 <= o <= a.len() implies merge_state(a, o) == merge_state(b, o) by {
        lemma_merge_same_sections(a, b, o);
    }
    assert forall|name: Seq<u8>, o: int| 0 <= o < a.len() implies merged_len_before(a, name, o) == merged_len_before(
        b,
        name,
        o,
    ) && named_section(a[o].elf, name) == named_section(b[o].elf, name) by {
        lemma_merge_same_sections(a, b, o);
        assert(a[o].elf == b[o].elf);
    }
}

/// The merged bytes of the sections named `name` (`.text`, `.data` or
/// `.rodata`) in a merge state.
pub open spec fn merged_bytes(st: MergeState, name: Seq<u8>) -> Seq<u8> {
    match st {
        MergeState::Merged { text, data, rodata, .. } => if name == spec_text_name() {
            text
        } else if name == spec_data_name() {
            data
        } else {
            rodata
        },
        _ => Seq::empty(),
    }
}

/// Merging more objects only appends to what the first ones gave.
proof fn lemma_merge_prefix(objs: Seq<ElfObject>, name: Seq<u8>, n: int, m: int)
    requires
        0 <= n <= m <= objs.len(),
        merge_state(objs, m) is Merged,
    ensures
        merge_state(objs, n) is Merged,
        merged_bytes(merge_state(objs, n), name).len() <= merged_bytes(merge_state(objs, m), name).len(),
        merged_bytes(merge_state(objs, m), name).subrange(0, merged_bytes(merge_state(objs, n), name).len() as int)
            == merged_bytes(merge_state(objs, n), name),
    decreases m - n,
{
    if n < m {
        if !(merge_state(objs, m - 1) is Merged) {
            lemma_merge_sticky(objs, m - 1, m);
        }
        lemma_merge_prefix(objs, name, n, m - 1);
        lemma_merge_unfold(objs, m - 1);
        let a = merged_bytes(merge_state(objs, n), name);
        let b = merged_bytes(merge_state(objs, m - 1), name);
        let c = merged_bytes(merge_state(objs, m), name);
        assert(c.subrange(0, b.len() as int) =~= b);
        assert(c.subrange(0, a.len() as int) =~= b.subrange(0, a.len() as int));
    } else {
        let a = merged_bytes(merge_state(objs, n), name);
        assert(a.subrange(0, a.len() as int) =~= a);
    }
}

/// The bytes of an object's section lie in the merged section at the offset
/// recorded for that object.
pub proof fn lemma_merged_section_at(objs: Seq<ElfObject>, sects: OutputSectionList, name: Seq<u8>, o: int)
    requires
        merged_from(objs, sects),
        name == spec_text_name() || name == spec_data_name() || name == spec_rodata_name(),
        0 <= o < objs.len(),
        named_section(objs[o].elf, name) is Some,
    ensures
        ({
            let sec = if name == spec_text_name() {
                sects.text
            } else if name == spec_data_name() {
                sects.data
            } else {
                sects.rodata
            };
            let off = sec.section_offsets@[o]->Some_0 as int;
            let c = section_contents(objs[o].elf.bin@, named_section(objs[o].elf, name)->Some_0);
            &&& sec.section_offsets@[o] is Some
            &&& sec.bytes is Bytes
            &&& off + c.len() <= sec.bytes->Bytes_0@.len()
            &&& sec.bytes->Bytes_0@.subrange(off, off + c.len()) == c
        }),
{
    let n = objs.len() as int;
    lemma_merge_prefix(objs, name, o + 1, n);
    lemma_merge_prefix(objs, name, o, n);
    lemma_merge_unfold(objs, o);
    let a = merged_bytes(merge_state(objs, o), name);
    let b = merged_bytes(merge_state(objs, o + 1), name);
    let f = merged_bytes(merge_state(objs, n), name);
    let c = section_contents(objs[o].elf.bin@, named_section(objs[o].elf, name)->Some_0);
    assert(b =~= a + c);
    assert(f.subrange(a.len() as int, (a.len() + c.len()) as int) =~= b.subrange(a.len() as int, (a.len() + c.len()) as int));
    assert(merged_len_before(objs, name, o) == a.len());
    let sec = if name == spec_text_name() {
        sects.text
    } else if name == spec_data_name() {
        sects.data
    } else {
        sects.rodata
    };
    assert(sec.bytes is Bytes && sec.bytes->Bytes_0@ == f);
    assert(sec.bytes->Bytes_0.len() == f.len());
    assert(sec.section_offsets@[o] == Some(a.len() as usize));
}


/// The size of the `.bss` of an object, 0 when it has none.
pub open spec fn bss_size(elf: Elf64Parser) -> int {
    match named_section(elf, spec_bss_name()) {
        Some(h) => h.sh_size as int,
        None => 0,
    }
}

/// The sizes of the `.bss` of the first `n` objects, added up.
pub open spec fn bss_total(objs: Seq<ElfObject>, n: int) -> int
    decreases n,
{
    if n <= 0 {
        0
    } else {
        bss_total(objs, n - 1) + bss_size(objs[n - 1].elf)
    }
}

/// What merging the first `n` objects gives for `.bss` is the sum of their
/// `.bss` sizes.
proof fn lemma_merge_bss_total(objs: Seq<ElfObject>, n: int)
    requires
        0 <= n <= objs.len(),
        merge_state(objs, n) is Merged,
    ensures
        merge_state(objs, n)->Merged_bss == bss_total(objs, n),
    decreases n,
{
    if n > 0 {
        if !(merge_state(objs, n - 1) is Merged) {
            lemma_merge_sticky(objs, n - 1, n);
        }
        lemma_merge_bss_total(objs, n - 1);
        lemma_merge_unfold(objs, n - 1);
    }
}

/// The totals grow with the objects counted.
proof fn lemma_bss_total_grows(objs: Seq<ElfObject>, a: int, b: int)
    requires
        0 <= a <= b,
    ensures
        bss_total(objs, a) + (if a < b { bss_size(objs[a].elf) } else { 0 }) <= bss_total(objs, b),
    decreases b - a,
{
    if a < b {
        lemma_bss_total_grows(objs, a, b - 1);
        if a < b - 1 {
            lemma_bss_total_grows(objs, a + 1, b - 1);
        }
    }
}

/// The merged `.bss` is as long as the `.bss` of all objects together; the
/// `.bss` of each object that has one starts where those of the objects
/// before it end, lies within the merged `.bss`, and the ranges of two
/// objects do not overlap.
pub proof fn lemma_merged_bss_is_sum(objs: Seq<ElfObject>, sects: OutputSectionList)
    requires
        merged_from(objs, sects),
    ensures
        sects.bss.bytes is NobitsLen,
        sects.bss.bytes->NobitsLen_0 == bss_total(objs, objs.len() as int),
        forall|o: int|
            0 <= o < objs.len() && named_section(objs[o].elf, spec_bss_name()) is Some ==> {
                &&& #[trigger] sects.bss.section_offsets@[o] == Some(bss_total(objs, o) as usize)
                &&& bss_total(objs, o) + bss_size(objs[o].elf) <= sects.bss.bytes->NobitsLen_0
            },
        forall|o1: int, o2: int|
            0 <= o1 < o2 < objs.len() && named_section(objs[o1].elf, spec_bss_name()) is Some && named_section(
                objs[o2].elf,
                spec_bss_name(),
            ) is Some ==> #[trigger] sects.bss.section_offsets@[o1]->Some_0 + bss_size(objs[o1].elf)
                <= #[trigger] sects.bss.section_offsets@[o2]->Some_0,
{
    let n = objs.len() as int;
    lemma_merge_bss_total(objs, n);
    assert forall|o: int|
        0 <= o < objs.len() && named_section(objs[o].elf, spec_bss_name()) is Some implies {
            &&& #[trigger] sects.bss.section_offsets@[o] == Some(bss_total(objs, o) as usize)
            &&& bss_total(objs, o) + bss_size(objs[o].elf) <= sects.bss.bytes->NobitsLen_0
        } by {
        lemma_merge_prefix(objs, spec_bss_name(), o, n);
        lemma_merge_bss_total(objs, o);
        lemma_bss_total_grows(objs, o, n);
        lemma_bss_total_nonneg(objs, o);
    }
    assert forall|o1: int, o2: int|
        0 <= o1 < o2 < objs.len() && named_section(objs[o1].elf, spec_bss_name()) is Some && named_section(
            objs[o2].elf,
            spec_bss_name(),
        ) is Some implies #[trigger] sects.bss.section_offsets@[o1]->Some_0 + bss_size(objs[o1].elf)
            <= #[trigger] sects.bss.section_offsets@[o2]->Some_0 by {
        lemma_merge_prefix(objs, spec_bss_name(), o1, n);
        lemma_merge_prefix(objs, spec_bss_name(), o2, n);
        lemma_merge_bss_total(objs, o1);
        lemma_merge_bss_total(objs, o2);
        lemma_bss_total_grows(objs, o1, o2);
        lemma_bss_total_nonneg(objs, o1);
    }
}

/// A total of sizes is not negative.
proof fn lemma_bss_total_nonneg(objs: Seq<ElfObject>, n: int)
    ensures
        bss_total(objs, n) >= 0,
    decreases n,
{
    if n > 0 {
        lemma_bss_total_nonneg(objs, n - 1);
    }
}

} // verus!
