//! Symbol resolution: binding each undefined symbol of an object to its
//! definition in another object or in a shared object.
use vstd::prelude::*;

use crate::elf64::{spec_is_resolved_index, spec_st_bind, ELF64_ST_BIND, SHN_UNDEF, STB_GLOBAL, Elf64_Sym};
use crate::linker::{obj_syms, shared_syms, ElfObject, ElfSharedObject, Linker, LinkerError};
use crate::parser::bytes_eq;
use crate::parser::copy_bytes;
use crate::parser::section::symtab::{ElfSectionSymtab, ElfSym};

verus! {

/// Where a resolved symbol is defined: in the object or in the shared object
/// with this index.
#[derive(Debug, Clone, Copy, PartialEq, Eq, Structural)]
pub enum ResolvedObjIndexKind {
    Obj(usize),
    Shared(usize),
}

/// The definition that a symbol resolves to.
#[derive(Debug, Clone, Copy, PartialEq, Eq, Structural)]
pub struct ResolvedSym {
    pub obj_index: ResolvedObjIndexKind,
    pub sym_index: usize,
}

/// A symbol that an object takes from a shared object: the shared object and
/// the symbol's index there.
#[derive(Debug, Clone, Copy, PartialEq, Eq, Structural)]
pub struct ResolvedDynSym {
    pub shared_obj_index: usize,
    pub sym_index: usize,
}

/// A symbol taken from a shared object, with its name.
pub struct DynSymEntry {
    pub name: Vec<u8>,
    pub sym: ResolvedDynSym,
}

/// A global symbol defined in a section of its own file.
pub open spec fn is_global_def(sym: Elf64_Sym) -> bool {
    spec_st_bind(sym.st_info) == STB_GLOBAL && spec_is_resolved_index(sym.st_shndx)
}

/// The `s`-th symbol of a table (never the first, null, one) is a global
/// definition of `name`.
pub open spec fn tab_defines(tab: Seq<ElfSym>, name: Seq<u8>, s: int) -> bool {
    1 <= s < tab.len() && tab[s].name@ == name && is_global_def(tab[s].sym)
}

/// The symbol tables of the objects.
pub open spec fn obj_tabs(objs: Seq<ElfObject>) -> Seq<Seq<ElfSym>> {
    Seq::new(objs.len(), |o: int| obj_syms(objs, o))
}

/// The symbol tables of the shared objects.
pub open spec fn shared_tabs(shared: Seq<ElfSharedObject>) -> Seq<Seq<ElfSym>> {
    Seq::new(shared.len(), |o: int| shared_syms(shared, o))
}

/// The `s`-th symbol of the `o`-th table, which is not the table `skip`,
/// defines `name`.
pub open spec fn defines(tabs: Seq<Seq<ElfSym>>, skip: int, name: Seq<u8>, o: int, s: int) -> bool {
    0 <= o < tabs.len() && o != skip && tab_defines(tabs[o], name, s)
}

/// `(o1, s1)` comes before `(o2, s2)`: by table, then by symbol.
pub open spec fn lex_lt(o1: int, s1: int, o2: int, s2: int) -> bool {
    o1 < o2 || (o1 == o2 && s1 < s2)
}

/// `(o, s)` is the first definition of `name`, tables and symbols in order.
pub open spec fn is_first_def(tabs: Seq<Seq<ElfSym>>, skip: int, name: Seq<u8>, o: int, s: int) -> bool {
    &&& defines(tabs, skip, name, o, s)
    &&& forall|o2: int, s2: int|
        #![trigger defines(tabs, skip, name, o2, s2)]
        lex_lt(o2, s2, o, s) ==> !defines(tabs, skip, name, o2, s2)
}

/// Some table other than `skip` defines `name`.
pub open spec fn has_def(tabs: Seq<Seq<ElfSym>>, skip: int, name: Seq<u8>) -> bool {
    exists|o: int, s: int| defines(tabs, skip, name, o, s)
}

/// Two different symbols of the tables other than `skip` define `name`.
pub open spec fn has_two_defs(tabs: Seq<Seq<ElfSym>>, skip: int, name: Seq<u8>) -> bool {
    exists|o1: int, s1: int, o2: int, s2: int|
        #![trigger defines(tabs, skip, name, o1, s1), defines(tabs, skip, name, o2, s2)]
        defines(tabs, skip, name, o1, s1) && defines(tabs, skip, name, o2, s2) && (o1 != o2 || s1
            != s2)
}

/// The first definition of `name`, when there is one.
pub open spec fn first_def(tabs: Seq<Seq<ElfSym>>, skip: int, name: Seq<u8>) -> (int, int) {
    choose|o: int, s: int| is_first_def(tabs, skip, name, o, s)
}

/// The `k`-th symbol of the `i`-th object is a reference to a symbol that
/// the object does not define.
pub open spec fn is_undefined_ref(objs: Seq<ElfObject>, i: int, k: int) -> bool {
    0 <= i < objs.len() && 1 <= k < obj_syms(objs, i).len() && obj_syms(objs, i)[k].sym.st_shndx
        == SHN_UNDEF
}

/// The name of the `k`-th symbol of the `i`-th object.
pub open spec fn ref_name(objs: Seq<ElfObject>, i: int, k: int) -> Seq<u8> {
    obj_syms(objs, i)[k].name@
}

/// What an undefined symbol resolves to: its first definition in another
/// object; failing that, its first definition in a shared object, with the
/// index of that definition counted from the symbol after the null one.
pub open spec fn expected_resolution(
    objs: Seq<ElfObject>,
    shared: Seq<ElfSharedObject>,
    i: int,
    k: int,
) -> Option<ResolvedSym> {
    let n = ref_name(objs, i, k);
    if has_def(obj_tabs(objs), i, n) {
        let (o, s) = first_def(obj_tabs(objs), i, n);
        Some(ResolvedSym { obj_index: ResolvedObjIndexKind::Obj(o as usize), sym_index: s as usize })
    } else if has_def(shared_tabs(shared), -1, n) {
        let (o, s) = first_def(shared_tabs(shared), -1, n);
        Some(
            ResolvedSym {
                obj_index: ResolvedObjIndexKind::Shared(o as usize),
                sym_index: (s - 1) as usize,
            },
        )
    } else {
        None
    }
}

/// An undefined symbol has more than one definition where it is looked up.
pub open spec fn is_duplicated(objs: Seq<ElfObject>, shared: Seq<ElfSharedObject>, i: int, k: int) -> bool {
    let n = ref_name(objs, i, k);
    has_two_defs(obj_tabs(objs), i, n) || (!has_def(obj_tabs(objs), i, n) && has_two_defs(
        shared_tabs(shared),
        -1,
        n,
    ))
}

/// An undefined symbol has no definition anywhere.
pub open spec fn is_missing(objs: Seq<ElfObject>, shared: Seq<ElfSharedObject>, i: int, k: int) -> bool {
    let n = ref_name(objs, i, k);
    !has_def(obj_tabs(objs), i, n) && !has_def(shared_tabs(shared), -1, n)
}

/// An undefined symbol is taken from a shared object.
pub open spec fn is_dynamic(objs: Seq<ElfObject>, shared: Seq<ElfSharedObject>, i: int, k: int) -> bool {
    let n = ref_name(objs, i, k);
    !has_def(obj_tabs(objs), i, n) && has_def(shared_tabs(shared), -1, n)
}

/// The set of names that a list holds.
pub open spec fn name_set(v: Seq<Vec<u8>>) -> Set<Seq<u8>> {
    Set::new(|n: Seq<u8>| exists|j: int| 0 <= j < v.len() && (#[trigger] v[j])@ == n)
}

/// A list of names holds each name once.
pub open spec fn names_distinct(v: Seq<Vec<u8>>) -> bool {
    forall|j1: int, j2: int|
        0 <= j1 < v.len() && 0 <= j2 < v.len() && j1 != j2 ==> (#[trigger] v[j1])@ != (#[trigger] v[j2])@
}

/// The names that symbol resolution reports as defined more than once.
pub open spec fn duplicated_names(objs: Seq<ElfObject>, shared: Seq<ElfSharedObject>) -> Set<Seq<u8>> {
    Set::new(
        |n: Seq<u8>|
            exists|i: int, k: int|
                #![trigger ref_name(objs, i, k)]
                is_undefined_ref(objs, i, k) && is_duplicated(objs, shared, i, k) && ref_name(objs, i, k)
                    == n,
    )
}

/// The names that symbol resolution reports as not defined anywhere.
pub open spec fn missing_names(objs: Seq<ElfObject>, shared: Seq<ElfSharedObject>) -> Set<Seq<u8>> {
    Set::new(
        |n: Seq<u8>|
            exists|i: int, k: int|
                #![trigger ref_name(objs, i, k)]
                is_undefined_ref(objs, i, k) && is_missing(objs, shared, i, k) && ref_name(objs, i, k)
                    == n,
    )
}

/// Resolution succeeds: no undefined symbol is defined twice or not at all.
pub open spec fn resolves(objs: Seq<ElfObject>, shared: Seq<ElfSharedObject>) -> bool {
    forall|i: int, k: int|
        #![trigger ref_name(objs, i, k)]
        is_undefined_ref(objs, i, k) ==> !is_duplicated(objs, shared, i, k) && !is_missing(
            objs,
            shared,
            i,
            k,
        )
}

/// What each symbol of each object resolves to once resolution succeeds: the
/// definition found for an undefined symbol, the symbol itself otherwise.
pub open spec fn final_resolution(
    objs: Seq<ElfObject>,
    shared: Seq<ElfSharedObject>,
    i: int,
    k: int,
) -> Option<ResolvedSym> {
    if k == 0 {
        None
    } else if obj_syms(objs, i)[k].sym.st_shndx == SHN_UNDEF {
        expected_resolution(objs, shared, i, k)
    } else {
        Some(ResolvedSym { obj_index: ResolvedObjIndexKind::Obj(i as usize), sym_index: k as usize })
    }
}

/// `new` is `old` with only the resolutions of the symbols changed.
pub open spec fn same_but_resolutions(old: Seq<ElfObject>, new: Seq<ElfObject>) -> bool {
    &&& old.len() == new.len()
    &&& forall|o: int|
        #![trigger new[o]]
        0 <= o < old.len() ==> {
            &&& new[o].elf == old[o].elf
            &&& new[o].rela_text == old[o].rela_text
            &&& obj_syms(new, o).len() == obj_syms(old, o).len()
            &&& forall|k: int|
                #![trigger obj_syms(new, o)[k]]
                0 <= k < obj_syms(old, o).len() ==> obj_syms(new, o)[k].name == obj_syms(old, o)[k].name
                    && obj_syms(new, o)[k].sym == obj_syms(old, o)[k].sym
        }
}

/// The dynamic symbols hold each undefined symbol that is taken from a shared
/// object once, by name, with its definition there.
pub open spec fn dyn_syms_of(
    objs: Seq<ElfObject>,
    shared: Seq<ElfSharedObject>,
    dyn_syms: Seq<DynSymEntry>,
) -> bool {
    dyn_syms_before(objs, shared, dyn_syms, objs.len() as int, 0)
}

/// Some undefined symbol before the `ck`-th symbol of the `ci`-th object is
/// taken from a shared object, has the name of `e`, and resolves to the
/// definition that `e` holds.
pub open spec fn entry_witnessed(
    objs: Seq<ElfObject>,
    shared: Seq<ElfSharedObject>,
    e: DynSymEntry,
    ci: int,
    ck: int,
) -> bool {
    exists|i: int, k: int|
        #![trigger ref_name(objs, i, k)]
        is_undefined_ref(objs, i, k) && lex_lt(i, k, ci, ck) && is_dynamic(objs, shared, i, k)
            && ref_name(objs, i, k) == e.name@ && dyn_entry_matches(objs, shared, i, k, e)
}

/// Some entry has the name `n`.
pub open spec fn name_recorded(dyn_syms: Seq<DynSymEntry>, n: Seq<u8>) -> bool {
    exists|j: int| 0 <= j < dyn_syms.len() && (#[trigger] dyn_syms[j]).name@ == n
}

/// No two entries have the same name.
pub open spec fn dyn_names_distinct(dyn_syms: Seq<DynSymEntry>) -> bool {
    forall|j1: int, j2: int|
        0 <= j1 < dyn_syms.len() && 0 <= j2 < dyn_syms.len() && j1 != j2 ==> (#[trigger] dyn_syms[j1]).name@
            != (#[trigger] dyn_syms[j2]).name@
}

/// The entry holds the shared definition that the `k`-th symbol of the
/// `i`-th object resolves to.
pub open spec fn dyn_entry_matches(
    objs: Seq<ElfObject>,
    shared: Seq<ElfSharedObject>,
    i: int,
    k: int,
    e: DynSymEntry,
) -> bool {
    expected_resolution(objs, shared, i, k) == Some(
        ResolvedSym {
            obj_index: ResolvedObjIndexKind::Shared(e.sym.shared_obj_index),
            sym_index: e.sym.sym_index,
        },
    )
}

/// The first definition of `name` in one symbol table, and whether there is
/// more than one.
fn find_defs_in(tab: &ElfSectionSymtab, name: &[u8]) -> (r: (Option<usize>, bool))
    ensures
        match r.0 {
            Some(s) => tab_defines(tab.syms@, name@, s as int) && forall|s2: int|
                0 <= s2 < s ==> !tab_defines(tab.syms@, name@, s2),
            None => forall|s2: int| !tab_defines(tab.syms@, name@, s2),
        },
        r.1 <==> exists|s1: int, s2: int|
            tab_defines(tab.syms@, name@, s1) && tab_defines(tab.syms@, name@, s2) && s1 != s2,
{
    let mut first: Option<usize> = None;
    let mut multiple = false;
    let mut s: usize = 1;
    while s < tab.syms.len()
        invariant
            1 <= s <= tab.syms@.len() || tab.syms@.len() == 0,
            match first {
                Some(f) => 1 <= f < s && tab_defines(tab.syms@, name@, f as int) && forall|s2: int|
                    0 <= s2 < f ==> !tab_defines(tab.syms@, name@, s2),
                None => forall|s2: int| 0 <= s2 < s ==> !tab_defines(tab.syms@, name@, s2),
            },
            multiple <==> exists|s1: int, s2: int|
                0 <= s1 < s && 0 <= s2 < s && tab_defines(tab.syms@, name@, s1) && tab_defines(
                    tab.syms@,
                    name@,
                    s2,
                ) && s1 != s2,
        decreases tab.syms@.len() - s,
    {
        let sym = &tab.syms[s];
        if bytes_eq(sym.name.as_slice(), name) && ELF64_ST_BIND(sym.sym.st_info) == STB_GLOBAL
            && sym.sym.is_resolved_index() {
            assert(tab_defines(tab.syms@, name@, s as int));
            match first {
                None => {
                    first = Some(s);
                },
                Some(f) => {
                    assert(tab_defines(tab.syms@, name@, f as int));
                    multiple = true;
                },
            }
        }
        proof {
            if !multiple {
                assert forall|s1: int, s2: int|
                    0 <= s1 < s + 1 && 0 <= s2 < s + 1 && tab_defines(tab.syms@, name@, s1)
                        && tab_defines(tab.syms@, name@, s2) implies s1 == s2 by {
                    if s1 < s && s2 < s {
                    } else {
                        assert(first is Some);
                    }
                }
            }
        }
        s = s + 1;
    }
    proof {
        if first is None {
            assert forall|s2: int| !tab_defines(tab.syms@, name@, s2) by {
                if 0 <= s2 < s {
                }
            }
        }
        if multiple {
        } else {
            assert forall|s1: int, s2: int|
                tab_defines(tab.syms@, name@, s1) && tab_defines(tab.syms@, name@, s2) implies s1
                == s2 by {
                assert(0 <= s1 < s && 0 <= s2 < s);
            }
        }
    }
    (first, multiple)
}


/// The first definition of `name` in the symbol tables of the objects other
/// than the `skip`-th, and whether there is more than one.
fn find_obj_defs(objs: &Vec<ElfObject>, skip: usize, name: &[u8]) -> (r: (Option<(usize, usize)>, bool))
    ensures
        match r.0 {
            Some((o, s)) => is_first_def(obj_tabs(objs@), skip as int, name@, o as int, s as int),
            None => !has_def(obj_tabs(objs@), skip as int, name@),
        },
        r.1 <==> has_two_defs(obj_tabs(objs@), skip as int, name@),
{
    let ghost tabs = obj_tabs(objs@);
    let mut first: Option<(usize, usize)> = None;
    let mut multiple = false;
    let mut o: usize = 0;
    while o < objs.len()
        invariant
            tabs == obj_tabs(objs@),
            0 <= o <= objs@.len(),
            first_invariant(tabs, skip as int, name@, o as int, first),
            multiple <==> has_two_defs_before(tabs, skip as int, name@, o as int),
        decreases objs@.len() - o,
    {
        if o != skip {
            let (f, m) = find_defs_in(&objs[o].symtab, name);
            assert(tabs[o as int] == objs@[o as int].symtab.syms@);
            proof {
                lemma_scan_step(tabs, skip as int, name@, o as int, first, multiple, f, m);
            }
            match f {
                Some(s) => {
                    match first {
                        None => {
                            first = Some((o, s));
                            multiple = m;
                        },
                        Some(_) => {
                            multiple = true;
                        },
                    }
                },
                None => {},
            }
        } else {
            proof {
                lemma_scan_skip(tabs, skip as int, name@, o as int, first, multiple);
            }
        }
        o = o + 1;
    }
    proof {
        lemma_scan_done(tabs, skip as int, name@, first);
    }
    (first, multiple)
}

/// The first definition of `name` in the dynamic symbol tables of the shared
/// objects, and whether there is more than one.
fn find_shared_defs(shared: &Vec<ElfSharedObject>, name: &[u8]) -> (r: (Option<(usize, usize)>, bool))
    ensures
        match r.0 {
            Some((o, s)) => is_first_def(shared_tabs(shared@), -1, name@, o as int, s as int),
            None => !has_def(shared_tabs(shared@), -1, name@),
        },
        r.1 <==> has_two_defs(shared_tabs(shared@), -1, name@),
{
    let ghost tabs = shared_tabs(shared@);
    let mut first: Option<(usize, usize)> = None;
    let mut multiple = false;
    let mut o: usize = 0;
    while o < shared.len()
        invariant
            tabs == shared_tabs(shared@),
            0 <= o <= shared@.len(),
            first_invariant(tabs, -1, name@, o as int, first),
            multiple <==> has_two_defs_before(tabs, -1, name@, o as int),
        decreases shared@.len() - o,
    {
        let (f, m) = find_defs_in(&shared[o].symtab, name);
        assert(tabs[o as int] == shared@[o as int].symtab.syms@);
        proof {
            lemma_scan_step(tabs, -1, name@, o as int, first, multiple, f, m);
        }
        match f {
            Some(s) => {
                match first {
                    None => {
                        first = Some((o, s));
                        multiple = m;
                    },
                    Some(_) => {
                        multiple = true;
                    },
                }
            },
            None => {},
        }
        o = o + 1;
    }
    proof {
        lemma_scan_done(tabs, -1, name@, first);
    }
    (first, multiple)
}

/// What a scan of the tables before the `o`-th knows of the first definition.
pub open spec fn first_invariant(
    tabs: Seq<Seq<ElfSym>>,
    skip: int,
    name: Seq<u8>,
    o: int,
    first: Option<(usize, usize)>,
) -> bool {
    match first {
        Some((fo, fs)) => fo < o && is_first_def(tabs, skip, name, fo as int, fs as int),
        None => forall|o2: int, s2: int|
            #![trigger defines(tabs, skip, name, o2, s2)]
            o2 < o ==> !defines(tabs, skip, name, o2, s2),
    }
}

/// Two different symbols of the tables before the `o`-th define `name`.
pub open spec fn has_two_defs_before(tabs: Seq<Seq<ElfSym>>, skip: int, name: Seq<u8>, o: int) -> bool {
    exists|o1: int, s1: int, o2: int, s2: int|
        #![trigger defines(tabs, skip, name, o1, s1), defines(tabs, skip, name, o2, s2)]
        o1 < o && o2 < o && defines(tabs, skip, name, o1, s1) && defines(tabs, skip, name, o2, s2)
            && (o1 != o2 || s1 != s2)
}

proof fn lemma_scan_skip(
    tabs: Seq<Seq<ElfSym>>,
    skip: int,
    name: Seq<u8>,
    o: int,
    first: Option<(usize, usize)>,
    multiple: bool,
)
    requires
        o == skip,
        0 <= o,
        first_invariant(tabs, skip, name, o, first),
        multiple <==> has_two_defs_before(tabs, skip, name, o),
    ensures
        first_invariant(tabs, skip, name, o + 1, first),
        multiple <==> has_two_defs_before(tabs, skip, name, o + 1),
{
    if has_two_defs_before(tabs, skip, name, o + 1) {
        let (o1, s1, o2, s2) = choose|o1: int, s1: int, o2: int, s2: int|
            o1 < o + 1 && o2 < o + 1 && defines(tabs, skip, name, o1, s1) && defines(
                tabs,
                skip,
                name,
                o2,
                s2,
            ) && (o1 != o2 || s1 != s2);
        assert(o1 < o && o2 < o);
    }
}

proof fn lemma_scan_step(
    tabs: Seq<Seq<ElfSym>>,
    skip: int,
    name: Seq<u8>,
    o: int,
    first: Option<(usize, usize)>,
    multiple: bool,
    f: Option<usize>,
    m: bool,
)
    requires
        0 <= o < tabs.len(),
        o <= usize::MAX,
        o != skip,
        first_invariant(tabs, skip, name, o, first),
        multiple <==> has_two_defs_before(tabs, skip, name, o),
        match f {
            Some(s) => tab_defines(tabs[o], name, s as int) && forall|s2: int|
                0 <= s2 < s ==> !tab_defines(tabs[o], name, s2),
            None => forall|s2: int| !tab_defines(tabs[o], name, s2),
        },
        m <==> exists|s1: int, s2: int|
            tab_defines(tabs[o], name, s1) && tab_defines(tabs[o], name, s2) && s1 != s2,
    ensures
        ({
            let first2 = match f {
                Some(s) => match first {
                    None => Some((o as usize, s)),
                    Some(x) => Some(x),
                },
                None => first,
            };
            let multiple2 = match f {
                Some(_) => match first {
                    None => m,
                    Some(_) => true,
                },
                None => multiple,
            };
            &&& first_invariant(tabs, skip, name, o + 1, first2)
            &&& multiple2 <==> has_two_defs_before(tabs, skip, name, o + 1)
        }),
{
    match f {
        Some(s) => {
            assert(defines(tabs, skip, name, o, s as int));
            match first {
                None => {
                    assert forall|o2: int, s2: int| lex_lt(o2, s2, o, s as int) implies !defines(
                        tabs,
                        skip,
                        name,
                        o2,
                        s2,
                    ) by {
                        if o2 == o {
                            assert(!tab_defines(tabs[o], name, s2));
                        }
                    }
                    assert(is_first_def(tabs, skip, name, o, s as int));
                    if m {
                        let (s1, s2) = choose|s1: int, s2: int|
                            tab_defines(tabs[o], name, s1) && tab_defines(tabs[o], name, s2) && s1
                                != s2;
                        assert(defines(tabs, skip, name, o, s1));
                        assert(defines(tabs, skip, name, o, s2));
                        assert(has_two_defs_before(tabs, skip, name, o + 1));
                    } else {
                        if has_two_defs_before(tabs, skip, name, o + 1) {
                            let (o1, s1, o2, s2) = choose|o1: int, s1: int, o2: int, s2: int|
                                o1 < o + 1 && o2 < o + 1 && defines(tabs, skip, name, o1, s1)
                                    && defines(tabs, skip, name, o2, s2) && (o1 != o2 || s1 != s2);
                            assert(o1 == o && o2 == o);
                            assert(tab_defines(tabs[o], name, s1));
                            assert(tab_defines(tabs[o], name, s2));
                        }
                    }
                },
                Some((fo, fs)) => {
                    assert(defines(tabs, skip, name, fo as int, fs as int));
                    assert(has_two_defs_before(tabs, skip, name, o + 1));
                },
            }
        },
        None => {
            assert forall|s2: int| !defines(tabs, skip, name, o, s2) by {
                assert(!tab_defines(tabs[o], name, s2));
            }
            if has_two_defs_before(tabs, skip, name, o + 1) {
                let (o1, s1, o2, s2) = choose|o1: int, s1: int, o2: int, s2: int|
                    o1 < o + 1 && o2 < o + 1 && defines(tabs, skip, name, o1, s1) && defines(
                        tabs,
                        skip,
                        name,
                        o2,
                        s2,
                    ) && (o1 != o2 || s1 != s2);
                assert(o1 < o && o2 < o);
                assert(has_two_defs_before(tabs, skip, name, o));
            }
        },
    }
}

proof fn lemma_scan_done(tabs: Seq<Seq<ElfSym>>, skip: int, name: Seq<u8>, first: Option<(usize, usize)>)
    requires
        first_invariant(tabs, skip, name, tabs.len() as int, first),
    ensures
        match first {
            Some((o, s)) => is_first_def(tabs, skip, name, o as int, s as int),
            None => !has_def(tabs, skip, name),
        },
        has_two_defs(tabs, skip, name) <==> has_two_defs_before(tabs, skip, name, tabs.len() as int),
{
    if first is None {
        if has_def(tabs, skip, name) {
            let (o, s) = choose|o: int, s: int| defines(tabs, skip, name, o, s);
            assert(!defines(tabs, skip, name, o, s));
        }
    }
    if has_two_defs(tabs, skip, name) {
        let (o1, s1, o2, s2) = choose|o1: int, s1: int, o2: int, s2: int|
            defines(tabs, skip, name, o1, s1) && defines(tabs, skip, name, o2, s2) && (o1 != o2
                || s1 != s2);
        assert(has_two_defs_before(tabs, skip, name, tabs.len() as int));
    }
}

/// The first definition of a name is unique.
pub proof fn lemma_first_def_unique(
    tabs: Seq<Seq<ElfSym>>,
    skip: int,
    name: Seq<u8>,
    o1: int,
    s1: int,
    o2: int,
    s2: int,
)
    requires
        is_first_def(tabs, skip, name, o1, s1),
        is_first_def(tabs, skip, name, o2, s2),
    ensures
        o1 == o2 && s1 == s2,
{
    if lex_lt(o1, s1, o2, s2) {
        assert(!defines(tabs, skip, name, o1, s1));
    } else if lex_lt(o2, s2, o1, s1) {
        assert(!defines(tabs, skip, name, o2, s2));
    }
}

/// Adds `name` to a list of distinct names, unless it is there already.
fn insert_name(names: &mut Vec<Vec<u8>>, name: &[u8])
    requires
        names_distinct(old(names)@),
    ensures
        names_distinct(final(names)@),
        name_set(final(names)@) == name_set(old(names)@).insert(name@),
{
    let mut j: usize = 0;
    while j < names.len()
        invariant
            0 <= j <= names@.len(),
            names_distinct(names@),
            forall|j2: int| 0 <= j2 < j ==> (#[trigger] names@[j2])@ != name@,
        decreases names@.len() - j,
    {
        if bytes_eq(names[j].as_slice(), name) {
            assert(name_set(names@).contains(name@));
            assert(name_set(names@).insert(name@) =~= name_set(names@));
            return;
        }
        j = j + 1;
    }
    let ghost before = names@;
    names.push(copy_bytes(name));
    proof {
        assert forall|n: Seq<u8>| #[trigger] name_set(names@).contains(n) == name_set(before).insert(
            name@,
        ).contains(n) by {
            if name_set(before).contains(n) {
                let j2 = choose|j2: int| 0 <= j2 < before.len() && (#[trigger] before[j2])@ == n;
                assert(names@[j2] == before[j2]);
            }
            if n == name@ {
                assert(names@[before.len() as int]@ == n);
            }
        }
        assert(name_set(names@) =~= name_set(before).insert(name@));
    }
}

/// Whether an undefined symbol is reported as duplicated (`dup`) or as
/// missing (`!dup`).
pub open spec fn is_reported(
    objs: Seq<ElfObject>,
    shared: Seq<ElfSharedObject>,
    dup: bool,
    i: int,
    k: int,
) -> bool {
    if dup {
        is_duplicated(objs, shared, i, k)
    } else {
        is_missing(objs, shared, i, k)
    }
}

/// The names of the undefined symbols before the `ck`-th symbol of the
/// `ci`-th object that are reported as duplicated (`dup`) or as missing.
pub open spec fn ref_names_before(
    objs: Seq<ElfObject>,
    shared: Seq<ElfSharedObject>,
    dup: bool,
    ci: int,
    ck: int,
) -> Set<Seq<u8>> {
    Set::new(
        |n: Seq<u8>|
            exists|i: int, k: int|
                #![trigger ref_name(objs, i, k)]
                is_undefined_ref(objs, i, k) && lex_lt(i, k, ci, ck) && is_reported(
                    objs,
                    shared,
                    dup,
                    i,
                    k,
                ) && ref_name(objs, i, k) == n,
    )
}

/// A resolution names a symbol that exists.
pub open spec fn resolution_valid(
    objs: Seq<ElfObject>,
    shared: Seq<ElfSharedObject>,
    r: ResolvedSym,
) -> bool {
    match r.obj_index {
        ResolvedObjIndexKind::Obj(o) => o < objs.len() && r.sym_index < obj_syms(objs, o as int).len(),
        ResolvedObjIndexKind::Shared(o) => o < shared.len() && r.sym_index + 1 < shared_syms(
            shared,
            o as int,
        ).len(),
    }
}

/// No symbol of any object is resolved yet.
pub open spec fn all_unresolved(objs: Seq<ElfObject>) -> bool {
    forall|i: int, k: int|
        0 <= i < objs.len() && 0 <= k < obj_syms(objs, i).len() ==> (#[trigger] obj_syms(objs, i)[k]).resolved_sym is None
}

/// Every resolution that the objects record names a symbol that exists.
pub open spec fn resolutions_valid(objs: Seq<ElfObject>, shared: Seq<ElfSharedObject>) -> bool {
    forall|i: int, k: int|
        0 <= i < objs.len() && 0 <= k < obj_syms(objs, i).len() && (#[trigger] obj_syms(objs, i)[k]).resolved_sym is Some
            ==> resolution_valid(objs, shared, obj_syms(objs, i)[k].resolved_sym->Some_0)
}

/// What resolving the undefined symbols before the `ck`-th symbol of the
/// `ci`-th object has built.
pub open spec fn resolution_state(
    objs: Seq<ElfObject>,
    shared: Seq<ElfSharedObject>,
    resolved: Seq<Vec<Option<ResolvedSym>>>,
    dups: Seq<Vec<u8>>,
    missing: Seq<Vec<u8>>,
    dyn_syms: Seq<DynSymEntry>,
    ci: int,
    ck: int,
) -> bool {
    &&& resolved.len() == objs.len()
    &&& forall|i: int|
        #![trigger resolved[i]]
        0 <= i < objs.len() ==> resolved[i]@.len() == obj_syms(objs, i).len()
    &&& forall|i: int, k: int|
        #![trigger resolved[i]@[k]]
        0 <= i < objs.len() && 0 <= k < obj_syms(objs, i).len() ==> resolved[i]@[k] == if lex_lt(
            i,
            k,
            ci,
            ck,
        ) && is_undefined_ref(objs, i, k) {
            expected_resolution(objs, shared, i, k)
        } else {
            None
        }
    &&& forall|i: int, k: int|
        #![trigger resolved[i]@[k]]
        0 <= i < objs.len() && 0 <= k < obj_syms(objs, i).len() && resolved[i]@[k] is Some
            ==> resolution_valid(objs, shared, resolved[i]@[k]->Some_0)
    &&& names_distinct(dups)
    &&& name_set(dups) == ref_names_before(objs, shared, true, ci, ck)
    &&& names_distinct(missing)
    &&& name_set(missing) == ref_names_before(objs, shared, false, ci, ck)
    &&& dyn_syms_before(objs, shared, dyn_syms, ci, ck)
}

/// The dynamic symbols hold each undefined symbol before the `ck`-th symbol
/// of the `ci`-th object that is taken from a shared object, once.
pub open spec fn dyn_syms_before(
    objs: Seq<ElfObject>,
    shared: Seq<ElfSharedObject>,
    dyn_syms: Seq<DynSymEntry>,
    ci: int,
    ck: int,
) -> bool {
    &&& dyn_names_distinct(dyn_syms)
    &&& forall|j: int|
        0 <= j < dyn_syms.len() ==> entry_witnessed(objs, shared, #[trigger] dyn_syms[j], ci, ck)
    &&& forall|i: int, k: int|
        #![trigger ref_name(objs, i, k)]
        is_undefined_ref(objs, i, k) && lex_lt(i, k, ci, ck) && is_dynamic(objs, shared, i, k)
            ==> name_recorded(dyn_syms, ref_name(objs, i, k))
}

/// Records that `name` is taken from the `o`-th shared object, where it is the
/// symbol `sym_index`, unless it is recorded already.
fn insert_dyn_sym(dyn_syms: &mut Vec<DynSymEntry>, name: &[u8], o: usize, sym_index: usize) -> (found: Option<usize>)
    ensures
        match found {
            Some(j) => j < old(dyn_syms)@.len() && old(dyn_syms)@[j as int].name@ == name@ && final(dyn_syms)@
                == old(dyn_syms)@,
            None => (forall|j: int| 0 <= j < old(dyn_syms)@.len() ==> (#[trigger] old(dyn_syms)@[j]).name@ != name@)
                && final(dyn_syms)@.len() == old(dyn_syms)@.len() + 1 && final(dyn_syms)@.drop_last() == old(dyn_syms)@
                && final(dyn_syms)@.last().name@ == name@ && final(dyn_syms)@.last().sym == (ResolvedDynSym {
                shared_obj_index: o,
                sym_index,
            }),
        },
{
    let mut j: usize = 0;
    while j < dyn_syms.len()
        invariant
            0 <= j <= dyn_syms@.len(),
            dyn_syms@ == old(dyn_syms)@,
            forall|j2: int| 0 <= j2 < j ==> (#[trigger] dyn_syms@[j2]).name@ != name@,
        decreases dyn_syms@.len() - j,
    {
        if bytes_eq(dyn_syms[j].name.as_slice(), name) {
            return Some(j);
        }
        j = j + 1;
    }
    dyn_syms.push(
        DynSymEntry { name: copy_bytes(name), sym: ResolvedDynSym { shared_obj_index: o, sym_index } },
    );
    assert(dyn_syms@.drop_last() =~= old(dyn_syms)@);
    None
}

impl<'a> Linker<'a> {
    /// Resolves the `k`-th symbol of the `i`-th object, if it is undefined.
    fn resolve_ref(
        &self,
        i: usize,
        k: usize,
        resolved: &mut Vec<Vec<Option<ResolvedSym>>>,
        dups: &mut Vec<Vec<u8>>,
        missing: &mut Vec<Vec<u8>>,
        dyn_syms: &mut Vec<DynSymEntry>,
    )
        requires
            i < self.objs@.len(),
            1 <= k < obj_syms(self.objs@, i as int).len(),
            resolution_state(
                self.objs@,
                self.shared_objs@,
                old(resolved)@,
                old(dups)@,
                old(missing)@,
                old(dyn_syms)@,
                i as int,
                k as int,
            ),
        ensures
            resolution_state(
                self.objs@,
                self.shared_objs@,
                final(resolved)@,
                final(dups)@,
                final(missing)@,
                final(dyn_syms)@,
                i as int,
                k + 1,
            ),
    {
        let ghost objs = self.objs@;
        let ghost shared = self.shared_objs@;
        let sym = &self.objs[i].symtab.syms[k];
        assert(sym.name@ == ref_name(objs, i as int, k as int));
        if sym.sym.st_shndx != SHN_UNDEF {
            proof {
                assert(!is_undefined_ref(objs, i as int, k as int));
                lemma_names_before_step_no(objs, shared, true, i as int, k as int);
                lemma_names_before_step_no(objs, shared, false, i as int, k as int);
                lemma_dyn_before_step_no(objs, shared, dyn_syms@, i as int, k as int);
            }
            return;
        }
        assert(is_undefined_ref(objs, i as int, k as int));
        let name = sym.name.as_slice();
        let (f, m) = find_obj_defs(&self.objs, i, name);
        match f {
            Some((o, s)) => {
                proof {
                    let (fo, fs) = first_def(obj_tabs(objs), i as int, name@);
                    lemma_first_def_unique(obj_tabs(objs), i as int, name@, o as int, s as int, fo, fs);
                }
                resolved[i].set(k, Some(ResolvedSym { obj_index: ResolvedObjIndexKind::Obj(o), sym_index: s }));
                if m {
                    insert_name(dups, name);
                }
                proof {
                    assert(!is_missing(objs, shared, i as int, k as int));
                    assert(!is_dynamic(objs, shared, i as int, k as int));
                    lemma_names_before_step(objs, shared, true, i as int, k as int, old(dups)@, dups@, m);
                    lemma_names_before_step(objs, shared, false, i as int, k as int, old(missing)@, missing@, false);
                    lemma_dyn_before_step_no(objs, shared, dyn_syms@, i as int, k as int);
                }
            },
            None => {
                let (f2, m2) = find_shared_defs(&self.shared_objs, name);
                match f2 {
                    Some((o, s)) => {
                        proof {
                            let (fo, fs) = first_def(shared_tabs(shared), -1, name@);
                            lemma_first_def_unique(shared_tabs(shared), -1, name@, o as int, s as int, fo, fs);
                        }
                        resolved[i].set(
                            k,
                            Some(ResolvedSym { obj_index: ResolvedObjIndexKind::Shared(o), sym_index: s - 1 }),
                        );
                        let ghost dyn_before = dyn_syms@;
                        let found = insert_dyn_sym(dyn_syms, name, o, s - 1);
                        if m2 {
                            insert_name(dups, name);
                        }
                        proof {
                            assert(is_dynamic(objs, shared, i as int, k as int));
                            lemma_names_before_step(objs, shared, true, i as int, k as int, old(dups)@, dups@, m2);
                            lemma_names_before_step(objs, shared, false, i as int, k as int, old(missing)@, missing@, false);
                            lemma_dyn_before_step_yes(objs, shared, dyn_before, dyn_syms@, i as int, k as int, found);
                        }
                    },
                    None => {
                        insert_name(missing, name);
                        proof {
                            assert(is_missing(objs, shared, i as int, k as int));
                            assert(!is_duplicated(objs, shared, i as int, k as int));
                            assert(!is_dynamic(objs, shared, i as int, k as int));
                            lemma_names_before_step(objs, shared, true, i as int, k as int, old(dups)@, dups@, false);
                            lemma_names_before_step(objs, shared, false, i as int, k as int, old(missing)@, missing@, true);
                            lemma_dyn_before_step_no(objs, shared, dyn_syms@, i as int, k as int);
                        }
                    },
                }
            },
        }
    }
}

proof fn lemma_names_before_step_no(
    objs: Seq<ElfObject>,
    shared: Seq<ElfSharedObject>,
    dup: bool,
    i: int,
    k: int,
)
    requires
        !(is_undefined_ref(objs, i, k) && is_reported(objs, shared, dup, i, k)),
    ensures
        ref_names_before(objs, shared, dup, i, k + 1) == ref_names_before(objs, shared, dup, i, k),
{
    assert forall|n: Seq<u8>|
        ref_names_before(objs, shared, dup, i, k + 1).contains(n) implies ref_names_before(
        objs,
        shared,
        dup,
        i,
        k,
    ).contains(n) by {
        let (i2, k2) = choose|i2: int, k2: int|
            #![trigger ref_name(objs, i2, k2)]
            is_undefined_ref(objs, i2, k2) && lex_lt(i2, k2, i, k + 1) && is_reported(
                objs,
                shared,
                dup,
                i2,
                k2,
            ) && ref_name(objs, i2, k2) == n;
        assert(lex_lt(i2, k2, i, k));
    }
    assert forall|n: Seq<u8>|
        ref_names_before(objs, shared, dup, i, k).contains(n) implies ref_names_before(
        objs,
        shared,
        dup,
        i,
        k + 1,
    ).contains(n) by {
        let (i2, k2) = choose|i2: int, k2: int|
            #![trigger ref_name(objs, i2, k2)]
            is_undefined_ref(objs, i2, k2) && lex_lt(i2, k2, i, k) && is_reported(
                objs,
                shared,
                dup,
                i2,
                k2,
            ) && ref_name(objs, i2, k2) == n;
        assert(lex_lt(i2, k2, i, k + 1));
    }
    assert(ref_names_before(objs, shared, dup, i, k + 1) =~= ref_names_before(objs, shared, dup, i, k));
}

proof fn lemma_names_before_step(
    objs: Seq<ElfObject>,
    shared: Seq<ElfSharedObject>,
    dup: bool,
    i: int,
    k: int,
    old_v: Seq<Vec<u8>>,
    new_v: Seq<Vec<u8>>,
    added: bool,
)
    requires
        is_undefined_ref(objs, i, k),
        is_reported(objs, shared, dup, i, k) == added,
        name_set(old_v) == ref_names_before(objs, shared, dup, i, k),
        added ==> name_set(new_v) == name_set(old_v).insert(ref_name(objs, i, k)),
        !added ==> new_v == old_v,
    ensures
        name_set(new_v) == ref_names_before(objs, shared, dup, i, k + 1),
{
    if !added {
        lemma_names_before_step_no(objs, shared, dup, i, k);
    } else {
        let a = ref_names_before(objs, shared, dup, i, k);
        let b = ref_names_before(objs, shared, dup, i, k + 1);
        assert forall|n: Seq<u8>| b.contains(n) implies a.insert(ref_name(objs, i, k)).contains(n) by {
            let (i2, k2) = choose|i2: int, k2: int|
                #![trigger ref_name(objs, i2, k2)]
                is_undefined_ref(objs, i2, k2) && lex_lt(i2, k2, i, k + 1) && is_reported(
                    objs,
                    shared,
                    dup,
                    i2,
                    k2,
                ) && ref_name(objs, i2, k2) == n;
            if lex_lt(i2, k2, i, k) {
                assert(a.contains(n));
            }
        }
        assert forall|n: Seq<u8>| a.insert(ref_name(objs, i, k)).contains(n) implies b.contains(n) by {
            if n == ref_name(objs, i, k) {
                assert(lex_lt(i, k, i, k + 1));
            } else {
                let (i2, k2) = choose|i2: int, k2: int|
                    #![trigger ref_name(objs, i2, k2)]
                    is_undefined_ref(objs, i2, k2) && lex_lt(i2, k2, i, k) && is_reported(
                        objs,
                        shared,
                        dup,
                        i2,
                        k2,
                    ) && ref_name(objs, i2, k2) == n;
                assert(lex_lt(i2, k2, i, k + 1));
            }
        }
        assert(b =~= a.insert(ref_name(objs, i, k)));
    }
}

proof fn lemma_witnessed_mono(
    objs: Seq<ElfObject>,
    shared: Seq<ElfSharedObject>,
    e: DynSymEntry,
    i: int,
    k: int,
)
    requires
        entry_witnessed(objs, shared, e, i, k),
    ensures
        entry_witnessed(objs, shared, e, i, k + 1),
{
    let (i2, k2) = choose|i2: int, k2: int|
        #![trigger ref_name(objs, i2, k2)]
        is_undefined_ref(objs, i2, k2) && lex_lt(i2, k2, i, k) && is_dynamic(objs, shared, i2, k2)
            && ref_name(objs, i2, k2) == e.name@ && dyn_entry_matches(objs, shared, i2, k2, e);
    assert(lex_lt(i2, k2, i, k + 1));
}

proof fn lemma_dyn_before_step_no(
    objs: Seq<ElfObject>,
    shared: Seq<ElfSharedObject>,
    dyn_syms: Seq<DynSymEntry>,
    i: int,
    k: int,
)
    requires
        !(is_undefined_ref(objs, i, k) && is_dynamic(objs, shared, i, k)),
        dyn_syms_before(objs, shared, dyn_syms, i, k),
    ensures
        dyn_syms_before(objs, shared, dyn_syms, i, k + 1),
{
    assert forall|j: int| 0 <= j < dyn_syms.len() implies entry_witnessed(
        objs,
        shared,
        #[trigger] dyn_syms[j],
        i,
        k + 1,
    ) by {
        lemma_witnessed_mono(objs, shared, dyn_syms[j], i, k);
    }
    assert forall|i2: int, k2: int|
        #![trigger ref_name(objs, i2, k2)]
        is_undefined_ref(objs, i2, k2) && lex_lt(i2, k2, i, k + 1) && is_dynamic(objs, shared, i2, k2)
            implies name_recorded(dyn_syms, ref_name(objs, i2, k2)) by {
        assert(lex_lt(i2, k2, i, k));
    }
}

proof fn lemma_dyn_before_step_yes(
    objs: Seq<ElfObject>,
    shared: Seq<ElfSharedObject>,
    old_d: Seq<DynSymEntry>,
    new_d: Seq<DynSymEntry>,
    i: int,
    k: int,
    found: Option<usize>,
)
    requires
        is_undefined_ref(objs, i, k),
        is_dynamic(objs, shared, i, k),
        dyn_syms_before(objs, shared, old_d, i, k),
        match found {
            Some(j) => j < old_d.len() && old_d[j as int].name@ == ref_name(objs, i, k) && new_d == old_d,
            None => (forall|j: int| 0 <= j < old_d.len() ==> (#[trigger] old_d[j]).name@ != ref_name(objs, i, k))
                && new_d.len() == old_d.len() + 1 && new_d.drop_last() == old_d && new_d.last().name@
                == ref_name(objs, i, k) && dyn_entry_matches(objs, shared, i, k, new_d.last()),
        },
    ensures
        dyn_syms_before(objs, shared, new_d, i, k + 1),
{
    let last = old_d.len() as int;
    if found is None {
        assert forall|j: int| 0 <= j < old_d.len() implies #[trigger] new_d[j] == old_d[j] by {
            assert(new_d.drop_last()[j] == new_d[j]);
        }
        assert forall|j1: int, j2: int|
            0 <= j1 < new_d.len() && 0 <= j2 < new_d.len() && j1 != j2 implies (#[trigger] new_d[j1]).name@
                != (#[trigger] new_d[j2]).name@ by {
            if j1 < last && j2 < last {
                assert(new_d[j1] == old_d[j1]);
                assert(new_d[j2] == old_d[j2]);
            } else if j1 == last {
                assert(new_d[j2] == old_d[j2]);
            } else {
                assert(new_d[j1] == old_d[j1]);
            }
        }
    }
    assert forall|j: int| 0 <= j < new_d.len() implies entry_witnessed(
        objs,
        shared,
        #[trigger] new_d[j],
        i,
        k + 1,
    ) by {
        if found is None && j == last {
            assert(lex_lt(i, k, i, k + 1));
            assert(ref_name(objs, i, k) == new_d[j].name@);
        } else {
            assert(new_d[j] == old_d[j]);
            lemma_witnessed_mono(objs, shared, old_d[j], i, k);
        }
    }
    assert forall|i2: int, k2: int|
        #![trigger ref_name(objs, i2, k2)]
        is_undefined_ref(objs, i2, k2) && lex_lt(i2, k2, i, k + 1) && is_dynamic(objs, shared, i2, k2)
            implies name_recorded(new_d, ref_name(objs, i2, k2)) by {
        if lex_lt(i2, k2, i, k) {
            let j = choose|j: int| 0 <= j < old_d.len() && (#[trigger] old_d[j]).name@ == ref_name(objs, i2, k2);
            assert(new_d[j] == old_d[j]);
        } else {
            assert(i2 == i && k2 == k);
            match found {
                Some(j) => {
                    assert(new_d[j as int].name@ == ref_name(objs, i2, k2));
                },
                None => {
                    assert(new_d[last].name@ == ref_name(objs, i2, k2));
                },
            }
        }
    }
}

/// The symbol states that resolution reaches agree on the undefined symbols
/// that come before two positions when the same symbols come before both.
proof fn lemma_state_equiv(
    objs: Seq<ElfObject>,
    shared: Seq<ElfSharedObject>,
    resolved: Seq<Vec<Option<ResolvedSym>>>,
    dups: Seq<Vec<u8>>,
    missing: Seq<Vec<u8>>,
    d: Seq<DynSymEntry>,
    c1: int,
    k1: int,
    c2: int,
    k2: int,
)
    requires
        forall|i: int, k: int|
            #![trigger ref_name(objs, i, k)]
            is_undefined_ref(objs, i, k) ==> (lex_lt(i, k, c1, k1) <==> lex_lt(i, k, c2, k2)),
        resolution_state(objs, shared, resolved, dups, missing, d, c1, k1),
    ensures
        resolution_state(objs, shared, resolved, dups, missing, d, c2, k2),
{
    assert forall|i: int, k: int|
        #![trigger resolved[i]@[k]]
        0 <= i < objs.len() && 0 <= k < obj_syms(objs, i).len() implies resolved[i]@[k] == if lex_lt(
            i,
            k,
            c2,
            k2,
        ) && is_undefined_ref(objs, i, k) {
            expected_resolution(objs, shared, i, k)
        } else {
            None
        } by {
        if is_undefined_ref(objs, i, k) {
            assert(lex_lt(i, k, c1, k1) <==> lex_lt(i, k, c2, k2)) by {
                let _ = ref_name(objs, i, k);
            }
        }
    }
    assert forall|dup: bool| true implies ref_names_before(objs, shared, dup, c1, k1)
        == ref_names_before(objs, shared, dup, c2, k2) by {
        assert(ref_names_before(objs, shared, dup, c1, k1) =~= ref_names_before(
            objs,
            shared,
            dup,
            c2,
            k2,
        ));
    }
    assert forall|j: int| 0 <= j < d.len() implies entry_witnessed(
        objs,
        shared,
        #[trigger] d[j],
        c2,
        k2,
    ) by {
        assert(entry_witnessed(objs, shared, d[j], c1, k1));
    }
}

/// The names reported once all undefined symbols are resolved.
proof fn lemma_final_names(objs: Seq<ElfObject>, shared: Seq<ElfSharedObject>)
    ensures
        ref_names_before(objs, shared, true, objs.len() as int, 1) == duplicated_names(objs, shared),
        ref_names_before(objs, shared, false, objs.len() as int, 1) == missing_names(objs, shared),
        ref_names_before(objs, shared, true, objs.len() as int, 1).is_empty() && ref_names_before(
            objs,
            shared,
            false,
            objs.len() as int,
            1,
        ).is_empty() <==> resolves(objs, shared),
{
    let n = objs.len() as int;
    assert(ref_names_before(objs, shared, true, n, 1) =~= duplicated_names(objs, shared));
    assert(ref_names_before(objs, shared, false, n, 1) =~= missing_names(objs, shared));
    if !resolves(objs, shared) {
        let (i, k) = choose|i: int, k: int|
            #![trigger ref_name(objs, i, k)]
            !(is_undefined_ref(objs, i, k) ==> !is_duplicated(objs, shared, i, k) && !is_missing(
                objs,
                shared,
                i,
                k,
            ));
        if is_duplicated(objs, shared, i, k) {
            assert(duplicated_names(objs, shared).contains(ref_name(objs, i, k)));
        } else {
            assert(missing_names(objs, shared).contains(ref_name(objs, i, k)));
        }
    } else {
        if !duplicated_names(objs, shared).is_empty() {
            let x = duplicated_names(objs, shared).choose();
            assert(duplicated_names(objs, shared).contains(x));
        }
        if !missing_names(objs, shared).is_empty() {
            let x = missing_names(objs, shared).choose();
            assert(missing_names(objs, shared).contains(x));
        }
    }
}

/// The set of names in an empty list is empty, and only there.
proof fn lemma_name_set_empty(v: Seq<Vec<u8>>)
    ensures
        name_set(v).is_empty() <==> v.len() == 0,
{
    if v.len() > 0 {
        assert(name_set(v).contains(v[0]@));
    } else {
        assert(name_set(v) =~= Set::empty());
    }
}

impl<'a> Linker<'a> {
    /// Resolves every undefined symbol of every object: to its first global
    /// definition in another object, or else to its first global definition
    /// in a shared object.  Fails, listing the names, when some undefined
    /// symbol is defined more than once where it is looked up, or nowhere.
    /// On success every other symbol (but the null one) resolves to itself,
    /// and the symbols taken from shared objects are returned.
    pub fn resolve_symbols(&mut self) -> (r: Result<Vec<DynSymEntry>, LinkerError>)
        requires
            all_unresolved(old(self).objs@),
        ensures
            final(self).shared_objs == old(self).shared_objs,
            final(self).dyn_linker == old(self).dyn_linker,
            match r {
                Ok(d) => {
                    &&& resolves(old(self).objs@, old(self).shared_objs@)
                    &&& same_but_resolutions(old(self).objs@, final(self).objs@)
                    &&& forall|i: int, k: int|
                        0 <= i < old(self).objs@.len() && 0 <= k < obj_syms(old(self).objs@, i).len()
                            ==> (#[trigger] obj_syms(final(self).objs@, i)[k]).resolved_sym == if k == 0 {
                            obj_syms(old(self).objs@, i)[k].resolved_sym
                        } else {
                            final_resolution(old(self).objs@, old(self).shared_objs@, i, k)
                        }
                    &&& dyn_syms_of(old(self).objs@, old(self).shared_objs@, d@)
                    &&& resolutions_valid(final(self).objs@, final(self).shared_objs@)
                    &&& final(self).resolved_syms@.len() == old(self).objs@.len()
                    &&& forall|i: int, k: int|
                        0 <= i < old(self).objs@.len() && 0 <= k < obj_syms(old(self).objs@, i).len()
                            ==> #[trigger] final(self).resolved_syms@[i]@[k] == if is_undefined_ref(
                            old(self).objs@,
                            i,
                            k,
                        ) {
                            expected_resolution(old(self).objs@, old(self).shared_objs@, i, k)
                        } else {
                            None
                        }
                },
                Err(LinkerError::SymbolResolveFailed { duplicated_syms, missing_syms }) => {
                    &&& !resolves(old(self).objs@, old(self).shared_objs@)
                    &&& final(self).objs == old(self).objs
                    &&& final(self).resolved_syms == old(self).resolved_syms
                    &&& names_distinct(duplicated_syms@)
                    &&& name_set(duplicated_syms@) == duplicated_names(
                        old(self).objs@,
                        old(self).shared_objs@,
                    )
                    &&& names_distinct(missing_syms@)
                    &&& name_set(missing_syms@) == missing_names(old(self).objs@, old(self).shared_objs@)
                },
                Err(_) => false,
            },
    {
        let ghost objs = self.objs@;
        let ghost shared = self.shared_objs@;
        let n = self.objs.len();
        let mut resolved: Vec<Vec<Option<ResolvedSym>>> = Vec::new();
        let mut i: usize = 0;
        while i < n
            invariant
                n == objs.len(),
                objs == self.objs@,
                0 <= i <= n,
                resolved@.len() == i,
                forall|i2: int|
                    #![trigger resolved@[i2]]
                    0 <= i2 < i ==> resolved@[i2]@.len() == obj_syms(objs, i2).len() && forall|k: int|
                        0 <= k < resolved@[i2]@.len() ==> #[trigger] resolved@[i2]@[k] is None,
            decreases n - i,
        {
            let len = self.objs[i].symtab.syms.len();
            let mut row: Vec<Option<ResolvedSym>> = Vec::new();
            let mut k: usize = 0;
            while k < len
                invariant
                    0 <= k <= len,
                    row@.len() == k,
                    forall|k2: int| 0 <= k2 < k ==> #[trigger] row@[k2] is None,
                decreases len - k,
            {
                row.push(None);
                k = k + 1;
            }
            resolved.push(row);
            i = i + 1;
        }
        let mut dups: Vec<Vec<u8>> = Vec::new();
        let mut missing: Vec<Vec<u8>> = Vec::new();
        let mut dyn_syms: Vec<DynSymEntry> = Vec::new();
        proof {
            assert(name_set(dups@) =~= ref_names_before(objs, shared, true, 0, 1));
            assert(name_set(missing@) =~= ref_names_before(objs, shared, false, 0, 1));
            assert(resolution_state(objs, shared, resolved@, dups@, missing@, dyn_syms@, 0, 1));
        }
        let mut i: usize = 0;
        while i < n
            invariant
                n == objs.len(),
                objs == self.objs@,
                shared == self.shared_objs@,
                0 <= i <= n,
                resolution_state(objs, shared, resolved@, dups@, missing@, dyn_syms@, i as int, 1),
            decreases n - i,
        {
            let len = self.objs[i].symtab.syms.len();
            let mut k: usize = 1;
            proof {
                if len == 0 {
                    lemma_state_equiv(objs, shared, resolved@, dups@, missing@, dyn_syms@, i as int, 1, i as int, 0);
                }
            }
            while k < len
                invariant
                    n == objs.len(),
                    objs == self.objs@,
                    shared == self.shared_objs@,
                    0 <= i < n,
                    len == obj_syms(objs, i as int).len(),
                    1 <= k <= len || len == 0,
                    resolution_state(objs, shared, resolved@, dups@, missing@, dyn_syms@, i as int, k as int),
                decreases len - k,
            {
                self.resolve_ref(i, k, &mut resolved, &mut dups, &mut missing, &mut dyn_syms);
                k = k + 1;
            }
            proof {
                lemma_state_equiv(
                    objs,
                    shared,
                    resolved@,
                    dups@,
                    missing@,
                    dyn_syms@,
                    i as int,
                    k as int,
                    i + 1,
                    1,
                );
            }
            i = i + 1;
        }
        proof {
            lemma_final_names(objs, shared);
            lemma_name_set_empty(dups@);
            lemma_name_set_empty(missing@);
            lemma_state_equiv(objs, shared, resolved@, dups@, missing@, dyn_syms@, n as int, 1, n as int, 0);
        }
        if dups.len() != 0 || missing.len() != 0 {
            return Err(LinkerError::SymbolResolveFailed { duplicated_syms: dups, missing_syms: missing });
        }
        let ghost shared_v = self.shared_objs;
        let ghost dl = self.dyn_linker;
        let mut i: usize = 0;
        while i < n
            invariant
                n == objs.len(),
                shared == self.shared_objs@,
                self.shared_objs == shared_v,
                self.dyn_linker == dl,
                0 <= i <= n,
                all_unresolved(objs),
                resolves(objs, shared),
                resolution_state(objs, shared, resolved@, dups@, missing@, dyn_syms@, n as int, 0),
                same_but_resolutions(objs, self.objs@),
                forall|i2: int, k: int|
                    0 <= i2 < n && 0 <= k < obj_syms(objs, i2).len() ==> (#[trigger] obj_syms(
                        self.objs@,
                        i2,
                    )[k]).resolved_sym == if k == 0 || i2 >= i {
                        obj_syms(objs, i2)[k].resolved_sym
                    } else {
                        final_resolution(objs, shared, i2, k)
                    },
            decreases n - i,
        {
            let len = self.objs[i].symtab.syms.len();
            let mut k: usize = 1;
            while k < len
                invariant
                    n == objs.len(),
                    0 <= i < n,
                    shared == self.shared_objs@,
                    self.shared_objs == shared_v,
                    self.dyn_linker == dl,
                    len == obj_syms(objs, i as int).len(),
                    1 <= k <= len || len == 0,
                    all_unresolved(objs),
                    resolves(objs, shared),
                    resolution_state(objs, shared, resolved@, dups@, missing@, dyn_syms@, n as int, 0),
                    same_but_resolutions(objs, self.objs@),
                    forall|i2: int, k2: int|
                        0 <= i2 < n && 0 <= k2 < obj_syms(objs, i2).len() ==> (#[trigger] obj_syms(
                            self.objs@,
                            i2,
                        )[k2]).resolved_sym == if k2 == 0 || i2 > i || (i2 == i && k2 >= k) {
                            obj_syms(objs, i2)[k2].resolved_sym
                        } else {
                            final_resolution(objs, shared, i2, k2)
                        },
                decreases len - k,
            {
                let value = if self.objs[i].symtab.syms[k].sym.st_shndx == SHN_UNDEF {
                    proof {
                        assert(is_undefined_ref(objs, i as int, k as int));
                        assert(resolved@[i as int]@[k as int] == expected_resolution(objs, shared, i as int, k as int));
                    }
                    resolved[i][k]
                } else {
                    Some(ResolvedSym { obj_index: ResolvedObjIndexKind::Obj(i), sym_index: k })
                };
                let ghost before = self.objs@;
                self.objs[i].symtab.syms[k].resolved_sym = value;
                proof {
                    assert forall|o: int| 0 <= o < objs.len() && o != i implies #[trigger] self.objs@[o] == before[o] by {}
                    assert(obj_syms(self.objs@, i as int).len() == obj_syms(before, i as int).len());
                    assert forall|k2: int| 0 <= k2 < obj_syms(objs, i as int).len() && k2 != k implies #[trigger] obj_syms(self.objs@, i as int)[k2] == obj_syms(before, i as int)[k2] by {}
                }
                k = k + 1;
            }
            i = i + 1;
        }
        proof {
            assert forall|i: int, k: int|
                0 <= i < n && 0 <= k < obj_syms(self.objs@, i).len() && (#[trigger] obj_syms(
                    self.objs@,
                    i,
                )[k]).resolved_sym is Some implies resolution_valid(
                self.objs@,
                shared,
                obj_syms(self.objs@, i)[k].resolved_sym->Some_0,
            ) by {
                let r = obj_syms(self.objs@, i)[k].resolved_sym->Some_0;
                assert(self.objs@[i] == self.objs@[i]);
                if k > 0 && obj_syms(objs, i)[k].sym.st_shndx == SHN_UNDEF {
                    assert(is_undefined_ref(objs, i, k));
                    assert(resolved@[i]@[k] == expected_resolution(objs, shared, i, k));
                    assert(resolution_valid(objs, shared, r));
                }
                match r.obj_index {
                    ResolvedObjIndexKind::Obj(o) => {
                        assert(self.objs@[o as int] == self.objs@[o as int]);
                    },
                    _ => {},
                }
            }
        }
        self.resolved_syms = resolved;
        Ok(dyn_syms)
    }
}

/// A name defined somewhere in the tables has a first definition.
proof fn lemma_first_def_exists(tabs: Seq<Seq<ElfSym>>, skip: int, name: Seq<u8>, o: int, s: int)
    requires
        defines(tabs, skip, name, o, s),
    ensures
        exists|o2: int, s2: int| is_first_def(tabs, skip, name, o2, s2),
    decreases o, s,
{
    if exists|o2: int, s2: int| lex_lt(o2, s2, o, s) && #[trigger] defines(tabs, skip, name, o2, s2) {
        let (o2, s2) = choose|o2: int, s2: int| lex_lt(o2, s2, o, s) && #[trigger] defines(tabs, skip, name, o2, s2);
        lemma_first_def_exists(tabs, skip, name, o2, s2);
    } else {
        assert(is_first_def(tabs, skip, name, o, s));
    }
}

/// An undefined symbol resolves to a global definition of its own name: in
/// another object when one defines it, else in a shared object (whose index
/// is counted from the symbol after the null one); it resolves to nothing
/// only when no object and no shared object defines it.
pub proof fn lemma_resolution_defines_name(objs: Seq<ElfObject>, shared: Seq<ElfSharedObject>, i: int, k: int)
    requires
        is_undefined_ref(objs, i, k),
        objs.len() <= usize::MAX,
        shared.len() <= usize::MAX,
        forall|o: int| 0 <= o < objs.len() ==> (#[trigger] obj_syms(objs, o)).len() <= usize::MAX,
        forall|o: int| 0 <= o < shared.len() ==> (#[trigger] shared_syms(shared, o)).len() <= usize::MAX,
    ensures
        match expected_resolution(objs, shared, i, k) {
            Some(r) => match r.obj_index {
                ResolvedObjIndexKind::Obj(o) => {
                    &&& o != i
                    &&& tab_defines(obj_syms(objs, o as int), ref_name(objs, i, k), r.sym_index as int)
                },
                ResolvedObjIndexKind::Shared(o) => {
                    &&& !has_def(obj_tabs(objs), i, ref_name(objs, i, k))
                    &&& o < shared.len()
                    &&& tab_defines(shared_syms(shared, o as int), ref_name(objs, i, k), r.sym_index + 1)
                },
            },
            None => is_missing(objs, shared, i, k),
        },
{
    let n = ref_name(objs, i, k);
    if has_def(obj_tabs(objs), i, n) {
        let (o0, s0) = choose|o: int, s: int| #[trigger] defines(obj_tabs(objs), i, n, o, s);
        lemma_first_def_exists(obj_tabs(objs), i, n, o0, s0);
        let (o, s) = first_def(obj_tabs(objs), i, n);
        assert(defines(obj_tabs(objs), i, n, o, s));
        assert(obj_tabs(objs)[o] == obj_syms(objs, o));
        assert(obj_syms(objs, o).len() <= usize::MAX);
    } else if has_def(shared_tabs(shared), -1, n) {
        let (o0, s0) = choose|o: int, s: int| #[trigger] defines(shared_tabs(shared), -1, n, o, s);
        lemma_first_def_exists(shared_tabs(shared), -1, n, o0, s0);
        let (o, s) = first_def(shared_tabs(shared), -1, n);
        assert(defines(shared_tabs(shared), -1, n, o, s));
        assert(shared_tabs(shared)[o] == shared_syms(shared, o));
        assert(shared_syms(shared, o).len() <= usize::MAX);
    }
}

} // verus!
