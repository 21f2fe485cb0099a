//! The names of the sections and symbols that the linker looks for or writes,
//! as the bytes that a string table holds.
use vstd::prelude::*;

verus! {

/// `.text`
pub open spec fn spec_text_name() -> Seq<u8> {
    seq![0x2e, 0x74, 0x65, 0x78, 0x74]
}

/// The bytes of `.text`.
pub fn text_name() -> (r: Vec<u8>)
    ensures
        r@ == spec_text_name(),
{
    let r: Vec<u8> = vec![0x2e, 0x74, 0x65, 0x78, 0x74];
    assert(r@ =~= spec_text_name());
    r
}

/// `.data`
pub open spec fn spec_data_name() -> Seq<u8> {
    seq![0x2e, 0x64, 0x61, 0x74, 0x61]
}

/// The bytes of `.data`.
pub fn data_name() -> (r: Vec<u8>)
    ensures
        r@ == spec_data_name(),
{
    let r: Vec<u8> = vec![0x2e, 0x64, 0x61, 0x74, 0x61];
    assert(r@ =~= spec_data_name());
    r
}

/// `.rodata`
pub open spec fn spec_rodata_name() -> Seq<u8> {
    seq![0x2e, 0x72, 0x6f, 0x64, 0x61, 0x74, 0x61]
}

/// The bytes of `.rodata`.
pub fn rodata_name() -> (r: Vec<u8>)
    ensures
        r@ == spec_rodata_name(),
{
    let r: Vec<u8> = vec![0x2e, 0x72, 0x6f, 0x64, 0x61, 0x74, 0x61];
    assert(r@ =~= spec_rodata_name());
    r
}

/// `.bss`
pub open spec fn spec_bss_name() -> Seq<u8> {
    seq![0x2e, 0x62, 0x73, 0x73]
}

/// The bytes of `.bss`.
pub fn bss_name() -> (r: Vec<u8>)
    ensures
        r@ == spec_bss_name(),
{
    let r: Vec<u8> = vec![0x2e, 0x62, 0x73, 0x73];
    assert(r@ =~= spec_bss_name());
    r
}

/// `.strtab`
pub open spec fn spec_strtab_name() -> Seq<u8> {
    seq![0x2e, 0x73, 0x74, 0x72, 0x74, 0x61, 0x62]
}

/// The bytes of `.strtab`.
pub fn strtab_name() -> (r: Vec<u8>)
    ensures
        r@ == spec_strtab_name(),
{
    let r: Vec<u8> = vec![0x2e, 0x73, 0x74, 0x72, 0x74, 0x61, 0x62];
    assert(r@ =~= spec_strtab_name());
    r
}

/// `.symtab`
pub open spec fn spec_symtab_name() -> Seq<u8> {
    seq![0x2e, 0x73, 0x79, 0x6d, 0x74, 0x61, 0x62]
}

/// The bytes of `.symtab`.
pub fn symtab_name() -> (r: Vec<u8>)
    ensures
        r@ == spec_symtab_name(),
{
    let r: Vec<u8> = vec![0x2e, 0x73, 0x79, 0x6d, 0x74, 0x61, 0x62];
    assert(r@ =~= spec_symtab_name());
    r
}

/// `.rela.text`
pub open spec fn spec_rela_text_name() -> Seq<u8> {
    seq![0x2e, 0x72, 0x65, 0x6c, 0x61, 0x2e, 0x74, 0x65, 0x78, 0x74]
}

/// The bytes of `.rela.text`.
pub fn rela_text_name() -> (r: Vec<u8>)
    ensures
        r@ == spec_rela_text_name(),
{
    let r: Vec<u8> = vec![0x2e, 0x72, 0x65, 0x6c, 0x61, 0x2e, 0x74, 0x65, 0x78, 0x74];
    assert(r@ =~= spec_rela_text_name());
    r
}

/// `.dynamic`
pub open spec fn spec_dynamic_name() -> Seq<u8> {
    seq![0x2e, 0x64, 0x79, 0x6e, 0x61, 0x6d, 0x69, 0x63]
}

/// The bytes of `.dynamic`.
pub fn dynamic_name() -> (r: Vec<u8>)
    ensures
        r@ == spec_dynamic_name(),
{
    let r: Vec<u8> = vec![0x2e, 0x64, 0x79, 0x6e, 0x61, 0x6d, 0x69, 0x63];
    assert(r@ =~= spec_dynamic_name());
    r
}

/// `.plt`
pub open spec fn spec_plt_name() -> Seq<u8> {
    seq![0x2e, 0x70, 0x6c, 0x74]
}

/// The bytes of `.plt`.
pub fn plt_name() -> (r: Vec<u8>)
    ensures
        r@ == spec_plt_name(),
{
    let r: Vec<u8> = vec![0x2e, 0x70, 0x6c, 0x74];
    assert(r@ =~= spec_plt_name());
    r
}

/// `.interp`
pub open spec fn spec_interp_name() -> Seq<u8> {
    seq![0x2e, 0x69, 0x6e, 0x74, 0x65, 0x72, 0x70]
}

/// The bytes of `.interp`.
pub fn interp_name() -> (r: Vec<u8>)
    ensures
        r@ == spec_interp_name(),
{
    let r: Vec<u8> = vec![0x2e, 0x69, 0x6e, 0x74, 0x65, 0x72, 0x70];
    assert(r@ =~= spec_interp_name());
    r
}

/// `.dynsym`
pub open spec fn spec_dynsym_name() -> Seq<u8> {
    seq![0x2e, 0x64, 0x79, 0x6e, 0x73, 0x79, 0x6d]
}

/// The bytes of `.dynsym`.
pub fn dynsym_name() -> (r: Vec<u8>)
    ensures
        r@ == spec_dynsym_name(),
{
    let r: Vec<u8> = vec![0x2e, 0x64, 0x79, 0x6e, 0x73, 0x79, 0x6d];
    assert(r@ =~= spec_dynsym_name());
    r
}

/// `.dynstr`
pub open spec fn spec_dynstr_name() -> Seq<u8> {
    seq![0x2e, 0x64, 0x79, 0x6e, 0x73, 0x74, 0x72]
}

/// The bytes of `.dynstr`.
pub fn dynstr_name() -> (r: Vec<u8>)
    ensures
        r@ == spec_dynstr_name(),
{
    let r: Vec<u8> = vec![0x2e, 0x64, 0x79, 0x6e, 0x73, 0x74, 0x72];
    assert(r@ =~= spec_dynstr_name());
    r
}

/// `.hash`
pub open spec fn spec_hash_name() -> Seq<u8> {
    seq![0x2e, 0x68, 0x61, 0x73, 0x68]
}

/// The bytes of `.hash`.
pub fn hash_name() -> (r: Vec<u8>)
    ensures
        r@ == spec_hash_name(),
{
    let r: Vec<u8> = vec![0x2e, 0x68, 0x61, 0x73, 0x68];
    assert(r@ =~= spec_hash_name());
    r
}

/// `.rela.plt`
pub open spec fn spec_rela_plt_name() -> Seq<u8> {
    seq![0x2e, 0x72, 0x65, 0x6c, 0x61, 0x2e, 0x70, 0x6c, 0x74]
}

/// The bytes of `.rela.plt`.
pub fn rela_plt_name() -> (r: Vec<u8>)
    ensures
        r@ == spec_rela_plt_name(),
{
    let r: Vec<u8> = vec![0x2e, 0x72, 0x65, 0x6c, 0x61, 0x2e, 0x70, 0x6c, 0x74];
    assert(r@ =~= spec_rela_plt_name());
    r
}

/// `.got`
pub open spec fn spec_got_name() -> Seq<u8> {
    seq![0x2e, 0x67, 0x6f, 0x74]
}

/// The bytes of `.got`.
pub fn got_name() -> (r: Vec<u8>)
    ensures
        r@ == spec_got_name(),
{
    let r: Vec<u8> = vec![0x2e, 0x67, 0x6f, 0x74];
    assert(r@ =~= spec_got_name());
    r
}

/// `.shstrtab`
pub open spec fn spec_shstrtab_name() -> Seq<u8> {
    seq![0x2e, 0x73, 0x68, 0x73, 0x74, 0x72, 0x74, 0x61, 0x62]
}

/// The bytes of `.shstrtab`.
pub fn shstrtab_name() -> (r: Vec<u8>)
    ensures
        r@ == spec_shstrtab_name(),
{
    let r: Vec<u8> = vec![0x2e, 0x73, 0x68, 0x73, 0x74, 0x72, 0x74, 0x61, 0x62];
    assert(r@ =~= spec_shstrtab_name());
    r
}

/// `_start`
pub open spec fn spec_start_name() -> Seq<u8> {
    seq![0x5f, 0x73, 0x74, 0x61, 0x72, 0x74]
}

/// The bytes of `_start`.
pub fn start_name() -> (r: Vec<u8>)
    ensures
        r@ == spec_start_name(),
{
    let r: Vec<u8> = vec![0x5f, 0x73, 0x74, 0x61, 0x72, 0x74];
    assert(r@ =~= spec_start_name());
    r
}

} // verus!
