//! The fixed-width records of the container format.
//!
//! Each record is decoded by consuming exactly its fixed byte width from the
//! current position; field order is fixed by the format and the first failing
//! field read aborts the record (no partial record is returned).

use vstd::prelude::*;

use crate::endian::{be16, be16_bytes, be32, be32_bytes};
use crate::error::EcoffError;
use crate::reader::Reader;

verus! {

/// Byte width of the file header.
pub const FILE_HEADER_LEN: usize = 20;

/// Byte width of the optional header.
pub const OPTIONAL_HEADER_LEN: usize = 56;

/// Byte width of one section header.
pub const SECTION_HEADER_LEN: usize = 40;

/// Byte width of the symbolic (debug) header.
pub const SYMBOLIC_HEADER_LEN: usize = 96;

/// The truncation failure for a field of width `requested` with only
/// `available` bytes left in front of it.
pub open spec fn truncated(requested: int, available: int) -> EcoffError {
    EcoffError::TruncatedInput { requested: requested as usize, available: available as usize }
}

// ---------------------------------------------------------------------------
// File header
// ---------------------------------------------------------------------------

/// The first record of an object file, at offset 0. Its `f_opthdr` field
/// gates the optional header, `f_nscns` the section table, and `f_symptr`
/// locates the symbolic header.
#[derive(Clone, Copy, Debug, PartialEq, Eq, Structural)]
pub struct FileHeader {
    pub f_magic: u16,
    pub f_nscns: u16,
    pub f_timdat: u32,
    pub f_symptr: u32,
    pub f_nsyms: u32,
    pub f_opthdr: u16,
    pub f_flags: u16,
}

/// The file header laid out at position `pos` of `b`.
pub open spec fn spec_file_header_at(b: Seq<u8>, pos: int) -> FileHeader
    recommends
        0 <= pos && pos + FILE_HEADER_LEN <= b.len(),
{
    FileHeader {
        f_magic: be16(b.subrange(pos, pos + 2)) as u16,
        f_nscns: be16(b.subrange(pos + 2, pos + 4)) as u16,
        f_timdat: be32(b.subrange(pos + 4, pos + 8)) as u32,
        f_symptr: be32(b.subrange(pos + 8, pos + 12)) as u32,
        f_nsyms: be32(b.subrange(pos + 12, pos + 16)) as u32,
        f_opthdr: be16(b.subrange(pos + 16, pos + 18)) as u16,
        f_flags: be16(b.subrange(pos + 18, pos + 20)) as u16,
    }
}

/// The exact truncation failure of a file-header decode that starts with
/// `avail` bytes in front of it, `avail` short of the record width.
pub open spec fn file_header_truncation(avail: int) -> EcoffError
    recommends
        0 <= avail < FILE_HEADER_LEN,
{
    if avail < 2 {
        truncated(2, avail)
    } else if avail < 4 {
        truncated(2, avail - 2)
    } else if avail < 8 {
        truncated(4, avail - 4)
    } else if avail < 12 {
        truncated(4, avail - 8)
    } else if avail < 16 {
        truncated(4, avail - 12)
    } else if avail < 18 {
        truncated(2, avail - 16)
    } else {
        truncated(2, avail - 18)
    }
}

/// Decode a file header at the current position, consuming exactly its width,
/// or fail with the truncation error of the first field that cannot be read.
pub fn read_file_header(r: &mut Reader) -> (res: Result<FileHeader, EcoffError>)
    ensures
        final(r).data@ == old(r).data@,
        old(r).pos + FILE_HEADER_LEN <= old(r).data@.len() ==> (res matches Ok(h)
            && h == spec_file_header_at(old(r).data@, old(r).pos as int)
            && final(r).pos == old(r).pos + FILE_HEADER_LEN),
        old(r).pos + FILE_HEADER_LEN > old(r).data@.len() ==> (res matches Err(e)
            && e == file_header_truncation(old(r).avail())),
{
    let f_magic = match r.read_u16() {
        Ok(v) => v,
        Err(e) => { return Err(e); },
    };
    let f_nscns = match r.read_u16() {
        Ok(v) => v,
        Err(e) => { return Err(e); },
    };
    let f_timdat = match r.read_u32() {
        Ok(v) => v,
        Err(e) => { return Err(e); },
    };
    let f_symptr = match r.read_u32() {
        Ok(v) => v,
        Err(e) => { return Err(e); },
    };
    let f_nsyms = match r.read_u32() {
        Ok(v) => v,
        Err(e) => { return Err(e); },
    };
    let f_opthdr = match r.read_u16() {
        Ok(v) => v,
        Err(e) => { return Err(e); },
    };
    let f_flags = match r.read_u16() {
        Ok(v) => v,
        Err(e) => { return Err(e); },
    };
    Ok(FileHeader { f_magic, f_nscns, f_timdat, f_symptr, f_nsyms, f_opthdr, f_flags })
}

/// The wire bytes of a file header.
pub open spec fn encode_file_header(h: FileHeader) -> Seq<u8> {
    be16_bytes(h.f_magic as int) + be16_bytes(h.f_nscns as int) + be32_bytes(h.f_timdat as int)
        + be32_bytes(h.f_symptr as int) + be32_bytes(h.f_nsyms as int)
        + be16_bytes(h.f_opthdr as int) + be16_bytes(h.f_flags as int)
}

/// Layout fidelity: encoding a file header and decoding the bytes yields the
/// original record.
pub proof fn lemma_file_header_round_trip(h: FileHeader)
    ensures
        encode_file_header(h).len() == FILE_HEADER_LEN,
        spec_file_header_at(encode_file_header(h), 0) == h,
{
    let b = encode_file_header(h);
    crate::endian::lemma_be16_round_trip(h.f_magic);
    crate::endian::lemma_be16_round_trip(h.f_nscns);
    crate::endian::lemma_be32_round_trip(h.f_timdat);
    crate::endian::lemma_be32_round_trip(h.f_symptr);
    crate::endian::lemma_be32_round_trip(h.f_nsyms);
    crate::endian::lemma_be16_round_trip(h.f_opthdr);
    crate::endian::lemma_be16_round_trip(h.f_flags);
    assert(b.subrange(0, 2) =~= be16_bytes(h.f_magic as int));
    assert(b.subrange(2, 4) =~= be16_bytes(h.f_nscns as int));
    assert(b.subrange(4, 8) =~= be32_bytes(h.f_timdat as int));
    assert(b.subrange(8, 12) =~= be32_bytes(h.f_symptr as int));
    assert(b.subrange(12, 16) =~= be32_bytes(h.f_nsyms as int));
    assert(b.subrange(16, 18) =~= be16_bytes(h.f_opthdr as int));
    assert(b.subrange(18, 20) =~= be16_bytes(h.f_flags as int));
}

// ---------------------------------------------------------------------------
// Optional header
// ---------------------------------------------------------------------------

/// The optional header. Present if and only if the file header declares a
/// positive `f_opthdr`; a positive size other than [`OPTIONAL_HEADER_LEN`]
/// is a structural error.
#[derive(Clone, Copy, Debug, PartialEq, Eq, Structural)]
pub struct OptionalHeader {
    pub magic: u16,
    pub vstamp: u16,
    pub tsize: u32,
    pub dsize: u32,
    pub bsize: u32,
    pub entry: u32,
    pub text_start: u32,
    pub data_start: u32,
    pub bss_start: u32,
    pub gprmask: u32,
    pub cprmask0: u32,
    pub cprmask1: u32,
    pub cprmask2: u32,
    pub cprmask3: u32,
    pub gp_value: u32,
}

/// The optional header laid out at position `pos` of `b`.
pub open spec fn spec_optional_header_at(b: Seq<u8>, pos: int) -> OptionalHeader
    recommends
        0 <= pos && pos + OPTIONAL_HEADER_LEN <= b.len(),
{
    OptionalHeader {
        magic: be16(b.subrange(pos, pos + 2)) as u16,
        vstamp: be16(b.subrange(pos + 2, pos + 4)) as u16,
        tsize: be32(b.subrange(pos + 4, pos + 8)) as u32,
        dsize: be32(b.subrange(pos + 8, pos + 12)) as u32,
        bsize: be32(b.subrange(pos + 12, pos + 16)) as u32,
        entry: be32(b.subrange(pos + 16, pos + 20)) as u32,
        text_start: be32(b.subrange(pos + 20, pos + 24)) as u32,
        data_start: be32(b.subrange(pos + 24, pos + 28)) as u32,
        bss_start: be32(b.subrange(pos + 28, pos + 32)) as u32,
        gprmask: be32(b.subrange(pos + 32, pos + 36)) as u32,
        cprmask0: be32(b.subrange(pos + 36, pos + 40)) as u32,
        cprmask1: be32(b.subrange(pos + 40, pos + 44)) as u32,
        cprmask2: be32(b.subrange(pos + 44, pos + 48)) as u32,
        cprmask3: be32(b.subrange(pos + 48, pos + 52)) as u32,
        gp_value: be32(b.subrange(pos + 52, pos + 56)) as u32,
    }
}

/// The exact truncation failure of an optional-header decode with `avail`
/// bytes in front of it, `avail` short of the record width.
pub open spec fn optional_header_truncation(avail: int) -> EcoffError
    recommends
        0 <= avail < OPTIONAL_HEADER_LEN,
{
    if avail < 2 {
        truncated(2, avail)
    } else if avail < 4 {
        truncated(2, avail - 2)
    } else {
        truncated(4, (avail - 4) % 4)
    }
}

/// Decode an optional header at the current position, consuming exactly its
/// width, or fail with the truncation error of the first unreadable field.
pub fn read_optional_header(r: &mut Reader) -> (res: Result<OptionalHeader, EcoffError>)
    ensures
        final(r).data@ == old(r).data@,
        old(r).pos + OPTIONAL_HEADER_LEN <= old(r).data@.len() ==> (res matches Ok(h)
            && h == spec_optional_header_at(old(r).data@, old(r).pos as int)
            && final(r).pos == old(r).pos + OPTIONAL_HEADER_LEN),
        old(r).pos + OPTIONAL_HEADER_LEN > old(r).data@.len() ==> (res matches Err(e)
            && e == optional_header_truncation(old(r).avail())),
{
    let magic = match r.read_u16() {
        Ok(v) => v,
        Err(e) => { return Err(e); },
    };
    let vstamp = match r.read_u16() {
        Ok(v) => v,
        Err(e) => { return Err(e); },
    };
    let tsize = match r.read_u32() {
        Ok(v) => v,
        Err(e) => { return Err(e); },
    };
    let dsize = match r.read_u32() {
        Ok(v) => v,
        Err(e) => { return Err(e); },
    };
    let bsize = match r.read_u32() {
        Ok(v) => v,
        Err(e) => { return Err(e); },
    };
    let entry = match r.read_u32() {
        Ok(v) => v,
        Err(e) => { return Err(e); },
    };
    let text_start = match r.read_u32() {
        Ok(v) => v,
        Err(e) => { return Err(e); },
    };
    let data_start = match r.read_u32() {
        Ok(v) => v,
        Err(e) => { return Err(e); },
    };
    let bss_start = match r.read_u32() {
        Ok(v) => v,
        Err(e) => { return Err(e); },
    };
    let gprmask = match r.read_u32() {
        Ok(v) => v,
        Err(e) => { return Err(e); },
    };
    let cprmask0 = match r.read_u32() {
        Ok(v) => v,
        Err(e) => { return Err(e); },
    };
    let cprmask1 = match r.read_u32() {
        Ok(v) => v,
        Err(e) => { return Err(e); },
    };
    let cprmask2 = match r.read_u32() {
        Ok(v) => v,
        Err(e) => { return Err(e); },
    };
    let cprmask3 = match r.read_u32() {
        Ok(v) => v,
        Err(e) => { return Err(e); },
    };
    let gp_value = match r.read_u32() {
        Ok(v) => v,
        Err(e) => { return Err(e); },
    };
    Ok(OptionalHeader {
        magic,
        vstamp,
        tsize,
        dsize,
        bsize,
        entry,
        text_start,
        data_start,
        bss_start,
        gprmask,
        cprmask0,
        cprmask1,
        cprmask2,
        cprmask3,
        gp_value,
    })
}

/// The wire bytes of an optional header.
pub open spec fn encode_optional_header(h: OptionalHeader) -> Seq<u8> {
    be16_bytes(h.magic as int) + be16_bytes(h.vstamp as int) + be32_bytes(h.tsize as int)
        + be32_bytes(h.dsize as int) + be32_bytes(h.bsize as int) + be32_bytes(h.entry as int)
        + be32_bytes(h.text_start as int) + be32_bytes(h.data_start as int)
        + be32_bytes(h.bss_start as int) + be32_bytes(h.gprmask as int)
        + be32_bytes(h.cprmask0 as int) + be32_bytes(h.cprmask1 as int)
        + be32_bytes(h.cprmask2 as int) + be32_bytes(h.cprmask3 as int)
        + be32_bytes(h.gp_value as int)
}

/// Layout fidelity: encoding an optional header and decoding the bytes
/// yields the original record.
#[verifier::rlimit(100)]
pub proof fn lemma_optional_header_round_trip(h: OptionalHeader)
    ensures
        encode_optional_header(h).len() == OPTIONAL_HEADER_LEN,
        spec_optional_header_at(encode_optional_header(h), 0) == h,
{
    let b = encode_optional_header(h);
    crate::endian::lemma_be16_round_trip(h.magic);
    crate::endian::lemma_be16_round_trip(h.vstamp);
    crate::endian::lemma_be32_round_trip(h.tsize);
    crate::endian::lemma_be32_round_trip(h.dsize);
    crate::endian::lemma_be32_round_trip(h.bsize);
    crate::endian::lemma_be32_round_trip(h.entry);
    crate::endian::lemma_be32_round_trip(h.text_start);
    crate::endian::lemma_be32_round_trip(h.data_start);
    crate::endian::lemma_be32_round_trip(h.bss_start);
    crate::endian::lemma_be32_round_trip(h.gprmask);
    crate::endian::lemma_be32_round_trip(h.cprmask0);
    crate::endian::lemma_be32_round_trip(h.cprmask1);
    crate::endian::lemma_be32_round_trip(h.cprmask2);
    crate::endian::lemma_be32_round_trip(h.cprmask3);
    crate::endian::lemma_be32_round_trip(h.gp_value);
    assert(b.subrange(0, 2) =~= be16_bytes(h.magic as int));
    assert(b.subrange(2, 4) =~= be16_bytes(h.vstamp as int));
    assert(b.subrange(4, 8) =~= be32_bytes(h.tsize as int));
    assert(b.subrange(8, 12) =~= be32_bytes(h.dsize as int));
    assert(b.subrange(12, 16) =~= be32_bytes(h.bsize as int));
    assert(b.subrange(16, 20) =~= be32_bytes(h.entry as int));
    assert(b.subrange(20, 24) =~= be32_bytes(h.text_start as int));
    assert(b.subrange(24, 28) =~= be32_bytes(h.data_start as int));
    assert(b.subrange(28, 32) =~= be32_bytes(h.bss_start as int));
    assert(b.subrange(32, 36) =~= be32_bytes(h.gprmask as int));
    assert(b.subrange(36, 40) =~= be32_bytes(h.cprmask0 as int));
    assert(b.subrange(40, 44) =~= be32_bytes(h.cprmask1 as int));
    assert(b.subrange(44, 48) =~= be32_bytes(h.cprmask2 as int));
    assert(b.subrange(48, 52) =~= be32_bytes(h.cprmask3 as int));
    assert(b.subrange(52, 56) =~= be32_bytes(h.gp_value as int));
}

// ---------------------------------------------------------------------------
// Section header
// ---------------------------------------------------------------------------

/// One section-table entry. The name is an opaque 8-byte array, not a
/// string: it may fill all 8 bytes without a terminator and need not be
/// valid UTF-8.
#[derive(Clone, Debug, PartialEq, Eq)]
pub struct SectionHeader {
    pub s_name: Vec<u8>,
    pub s_paddr: u32,
    pub s_vaddr: u32,
    pub s_size: u32,
    pub s_scnptr: u32,
    pub s_relptr: u32,
    pub s_lnnoptr: u32,
    pub s_nreloc: u16,
    pub s_nlnno: u16,
    pub s_flags: u32,
}

/// The mathematical value of a section header.
pub ghost struct SectionHeaderV {
    pub s_name: Seq<u8>,
    pub s_paddr: u32,
    pub s_vaddr: u32,
    pub s_size: u32,
    pub s_scnptr: u32,
    pub s_relptr: u32,
    pub s_lnnoptr: u32,
    pub s_nreloc: u16,
    pub s_nlnno: u16,
    pub s_flags: u32,
}

impl View for SectionHeader {
    type V = SectionHeaderV;

    open spec fn view(&self) -> SectionHeaderV {
        SectionHeaderV {
            s_name: self.s_name@,
            s_paddr: self.s_paddr,
            s_vaddr: self.s_vaddr,
            s_size: self.s_size,
            s_scnptr: self.s_scnptr,
            s_relptr: self.s_relptr,
            s_lnnoptr: self.s_lnnoptr,
            s_nreloc: self.s_nreloc,
            s_nlnno: self.s_nlnno,
            s_flags: self.s_flags,
        }
    }
}

/// The section header laid out at position `pos` of `b`.
pub open spec fn spec_section_header_at(b: Seq<u8>, pos: int) -> SectionHeaderV
    recommends
        0 <= pos && pos + SECTION_HEADER_LEN <= b.len(),
{
    SectionHeaderV {
        s_name: b.subrange(pos, pos + 8),
        s_paddr: be32(b.subrange(pos + 8, pos + 12)) as u32,
        s_vaddr: be32(b.subrange(pos + 12, pos + 16)) as u32,
        s_size: be32(b.subrange(pos + 16, pos + 20)) as u32,
        s_scnptr: be32(b.subrange(pos + 20, pos + 24)) as u32,
        s_relptr: be32(b.subrange(pos + 24, pos + 28)) as u32,
        s_lnnoptr: be32(b.subrange(pos + 28, pos + 32)) as u32,
        s_nreloc: be16(b.subrange(pos + 32, pos + 34)) as u16,
        s_nlnno: be16(b.subrange(pos + 34, pos + 36)) as u16,
        s_flags: be32(b.subrange(pos + 36, pos + 40)) as u32,
    }
}

/// The exact truncation failure of a section-header decode with `avail`
/// bytes in front of it, `avail` short of the record width.
pub open spec fn section_header_truncation(avail: int) -> EcoffError
    recommends
        0 <= avail < SECTION_HEADER_LEN,
{
    if avail < 8 {
        truncated(8, avail)
    } else if avail < 32 {
        truncated(4, (avail - 8) % 4)
    } else if avail < 34 {
        truncated(2, avail - 32)
    } else if avail < 36 {
        truncated(2, avail - 34)
    } else {
        truncated(4, avail - 36)
    }
}

/// Decode a section header at the current position, consuming exactly its
/// width, or fail with the truncation error of the first unreadable field.
pub fn read_section_header(r: &mut Reader) -> (res: Result<SectionHeader, EcoffError>)
    ensures
        final(r).data@ == old(r).data@,
        old(r).pos + SECTION_HEADER_LEN <= old(r).data@.len() ==> (res matches Ok(h)
            && h@ == spec_section_header_at(old(r).data@, old(r).pos as int)
            && final(r).pos == old(r).pos + SECTION_HEADER_LEN),
        old(r).pos + SECTION_HEADER_LEN > old(r).data@.len() ==> (res matches Err(e)
            && e == section_header_truncation(old(r).avail())),
{
    let s_name = match r.read_exact(8) {
        Ok(v) => v,
        Err(e) => { return Err(e); },
    };
    let s_paddr = match r.read_u32() {
        Ok(v) => v,
        Err(e) => { return Err(e); },
    };
    let s_vaddr = match r.read_u32() {
        Ok(v) => v,
        Err(e) => { return Err(e); },
    };
    let s_size = match r.read_u32() {
        Ok(v) => v,
        Err(e) => { return Err(e); },
    };
    let s_scnptr = match r.read_u32() {
        Ok(v) => v,
        Err(e) => { return Err(e); },
    };
    let s_relptr = match r.read_u32() {
        Ok(v) => v,
        Err(e) => { return Err(e); },
    };
    let s_lnnoptr = match r.read_u32() {
        Ok(v) => v,
        Err(e) => { return Err(e); },
    };
    let s_nreloc = match r.read_u16() {
        Ok(v) => v,
        Err(e) => { return Err(e); },
    };
    let s_nlnno = match r.read_u16() {
        Ok(v) => v,
        Err(e) => { return Err(e); },
    };
    let s_flags = match r.read_u32() {
        Ok(v) => v,
        Err(e) => { return Err(e); },
    };
    Ok(SectionHeader {
        s_name,
        s_paddr,
        s_vaddr,
        s_size,
        s_scnptr,
        s_relptr,
        s_lnnoptr,
        s_nreloc,
        s_nlnno,
        s_flags,
    })
}

/// The wire bytes of a section header.
pub open spec fn encode_section_header(v: SectionHeaderV) -> Seq<u8>
    recommends
        v.s_name.len() == 8,
{
    v.s_name + be32_bytes(v.s_paddr as int) + be32_bytes(v.s_vaddr as int)
        + be32_bytes(v.s_size as int) + be32_bytes(v.s_scnptr as int)
        + be32_bytes(v.s_relptr as int) + be32_bytes(v.s_lnnoptr as int)
        + be16_bytes(v.s_nreloc as int) + be16_bytes(v.s_nlnno as int)
        + be32_bytes(v.s_flags as int)
}

/// Layout fidelity: encoding a section header with an 8-byte name and
/// decoding the bytes yields the original record.
#[verifier::rlimit(100)]
pub proof fn lemma_section_header_round_trip(v: SectionHeaderV)
    requires
        v.s_name.len() == 8,
    ensures
        encode_section_header(v).len() == SECTION_HEADER_LEN,
        spec_section_header_at(encode_section_header(v), 0) == v,
{
    let b = encode_section_header(v);
    crate::endian::lemma_be32_round_trip(v.s_paddr);
    crate::endian::lemma_be32_round_trip(v.s_vaddr);
    crate::endian::lemma_be32_round_trip(v.s_size);
    crate::endian::lemma_be32_round_trip(v.s_scnptr);
    crate::endian::lemma_be32_round_trip(v.s_relptr);
    crate::endian::lemma_be32_round_trip(v.s_lnnoptr);
    crate::endian::lemma_be16_round_trip(v.s_nreloc);
    crate::endian::lemma_be16_round_trip(v.s_nlnno);
    crate::endian::lemma_be32_round_trip(v.s_flags);
    assert(b.subrange(0, 8) =~= v.s_name);
    assert(b.subrange(8, 12) =~= be32_bytes(v.s_paddr as int));
    assert(b.subrange(12, 16) =~= be32_bytes(v.s_vaddr as int));
    assert(b.subrange(16, 20) =~= be32_bytes(v.s_size as int));
    assert(b.subrange(20, 24) =~= be32_bytes(v.s_scnptr as int));
    assert(b.subrange(24, 28) =~= be32_bytes(v.s_relptr as int));
    assert(b.subrange(28, 32) =~= be32_bytes(v.s_lnnoptr as int));
    assert(b.subrange(32, 34) =~= be16_bytes(v.s_nreloc as int));
    assert(b.subrange(34, 36) =~= be16_bytes(v.s_nlnno as int));
    assert(b.subrange(36, 40) =~= be32_bytes(v.s_flags as int));
}

// ---------------------------------------------------------------------------
// Symbolic (debug) header
// ---------------------------------------------------------------------------

/// The root descriptor of the symbolic debug information, located by
/// `FileHeader.f_symptr`. Only the local and external string-table pairs
/// are consumed further by this decoder; the rest are recorded but not
/// traversed.
#[derive(Clone, Copy, Debug, PartialEq, Eq, Structural)]
pub struct SymbolicHeader {
    pub magic: u16,
    pub vstamp: u16,
    pub iline_max: u32,
    pub cb_line: u32,
    pub cb_line_offset: u32,
    pub idn_max: u32,
    pub cb_dn_offset: u32,
    pub ipd_max: u32,
    pub cb_pd_offset: u32,
    pub isym_max: u32,
    pub cb_sym_offset: u32,
    pub iopt_max: u32,
    pub cb_opt_offset: u32,
    pub iaux_max: u32,
    pub cb_aux_offset: u32,
    pub iss_max: u32,
    pub cb_ss_offset: u32,
    pub iss_ext_max: u32,
    pub cb_ss_ext_offset: u32,
    pub ifd_max: u32,
    pub cb_fd_offset: u32,
    pub crfd: u32,
    pub cb_rfd_offset: u32,
    pub iext_max: u32,
    pub cb_ext_offset: u32,
}

/// The symbolic header laid out at position `pos` of `b`.
pub open spec fn spec_symbolic_header_at(b: Seq<u8>, pos: int) -> SymbolicHeader
    recommends
        0 <= pos && pos + SYMBOLIC_HEADER_LEN <= b.len(),
{
    SymbolicHeader {
        magic: be16(b.subrange(pos, pos + 2)) as u16,
        vstamp: be16(b.subrange(pos + 2, pos + 4)) as u16,
        iline_max: be32(b.subrange(pos + 4, pos + 8)) as u32,
        cb_line: be32(b.subrange(pos + 8, pos + 12)) as u32,
        cb_line_offset: be32(b.subrange(pos + 12, pos + 16)) as u32,
        idn_max: be32(b.subrange(pos + 16, pos + 20)) as u32,
        cb_dn_offset: be32(b.subrange(pos + 20, pos + 24)) as u32,
        ipd_max: be32(b.subrange(pos + 24, pos + 28)) as u32,
        cb_pd_offset: be32(b.subrange(pos + 28, pos + 32)) as u32,
        isym_max: be32(b.subrange(pos + 32, pos + 36)) as u32,
        cb_sym_offset: be32(b.subrange(pos + 36, pos + 40)) as u32,
        iopt_max: be32(b.subrange(pos + 40, pos + 44)) as u32,
        cb_opt_offset: be32(b.subrange(pos + 44, pos + 48)) as u32,
        iaux_max: be32(b.subrange(pos + 48, pos + 52)) as u32,
        cb_aux_offset: be32(b.subrange(pos + 52, pos + 56)) as u32,
        iss_max: be32(b.subrange(pos + 56, pos + 60)) as u32,
        cb_ss_offset: be32(b.subrange(pos + 60, pos + 64)) as u32,
        iss_ext_max: be32(b.subrange(pos + 64, pos + 68)) as u32,
        cb_ss_ext_offset: be32(b.subrange(pos + 68, pos + 72)) as u32,
        ifd_max: be32(b.subrange(pos + 72, pos + 76)) as u32,
        cb_fd_offset: be32(b.subrange(pos + 76, pos + 80)) as u32,
        crfd: be32(b.subrange(pos + 80, pos + 84)) as u32,
        cb_rfd_offset: be32(b.subrange(pos + 84, pos + 88)) as u32,
        iext_max: be32(b.subrange(pos + 88, pos + 92)) as u32,
        cb_ext_offset: be32(b.subrange(pos + 92, pos + 96)) as u32,
    }
}

/// The exact truncation failure of a symbolic-header decode with `avail`
/// bytes in front of it, `avail` short of the record width.
pub open spec fn symbolic_header_truncation(avail: int) -> EcoffError
    recommends
        0 <= avail < SYMBOLIC_HEADER_LEN,
{
    if avail < 2 {
        truncated(2, avail)
    } else if avail < 4 {
        truncated(2, avail - 2)
    } else {
        truncated(4, (avail - 4) % 4)
    }
}

/// The truncation failure of a symbolic-header decode, as a value.
fn symbolic_truncation_err(avail: usize) -> (e: EcoffError)
    requires
        avail < SYMBOLIC_HEADER_LEN,
    ensures
        e == symbolic_header_truncation(avail as int),
{
    if avail < 2 {
        EcoffError::TruncatedInput { requested: 2, available: avail }
    } else if avail < 4 {
        EcoffError::TruncatedInput { requested: 2, available: avail - 2 }
    } else {
        EcoffError::TruncatedInput { requested: 4, available: (avail - 4) % 4 }
    }
}

/// Decode a symbolic header at the current position, consuming exactly its
/// width, or fail with the truncation error of the first unreadable field.
#[verifier::rlimit(100)]
pub fn read_symbol_header(r: &mut Reader) -> (res: Result<SymbolicHeader, EcoffError>)
    ensures
        final(r).data@ == old(r).data@,
        old(r).pos + SYMBOLIC_HEADER_LEN <= old(r).data@.len() ==> (res matches Ok(h)
            && h == spec_symbolic_header_at(old(r).data@, old(r).pos as int)
            && final(r).pos == old(r).pos + SYMBOLIC_HEADER_LEN),
        old(r).pos + SYMBOLIC_HEADER_LEN > old(r).data@.len() ==> (res matches Err(e)
            && e == symbolic_header_truncation(old(r).avail())),
{
    let a = r.remaining();
    if a < SYMBOLIC_HEADER_LEN {
        return Err(symbolic_truncation_err(a));
    }
    let magic = match r.read_u16() {
        Ok(v) => v,
        Err(e) => { return Err(e); },
    };
    let vstamp = match r.read_u16() {
        Ok(v) => v,
        Err(e) => { return Err(e); },
    };
    let iline_max = match r.read_u32() {
        Ok(v) => v,
        Err(e) => { return Err(e); },
    };
    let cb_line = match r.read_u32() {
        Ok(v) => v,
        Err(e) => { return Err(e); },
    };
    let cb_line_offset = match r.read_u32() {
        Ok(v) => v,
        Err(e) => { return Err(e); },
    };
    let idn_max = match r.read_u32() {
        Ok(v) => v,
        Err(e) => { return Err(e); },
    };
    let cb_dn_offset = match r.read_u32() {
        Ok(v) => v,
        Err(e) => { return Err(e); },
    };
    let ipd_max = match r.read_u32() {
        Ok(v) => v,
        Err(e) => { return Err(e); },
    };
    let cb_pd_offset = match r.read_u32() {
        Ok(v) => v,
        Err(e) => { return Err(e); },
    };
    let isym_max = match r.read_u32() {
        Ok(v) => v,
        Err(e) => { return Err(e); },
    };
    let cb_sym_offset = match r.read_u32() {
        Ok(v) => v,
        Err(e) => { return Err(e); },
    };
    let iopt_max = match r.read_u32() {
        Ok(v) => v,
        Err(e) => { return Err(e); },
    };
    let cb_opt_offset = match r.read_u32() {
        Ok(v) => v,
        Err(e) => { return Err(e); },
    };
    let iaux_max = match r.read_u32() {
        Ok(v) => v,
        Err(e) => { return Err(e); },
    };
    let cb_aux_offset = match r.read_u32() {
        Ok(v) => v,
        Err(e) => { return Err(e); },
    };
    let iss_max = match r.read_u32() {
        Ok(v) => v,
        Err(e) => { return Err(e); },
    };
    let cb_ss_offset = match r.read_u32() {
        Ok(v) => v,
        Err(e) => { return Err(e); },
    };
    let iss_ext_max = match r.read_u32() {
        Ok(v) => v,
        Err(e) => { return Err(e); },
    };
    let cb_ss_ext_offset = match r.read_u32() {
        Ok(v) => v,
        Err(e) => { return Err(e); },
    };
    let ifd_max = match r.read_u32() {
        Ok(v) => v,
        Err(e) => { return Err(e); },
    };
    let cb_fd_offset = match r.read_u32() {
        Ok(v) => v,
        Err(e) => { return Err(e); },
    };
    let crfd = match r.read_u32() {
        Ok(v) => v,
        Err(e) => { return Err(e); },
    };
    let cb_rfd_offset = match r.read_u32() {
        Ok(v) => v,
        Err(e) => { return Err(e); },
    };
    let iext_max = match r.read_u32() {
        Ok(v) => v,
        Err(e) => { return Err(e); },
    };
    let cb_ext_offset = match r.read_u32() {
        Ok(v) => v,
        Err(e) => { return Err(e); },
    };
    Ok(SymbolicHeader {
        magic,
        vstamp,
        iline_max,
        cb_line,
        cb_line_offset,
        idn_max,
        cb_dn_offset,
        ipd_max,
        cb_pd_offset,
        isym_max,
        cb_sym_offset,
        iopt_max,
        cb_opt_offset,
        iaux_max,
        cb_aux_offset,
        iss_max,
        cb_ss_offset,
        iss_ext_max,
        cb_ss_ext_offset,
        ifd_max,
        cb_fd_offset,
        crfd,
        cb_rfd_offset,
        iext_max,
        cb_ext_offset,
    })
}

/// The 32-bit fields of a symbolic header, in wire order.
pub open spec fn symbolic_fields(h: SymbolicHeader) -> Seq<u32> {
    seq![
        h.iline_max,
        h.cb_line,
        h.cb_line_offset,
        h.idn_max,
        h.cb_dn_offset,
        h.ipd_max,
        h.cb_pd_offset,
        h.isym_max,
        h.cb_sym_offset,
        h.iopt_max,
        h.cb_opt_offset,
        h.iaux_max,
        h.cb_aux_offset,
        h.iss_max,
        h.cb_ss_offset,
        h.iss_ext_max,
        h.cb_ss_ext_offset,
        h.ifd_max,
        h.cb_fd_offset,
        h.crfd,
        h.cb_rfd_offset,
        h.iext_max,
        h.cb_ext_offset,
    ]
}

/// The wire bytes of a symbolic header.
pub open spec fn encode_symbolic_header(h: SymbolicHeader) -> Seq<u8> {
    be16_bytes(h.magic as int) + be16_bytes(h.vstamp as int) + crate::endian::encode_u32_run(
        symbolic_fields(h),
    )
}

/// Layout fidelity: encoding a symbolic header and decoding the bytes yields
/// the original record.
#[verifier::rlimit(100)]
pub proof fn lemma_symbolic_header_round_trip(h: SymbolicHeader)
    ensures
        encode_symbolic_header(h).len() == SYMBOLIC_HEADER_LEN,
        spec_symbolic_header_at(encode_symbolic_header(h), 0) == h,
{
    let b = encode_symbolic_header(h);
    let d = spec_symbolic_header_at(b, 0);
    let fields = symbolic_fields(h);
    crate::endian::lemma_encode_u32_run_len(fields);
    assert(d.magic == h.magic) by {
        crate::endian::lemma_be16_round_trip(h.magic);
        assert(b.subrange(0, 2) =~= be16_bytes(h.magic as int));
    }
    assert(d.vstamp == h.vstamp) by {
        crate::endian::lemma_be16_round_trip(h.vstamp);
        assert(b.subrange(2, 4) =~= be16_bytes(h.vstamp as int));
    }
    assert(d.iline_max == h.iline_max) by {
        crate::endian::lemma_encode_u32_run_field(fields, 0);
        assert(fields[0] == h.iline_max);
        assert(b.subrange(4, 8) =~= crate::endian::encode_u32_run(fields).subrange(
            0,
            4,
        ));
        crate::endian::lemma_be32_round_trip(h.iline_max);
    }
    assert(d.cb_line == h.cb_line) by {
        crate::endian::lemma_encode_u32_run_field(fields, 1);
        assert(fields[1] == h.cb_line);
        assert(b.subrange(8, 12) =~= crate::endian::encode_u32_run(fields).subrange(
            4,
            8,
        ));
        crate::endian::lemma_be32_round_trip(h.cb_line);
    }
    assert(d.cb_line_offset == h.cb_line_offset) by {
        crate::endian::lemma_encode_u32_run_field(fields, 2);
        assert(fields[2] == h.cb_line_offset);
        assert(b.subrange(12, 16) =~= crate::endian::encode_u32_run(fields).subrange(
            8,
            12,
        ));
        crate::endian::lemma_be32_round_trip(h.cb_line_offset);
    }
    assert(d.idn_max == h.idn_max) by {
        crate::endian::lemma_encode_u32_run_field(fields, 3);
        assert(fields[3] == h.idn_max);
        assert(b.subrange(16, 20) =~= crate::endian::encode_u32_run(fields).subrange(
            12,
            16,
        ));
        crate::endian::lemma_be32_round_trip(h.idn_max);
    }
    assert(d.cb_dn_offset == h.cb_dn_offset) by {
        crate::endian::lemma_encode_u32_run_field(fields, 4);
        assert(fields[4] == h.cb_dn_offset);
        assert(b.subrange(20, 24) =~= crate::endian::encode_u32_run(fields).subrange(
            16,
            20,
        ));
        crate::endian::lemma_be32_round_trip(h.cb_dn_offset);
    }
    assert(d.ipd_max == h.ipd_max) by {
        crate::endian::lemma_encode_u32_run_field(fields, 5);
        assert(fields[5] == h.ipd_max);
        assert(b.subrange(24, 28) =~= crate::endian::encode_u32_run(fields).subrange(
            20,
            24,
        ));
        crate::endian::lemma_be32_round_trip(h.ipd_max);
    }
    assert(d.cb_pd_offset == h.cb_pd_offset) by {
        crate::endian::lemma_encode_u32_run_field(fields, 6);
        assert(fields[6] == h.cb_pd_offset);
        assert(b.subrange(28, 32) =~= crate::endian::encode_u32_run(fields).subrange(
            24,
            28,
        ));
        crate::endian::lemma_be32_round_trip(h.cb_pd_offset);
    }
    assert(d.isym_max == h.isym_max) by {
        crate::endian::lemma_encode_u32_run_field(fields, 7);
        assert(fields[7] == h.isym_max);
        assert(b.subrange(32, 36) =~= crate::endian::encode_u32_run(fields).subrange(
            28,
            32,
        ));
        crate::endian::lemma_be32_round_trip(h.isym_max);
    }
    assert(d.cb_sym_offset == h.cb_sym_offset) by {
        crate::endian::lemma_encode_u32_run_field(fields, 8);
        assert(fields[8] == h.cb_sym_offset);
        assert(b.subrange(36, 40) =~= crate::endian::encode_u32_run(fields).subrange(
            32,
            36,
        ));
        crate::endian::lemma_be32_round_trip(h.cb_sym_offset);
    }
    assert(d.iopt_max == h.iopt_max) by {
        crate::endian::lemma_encode_u32_run_field(fields, 9);
        assert(fields[9] == h.iopt_max);
        assert(b.subrange(40, 44) =~= crate::endian::encode_u32_run(fields).subrange(
            36,
            40,
        ));
        crate::endian::lemma_be32_round_trip(h.iopt_max);
    }
    assert(d.cb_opt_offset == h.cb_opt_offset) by {
        crate::endian::lemma_encode_u32_run_field(fields, 10);
        assert(fields[10] == h.cb_opt_offset);
        assert(b.subrange(44, 48) =~= crate::endian::encode_u32_run(fields).subrange(
            40,
            44,
        ));
        crate::endian::lemma_be32_round_trip(h.cb_opt_offset);
    }
    assert(d.iaux_max == h.iaux_max) by {
        crate::endian::lemma_encode_u32_run_field(fields, 11);
        assert(fields[11] == h.iaux_max);
        assert(b.subrange(48, 52) =~= crate::endian::encode_u32_run(fields).subrange(
            44,
            48,
        ));
        crate::endian::lemma_be32_round_trip(h.iaux_max);
    }
    assert(d.cb_aux_offset == h.cb_aux_offset) by {
        crate::endian::lemma_encode_u32_run_field(fields, 12);
        assert(fields[12] == h.cb_aux_offset);
        assert(b.subrange(52, 56) =~= crate::endian::encode_u32_run(fields).subrange(
            48,
            52,
        ));
        crate::endian::lemma_be32_round_trip(h.cb_aux_offset);
    }
    assert(d.iss_max == h.iss_max) by {
        crate::endian::lemma_encode_u32_run_field(fields, 13);
        assert(fields[13] == h.iss_max);
        assert(b.subrange(56, 60) =~= crate::endian::encode_u32_run(fields).subrange(
            52,
            56,
        ));
        crate::endian::lemma_be32_round_trip(h.iss_max);
    }
    assert(d.cb_ss_offset == h.cb_ss_offset) by {
        crate::endian::lemma_encode_u32_run_field(fields, 14);
        assert(fields[14] == h.cb_ss_offset);
        assert(b.subrange(60, 64) =~= crate::endian::encode_u32_run(fields).subrange(
            56,
            60,
        ));
        crate::endian::lemma_be32_round_trip(h.cb_ss_offset);
    }
    assert(d.iss_ext_max == h.iss_ext_max) by {
        crate::endian::lemma_encode_u32_run_field(fields, 15);
        assert(fields[15] == h.iss_ext_max);
        assert(b.subrange(64, 68) =~= crate::endian::encode_u32_run(fields).subrange(
            60,
            64,
        ));
        crate::endian::lemma_be32_round_trip(h.iss_ext_max);
    }
    assert(d.cb_ss_ext_offset == h.cb_ss_ext_offset) by {
        crate::endian::lemma_encode_u32_run_field(fields, 16);
        assert(fields[16] == h.cb_ss_ext_offset);
        assert(b.subrange(68, 72) =~= crate::endian::encode_u32_run(fields).subrange(
            64,
            68,
        ));
        crate::endian::lemma_be32_round_trip(h.cb_ss_ext_offset);
    }
    assert(d.ifd_max == h.ifd_max) by {
        crate::endian::lemma_encode_u32_run_field(fields, 17);
        assert(fields[17] == h.ifd_max);
        assert(b.subrange(72, 76) =~= crate::endian::encode_u32_run(fields).subrange(
            68,
            72,
        ));
        crate::endian::lemma_be32_round_trip(h.ifd_max);
    }
    assert(d.cb_fd_offset == h.cb_fd_offset) by {
        crate::endian::lemma_encode_u32_run_field(fields, 18);
        assert(fields[18] == h.cb_fd_offset);
        assert(b.subrange(76, 80) =~= crate::endian::encode_u32_run(fields).subrange(
            72,
            76,
        ));
        crate::endian::lemma_be32_round_trip(h.cb_fd_offset);
    }
    assert(d.crfd == h.crfd) by {
        crate::endian::lemma_encode_u32_run_field(fields, 19);
        assert(fields[19] == h.crfd);
        assert(b.subrange(80, 84) =~= crate::endian::encode_u32_run(fields).subrange(
            76,
            80,
        ));
        crate::endian::lemma_be32_round_trip(h.crfd);
    }
    assert(d.cb_rfd_offset == h.cb_rfd_offset) by {
        crate::endian::lemma_encode_u32_run_field(fields, 20);
        assert(fields[20] == h.cb_rfd_offset);
        assert(b.subrange(84, 88) =~= crate::endian::encode_u32_run(fields).subrange(
            80,
            84,
        ));
        crate::endian::lemma_be32_round_trip(h.cb_rfd_offset);
    }
    assert(d.iext_max == h.iext_max) by {
        crate::endian::lemma_encode_u32_run_field(fields, 21);
        assert(fields[21] == h.iext_max);
        assert(b.subrange(88, 92) =~= crate::endian::encode_u32_run(fields).subrange(
            84,
            88,
        ));
        crate::endian::lemma_be32_round_trip(h.iext_max);
    }
    assert(d.cb_ext_offset == h.cb_ext_offset) by {
        crate::endian::lemma_encode_u32_run_field(fields, 22);
        assert(fields[22] == h.cb_ext_offset);
        assert(b.subrange(92, 96) =~= crate::endian::encode_u32_run(fields).subrange(
            88,
            92,
        ));
        crate::endian::lemma_be32_round_trip(h.cb_ext_offset);
    }
}

/// Decoding a file header reads only its own byte window.
#[verifier::rlimit(100)]
pub proof fn lemma_file_header_window(b: Seq<u8>, p: int)
    requires
        0 <= p,
        p + FILE_HEADER_LEN <= b.len(),
    ensures
        spec_file_header_at(b, p) == spec_file_header_at(b.subrange(p, p + FILE_HEADER_LEN), 0),
{
    let w = b.subrange(p, p + FILE_HEADER_LEN);
    assert(w.subrange(0, 2) =~= b.subrange(p, p + 2));
    assert(w.subrange(2, 4) =~= b.subrange(p + 2, p + 4));
    assert(w.subrange(4, 8) =~= b.subrange(p + 4, p + 8));
    assert(w.subrange(8, 12) =~= b.subrange(p + 8, p + 12));
    assert(w.subrange(12, 16) =~= b.subrange(p + 12, p + 16));
    assert(w.subrange(16, 18) =~= b.subrange(p + 16, p + 18));
    assert(w.subrange(18, 20) =~= b.subrange(p + 18, p + 20));
}

/// Decoding a optional header reads only its own byte window.
#[verifier::rlimit(100)]
pub proof fn lemma_optional_header_window(b: Seq<u8>, p: int)
    requires
        0 <= p,
        p + OPTIONAL_HEADER_LEN <= b.len(),
    ensures
        spec_optional_header_at(b, p) == spec_optional_header_at(b.subrange(p, p + OPTIONAL_HEADER_LEN), 0),
{
    let w = b.subrange(p, p + OPTIONAL_HEADER_LEN);
    assert(w.subrange(0, 2) =~= b.subrange(p, p + 2));
    assert(w.subrange(2, 4) =~= b.subrange(p + 2, p + 4));
    assert(w.subrange(4, 8) =~= b.subrange(p + 4, p + 8));
    assert(w.subrange(8, 12) =~= b.subrange(p + 8, p + 12));
    assert(w.subrange(12, 16) =~= b.subrange(p + 12, p + 16));
    assert(w.subrange(16, 20) =~= b.subrange(p + 16, p + 20));
    assert(w.subrange(20, 24) =~= b.subrange(p + 20, p + 24));
    assert(w.subrange(24, 28) =~= b.subrange(p + 24, p + 28));
    assert(w.subrange(28, 32) =~= b.subrange(p + 28, p + 32));
    assert(w.subrange(32, 36) =~= b.subrange(p + 32, p + 36));
    assert(w.subrange(36, 40) =~= b.subrange(p + 36, p + 40));
    assert(w.subrange(40, 44) =~= b.subrange(p + 40, p + 44));
    assert(w.subrange(44, 48) =~= b.subrange(p + 44, p + 48));
    assert(w.subrange(48, 52) =~= b.subrange(p + 48, p + 52));
    assert(w.subrange(52, 56) =~= b.subrange(p + 52, p + 56));
}

/// Decoding a section header reads only its own byte window.
#[verifier::rlimit(100)]
pub proof fn lemma_section_header_window(b: Seq<u8>, p: int)
    requires
        0 <= p,
        p + SECTION_HEADER_LEN <= b.len(),
    ensures
        spec_section_header_at(b, p) == spec_section_header_at(b.subrange(p, p + SECTION_HEADER_LEN), 0),
{
    let w = b.subrange(p, p + SECTION_HEADER_LEN);
    assert(w.subrange(0, 8) =~= b.subrange(p, p + 8));
    assert(w.subrange(8, 12) =~= b.subrange(p + 8, p + 12));
    assert(w.subrange(12, 16) =~= b.subrange(p + 12, p + 16));
    assert(w.subrange(16, 20) =~= b.subrange(p + 16, p + 20));
    assert(w.subrange(20, 24) =~= b.subrange(p + 20, p + 24));
    assert(w.subrange(24, 28) =~= b.subrange(p + 24, p + 28));
    assert(w.subrange(28, 32) =~= b.subrange(p + 28, p + 32));
    assert(w.subrange(32, 34) =~= b.subrange(p + 32, p + 34));
    assert(w.subrange(34, 36) =~= b.subrange(p + 34, p + 36));
    assert(w.subrange(36, 40) =~= b.subrange(p + 36, p + 40));
}

/// Decoding a symbolic header reads only its own byte window.
#[verifier::rlimit(100)]
pub proof fn lemma_symbolic_header_window(b: Seq<u8>, p: int)
    requires
        0 <= p,
        p + SYMBOLIC_HEADER_LEN <= b.len(),
    ensures
        spec_symbolic_header_at(b, p) == spec_symbolic_header_at(b.subrange(p, p + SYMBOLIC_HEADER_LEN), 0),
{
    let w = b.subrange(p, p + SYMBOLIC_HEADER_LEN);
    assert(w.subrange(0, 2) =~= b.subrange(p, p + 2));
    assert(w.subrange(2, 4) =~= b.subrange(p + 2, p + 4));
    assert(w.subrange(4, 8) =~= b.subrange(p + 4, p + 8));
    assert(w.subrange(8, 12) =~= b.subrange(p + 8, p + 12));
    assert(w.subrange(12, 16) =~= b.subrange(p + 12, p + 16));
    assert(w.subrange(16, 20) =~= b.subrange(p + 16, p + 20));
    assert(w.subrange(20, 24) =~= b.subrange(p + 20, p + 24));
    assert(w.subrange(24, 28) =~= b.subrange(p + 24, p + 28));
    assert(w.subrange(28, 32) =~= b.subrange(p + 28, p + 32));
    assert(w.subrange(32, 36) =~= b.subrange(p + 32, p + 36));
    assert(w.subrange(36, 40) =~= b.subrange(p + 36, p + 40));
    assert(w.subrange(40, 44) =~= b.subrange(p + 40, p + 44));
    assert(w.subrange(44, 48) =~= b.subrange(p + 44, p + 48));
    assert(w.subrange(48, 52) =~= b.subrange(p + 48, p + 52));
    assert(w.subrange(52, 56) =~= b.subrange(p + 52, p + 56));
    assert(w.subrange(56, 60) =~= b.subrange(p + 56, p + 60));
    assert(w.subrange(60, 64) =~= b.subrange(p + 60, p + 64));
    assert(w.subrange(64, 68) =~= b.subrange(p + 64, p + 68));
    assert(w.subrange(68, 72) =~= b.subrange(p + 68, p + 72));
    assert(w.subrange(72, 76) =~= b.subrange(p + 72, p + 76));
    assert(w.subrange(76, 80) =~= b.subrange(p + 76, p + 80));
    assert(w.subrange(80, 84) =~= b.subrange(p + 80, p + 84));
    assert(w.subrange(84, 88) =~= b.subrange(p + 84, p + 88));
    assert(w.subrange(88, 92) =~= b.subrange(p + 88, p + 92));
    assert(w.subrange(92, 96) =~= b.subrange(p + 92, p + 96));
}

} // verus!
