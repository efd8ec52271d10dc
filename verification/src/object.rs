//! The object-file assembler: one decode call over a buffered byte source.
//!
//! Decoding walks the format in its mandated order — file header, optional
//! header if declared, section headers, section payloads, symbolic header,
//! local strings, external strings — and yields one immutable decoded
//! object, or the first failure. No partial object is ever returned.

use vstd::prelude::*;

use crate::error::{EcoffError, LayoutIssue};
use crate::headers::{
    read_file_header, read_optional_header, read_section_header, read_symbol_header,
    file_header_truncation, optional_header_truncation, section_header_truncation,
    symbolic_header_truncation, spec_file_header_at, spec_optional_header_at,
    spec_section_header_at, spec_symbolic_header_at, truncated, FileHeader, OptionalHeader,
    SectionHeader, SectionHeaderV, SymbolicHeader, FILE_HEADER_LEN, OPTIONAL_HEADER_LEN,
    SECTION_HEADER_LEN, SYMBOLIC_HEADER_LEN,
};
use crate::reader::Reader;
use crate::strings::StringTable;

verus! {

/// One section: its header and its materialized raw payload.
#[derive(Clone, Debug, PartialEq, Eq)]
pub struct Section {
    pub header: SectionHeader,
    pub data: Vec<u8>,
}

/// The mathematical value of a section.
pub ghost struct SectionV {
    pub header: SectionHeaderV,
    pub data: Seq<u8>,
}

impl View for Section {
    type V = SectionV;

    open spec fn view(&self) -> SectionV {
        SectionV { header: self.header@, data: self.data@ }
    }
}

/// One fully decoded object file.
#[derive(Clone, Debug, PartialEq, Eq)]
pub struct EcoffObject {
    pub file_header: FileHeader,
    pub optional_header: Option<OptionalHeader>,
    pub sections: Vec<Section>,
    pub symbolic_header: SymbolicHeader,
    pub local_strings: StringTable,
    pub external_strings: StringTable,
}

/// The mathematical value of a decoded object file.
pub ghost struct EcoffObjectV {
    pub file_header: FileHeader,
    pub optional_header: Option<OptionalHeader>,
    pub sections: Seq<SectionV>,
    pub symbolic_header: SymbolicHeader,
    pub local_strings: Seq<u8>,
    pub external_strings: Seq<u8>,
}

/// The values of a sequence of section headers.
pub open spec fn header_views(s: Seq<SectionHeader>) -> Seq<SectionHeaderV> {
    s.map_values(|h: SectionHeader| h@)
}

/// The values of a sequence of sections.
pub open spec fn section_views(s: Seq<Section>) -> Seq<SectionV> {
    s.map_values(|x: Section| x@)
}

/// The payloads of a sequence of sections.
pub open spec fn section_datas(s: Seq<Section>) -> Seq<Seq<u8>> {
    s.map_values(|x: Section| x@.data)
}

impl View for EcoffObject {
    type V = EcoffObjectV;

    open spec fn view(&self) -> EcoffObjectV {
        EcoffObjectV {
            file_header: self.file_header,
            optional_header: self.optional_header,
            sections: section_views(self.sections@),
            symbolic_header: self.symbolic_header,
            local_strings: self.local_strings@,
            external_strings: self.external_strings@,
        }
    }
}

/// The value of a decode result: the decoded object's value, or the error.
pub open spec fn view_result(r: Result<EcoffObject, EcoffError>) -> Result<
    EcoffObjectV,
    EcoffError,
> {
    match r {
        Ok(o) => Ok(o@),
        Err(e) => Err(e),
    }
}

/// Bytes readable at absolute offset `off` of an input of length `len`.
pub open spec fn avail_at(len: int, off: int) -> int {
    if off <= len {
        len - off
    } else {
        0
    }
}

/// Where the section table starts: right after the file header, or after
/// the optional header when one is declared.
pub open spec fn section_table_start(fh: FileHeader) -> int {
    if fh.f_opthdr == 0 {
        FILE_HEADER_LEN as int
    } else {
        FILE_HEADER_LEN + OPTIONAL_HEADER_LEN
    }
}

/// Decode `n` contiguous section headers starting at offset `o`, or the
/// first header's truncation failure.
pub open spec fn spec_section_headers(b: Seq<u8>, o: int, n: int) -> Result<
    Seq<SectionHeaderV>,
    EcoffError,
>
    decreases n,
{
    if n <= 0 {
        Ok(Seq::empty())
    } else if o + SECTION_HEADER_LEN > b.len() {
        Err(section_header_truncation(avail_at(b.len() as int, o)))
    } else {
        match spec_section_headers(b, o + SECTION_HEADER_LEN, n - 1) {
            Ok(rest) => Ok(seq![spec_section_header_at(b, o)] + rest),
            Err(e) => Err(e),
        }
    }
}

/// Materialize one section's payload: the `s_size` bytes at `s_scnptr`.
/// A size beyond the whole input is an invalid layout; a range that crosses
/// the end of the input is a truncation.
pub open spec fn spec_payload(b: Seq<u8>, h: SectionHeaderV) -> Result<Seq<u8>, EcoffError> {
    if h.s_size > b.len() {
        Err(EcoffError::InvalidLayout { reason: LayoutIssue::SectionSizeExceedsInput })
    } else if h.s_scnptr + h.s_size > b.len() {
        Err(truncated(h.s_size as int, avail_at(b.len() as int, h.s_scnptr as int)))
    } else {
        Ok(b.subrange(h.s_scnptr as int, h.s_scnptr + h.s_size))
    }
}

/// Materialize the payloads of `hs` in order, or the first failure.
pub open spec fn spec_payloads(b: Seq<u8>, hs: Seq<SectionHeaderV>) -> Result<
    Seq<Seq<u8>>,
    EcoffError,
>
    decreases hs.len(),
{
    if hs.len() == 0 {
        Ok(Seq::empty())
    } else {
        match spec_payload(b, hs[0]) {
            Ok(d) => match spec_payloads(b, hs.skip(1)) {
                Ok(rest) => Ok(seq![d] + rest),
                Err(e) => Err(e),
            },
            Err(e) => Err(e),
        }
    }
}

/// Pair each section header with its payload.
pub open spec fn make_sections(hs: Seq<SectionHeaderV>, ds: Seq<Seq<u8>>) -> Seq<SectionV>
    recommends
        hs.len() == ds.len(),
{
    Seq::new(hs.len(), |i: int| SectionV { header: hs[i], data: ds[i] })
}

/// The `n` bytes at absolute offset `off` of `b`. A zero-length blob is
/// empty whatever its declared offset: a read of zero bytes can always
/// obtain its requested count.
pub open spec fn blob_at(b: Seq<u8>, off: int, n: int) -> Seq<u8>
    recommends
        n == 0 || (0 <= off && off + n <= b.len()),
{
    if n == 0 {
        Seq::empty()
    } else {
        b.subrange(off, off + n)
    }
}

/// The symbol stage of a decode: the symbolic header at `f_symptr`, then
/// the local and external string-table blobs it declares. A table of
/// declared length zero is extracted as an empty blob wherever its offset
/// points, even past the end of the input.
pub open spec fn spec_decode_symbols(
    b: Seq<u8>,
    fh: FileHeader,
    opt: Option<OptionalHeader>,
    sections: Seq<SectionV>,
) -> Result<EcoffObjectV, EcoffError> {
    let len = b.len() as int;
    if fh.f_symptr + SYMBOLIC_HEADER_LEN > len {
        Err(symbolic_header_truncation(avail_at(len, fh.f_symptr as int)))
    } else {
        let sym = spec_symbolic_header_at(b, fh.f_symptr as int);
        if sym.iss_max > 0 && sym.cb_ss_offset + sym.iss_max > len {
            Err(truncated(sym.iss_max as int, avail_at(len, sym.cb_ss_offset as int)))
        } else if sym.iss_ext_max > 0 && sym.cb_ss_ext_offset + sym.iss_ext_max > len {
            Err(truncated(sym.iss_ext_max as int, avail_at(len, sym.cb_ss_ext_offset as int)))
        } else {
            Ok(
                EcoffObjectV {
                    file_header: fh,
                    optional_header: opt,
                    sections,
                    symbolic_header: sym,
                    local_strings: blob_at(b, sym.cb_ss_offset as int, sym.iss_max as int),
                    external_strings: blob_at(
                        b,
                        sym.cb_ss_ext_offset as int,
                        sym.iss_ext_max as int,
                    ),
                },
            )
        }
    }
}

/// The payload stage of a decode.
pub open spec fn spec_decode_payloads(
    b: Seq<u8>,
    fh: FileHeader,
    opt: Option<OptionalHeader>,
    hs: Seq<SectionHeaderV>,
) -> Result<EcoffObjectV, EcoffError> {
    match spec_payloads(b, hs) {
        Ok(ds) => spec_decode_symbols(b, fh, opt, make_sections(hs, ds)),
        Err(e) => Err(e),
    }
}

/// The section stage of a decode.
pub open spec fn spec_decode_sections(
    b: Seq<u8>,
    fh: FileHeader,
    opt: Option<OptionalHeader>,
) -> Result<EcoffObjectV, EcoffError> {
    match spec_section_headers(b, section_table_start(fh), fh.f_nscns as int) {
        Ok(hs) => spec_decode_payloads(b, fh, opt, hs),
        Err(e) => Err(e),
    }
}

/// What decoding the bytes `b` yields: a complete decoded object exactly
/// when every record and blob the headers declare lies inside `b`, else
/// the failure of the first stage that cannot complete.
pub open spec fn spec_decode(b: Seq<u8>) -> Result<EcoffObjectV, EcoffError> {
    if b.len() < FILE_HEADER_LEN {
        Err(file_header_truncation(b.len() as int))
    } else {
        let fh = spec_file_header_at(b, 0);
        if fh.f_opthdr != 0 && fh.f_opthdr as int != OPTIONAL_HEADER_LEN as int {
            Err(EcoffError::InvalidLayout { reason: LayoutIssue::OptionalHeaderSizeMismatch })
        } else if fh.f_opthdr != 0 && b.len() < FILE_HEADER_LEN + OPTIONAL_HEADER_LEN {
            Err(optional_header_truncation(avail_at(b.len() as int, FILE_HEADER_LEN as int)))
        } else {
            let opt = if fh.f_opthdr != 0 {
                Some(spec_optional_header_at(b, FILE_HEADER_LEN as int))
            } else {
                None
            };
            spec_decode_sections(b, fh, opt)
        }
    }
}

/// Read `n` contiguous section headers from the current position.
fn decode_section_headers(r: &mut Reader, n: usize) -> (res: Result<
    Vec<SectionHeader>,
    EcoffError,
>)
    ensures
        final(r).data@ == old(r).data@,
        spec_section_headers(old(r).data@, old(r).pos as int, n as int) matches Ok(hs) ==> (res
            matches Ok(v) && header_views(v@) == hs && final(r).pos == old(r).pos
            + SECTION_HEADER_LEN * n),
        spec_section_headers(old(r).data@, old(r).pos as int, n as int) matches Err(e) ==> res
            == Err::<Vec<SectionHeader>, EcoffError>(e),
{
    let ghost b = r.data@;
    let ghost p0 = r.pos as int;
    let mut out: Vec<SectionHeader> = Vec::new();
    let mut i: usize = 0;
    proof {
        assert(header_views(out@) =~= Seq::<SectionHeaderV>::empty());
        match spec_section_headers(b, p0, n as int) {
            Ok(rest) => {
                assert(header_views(out@) + rest =~= rest);
            },
            Err(_) => {},
        }
    }
    while i < n
        invariant
            i <= n,
            b == old(r).data@,
            p0 == old(r).pos as int,
            r.data@ == b,
            r.pos == p0 + SECTION_HEADER_LEN * i,
            out@.len() == i,
            spec_section_headers(b, p0, n as int) == (match spec_section_headers(
                b,
                r.pos as int,
                n - i,
            ) {
                Ok(rest) => Ok::<Seq<SectionHeaderV>, EcoffError>(header_views(out@) + rest),
                Err(e) => Err(e),
            }),
        decreases n - i,
    {
        let ghost pos_before = r.pos as int;
        let ghost prev = out@;
        match read_section_header(r) {
            Ok(h) => {
                out.push(h);
                i = i + 1;
                proof {
                    assert(header_views(out@) =~= header_views(prev) + seq![h@]);
                    match spec_section_headers(b, r.pos as int, n - i) {
                        Ok(rest2) => {
                            assert((header_views(prev) + (seq![h@] + rest2)) =~= ((header_views(
                                prev,
                            ) + seq![h@]) + rest2));
                        },
                        Err(_) => {},
                    }
                }
            },
            Err(e) => {
                return Err(e);
            },
        }
    }
    proof {
        assert(spec_section_headers(b, r.pos as int, 0) == Ok::<
            Seq<SectionHeaderV>,
            EcoffError,
        >(Seq::empty()));
        assert(header_views(out@) + Seq::<SectionHeaderV>::empty() =~= header_views(out@));
    }
    Ok(out)
}

/// Materialize one section's payload: seek to its declared data offset and
/// read exactly its declared size.
pub fn read_section_data(r: &mut Reader, header: &SectionHeader) -> (res: Result<
    Vec<u8>,
    EcoffError,
>)
    ensures
        final(r).data@ == old(r).data@,
        spec_payload(old(r).data@, header@) matches Ok(p) ==> (res matches Ok(d) && d@ == p),
        spec_payload(old(r).data@, header@) matches Err(e) ==> res == Err::<Vec<u8>, EcoffError>(
            e,
        ),
{
    if header.s_size as u64 > r.data.len() as u64 {
        return Err(EcoffError::InvalidLayout { reason: LayoutIssue::SectionSizeExceedsInput });
    }
    r.seek(header.s_scnptr as usize);
    let a = r.remaining();
    if header.s_scnptr as u64 + header.s_size as u64 > r.data.len() as u64 {
        // The declared range runs past the end of the input: a failure even
        // for a zero-size section, whose offset alone can be out of range.
        return Err(EcoffError::TruncatedInput { requested: header.s_size as usize, available: a });
    }
    match r.read_exact(header.s_size as usize) {
        Ok(d) => {
            proof {
                if header.s_size == 0 {
                    assert(r.data@.subrange(header.s_scnptr as int, header.s_scnptr as int)
                        =~= Seq::<u8>::empty());
                }
            }
            Ok(d)
        },
        Err(e) => Err(e),
    }
}

/// Materialize the payloads of all decoded section headers, in order.
fn decode_payloads(r: &mut Reader, headers: Vec<SectionHeader>) -> (res: Result<
    Vec<Section>,
    EcoffError,
>)
    ensures
        final(r).data@ == old(r).data@,
        spec_payloads(old(r).data@, header_views(headers@)) matches Ok(ds) ==> (res matches Ok(v)
            && section_views(v@) == make_sections(header_views(headers@), ds)),
        spec_payloads(old(r).data@, header_views(headers@)) matches Err(e) ==> res == Err::<
            Vec<Section>,
            EcoffError,
        >(e),
{
    let ghost b = r.data@;
    let ghost hs0 = header_views(headers@);
    let mut hdrs = headers;
    let mut out: Vec<Section> = Vec::new();
    proof {
        assert(hs0.skip(0) =~= hs0);
        assert(section_datas(out@) =~= Seq::<Seq<u8>>::empty());
        match spec_payloads(b, hs0) {
            Ok(rest) => {
                assert(section_datas(out@) + rest =~= rest);
            },
            Err(_) => {},
        }
    }
    while hdrs.len() > 0
        invariant
            b == old(r).data@,
            hs0 == header_views(headers@),
            r.data@ == b,
            out@.len() + hdrs@.len() == hs0.len(),
            header_views(hdrs@) == hs0.skip(out@.len() as int),
            forall|k: int| 0 <= k < out@.len() ==> out@[k]@.header == hs0[k],
            spec_payloads(b, hs0) == (match spec_payloads(b, hs0.skip(out@.len() as int)) {
                Ok(rest) => Ok::<Seq<Seq<u8>>, EcoffError>(section_datas(out@) + rest),
                Err(e) => Err(e),
            }),
        decreases hdrs@.len(),
    {
        let ghost j = out@.len() as int;
        let ghost prev_hdrs = hdrs@;
        let h = hdrs.remove(0);
        proof {
            assert(hdrs@ =~= prev_hdrs.skip(1));
            assert(header_views(hdrs@) =~= header_views(prev_hdrs).skip(1));
            assert(header_views(prev_hdrs).skip(1) =~= hs0.skip(j + 1));
            assert(h@ == hs0[j]);
            assert(hs0.skip(j)[0] == hs0[j]);
            assert(hs0.skip(j).skip(1) =~= hs0.skip(j + 1));
        }
        match read_section_data(r, &h) {
            Ok(d) => {
                let ghost prev = out@;
                out.push(Section { header: h, data: d });
                proof {
                    assert(header_views(hdrs@) =~= hs0.skip(j + 1));
                    assert(section_datas(out@) =~= section_datas(prev) + seq![d@]);
                    match spec_payloads(b, hs0.skip(j + 1)) {
                        Ok(rest2) => {
                            assert((section_datas(prev) + (seq![d@] + rest2)) =~= ((section_datas(
                                prev,
                            ) + seq![d@]) + rest2));
                        },
                        Err(_) => {},
                    }
                }
            },
            Err(e) => {
                return Err(e);
            },
        }
    }
    proof {
        assert(hs0.skip(out@.len() as int) =~= Seq::<SectionHeaderV>::empty());
        assert(section_datas(out@) + Seq::<Seq<u8>>::empty() =~= section_datas(out@));
        match spec_payloads(b, hs0) {
            Ok(ds) => {
                assert(section_views(out@) =~= make_sections(hs0, ds));
            },
            Err(_) => {},
        }
    }
    Ok(out)
}

/// Decode one whole object file from a fully buffered byte source.
///
/// The result is exactly [`spec_decode`] of the input bytes: a complete
/// decoded object when every declared record and blob lies inside the
/// input, else the failure of the first stage that cannot complete.
pub fn decode_object(data: &[u8]) -> (res: Result<EcoffObject, EcoffError>)
    ensures
        view_result(res) == spec_decode(data@),
{
    let ghost b = data@;
    let mut r = Reader::new(data);
    let file_header = match read_file_header(&mut r) {
        Ok(h) => h,
        Err(e) => {
            return Err(e);
        },
    };
    let optional_header: Option<OptionalHeader> = if file_header.f_opthdr == 0 {
        None
    } else if file_header.f_opthdr as usize == OPTIONAL_HEADER_LEN {
        match read_optional_header(&mut r) {
            Ok(h) => Some(h),
            Err(e) => {
                return Err(e);
            },
        }
    } else {
        return Err(EcoffError::InvalidLayout { reason: LayoutIssue::OptionalHeaderSizeMismatch });
    };
    let nscns = file_header.f_nscns as usize;
    let headers = match decode_section_headers(&mut r, nscns) {
        Ok(v) => v,
        Err(e) => {
            return Err(e);
        },
    };
    let sections = match decode_payloads(&mut r, headers) {
        Ok(v) => v,
        Err(e) => {
            return Err(e);
        },
    };
    r.seek(file_header.f_symptr as usize);
    let symbolic_header = match read_symbol_header(&mut r) {
        Ok(h) => h,
        Err(e) => {
            return Err(e);
        },
    };
    r.seek(symbolic_header.cb_ss_offset as usize);
    let local_blob = match r.read_exact(symbolic_header.iss_max as usize) {
        Ok(v) => v,
        Err(e) => {
            return Err(e);
        },
    };
    r.seek(symbolic_header.cb_ss_ext_offset as usize);
    let ext_blob = match r.read_exact(symbolic_header.iss_ext_max as usize) {
        Ok(v) => v,
        Err(e) => {
            return Err(e);
        },
    };
    Ok(
        EcoffObject {
            file_header,
            optional_header,
            sections,
            symbolic_header,
            local_strings: StringTable::new(local_blob),
            external_strings: StringTable::new(ext_blob),
        },
    )
}

/// Every header of a successfully decoded section table sits 40 bytes after
/// the one before it, wholly inside the input.
pub proof fn lemma_section_headers_ok(b: Seq<u8>, o: int, n: int)
    requires
        0 <= n,
        spec_section_headers(b, o, n) is Ok,
    ensures
        spec_section_headers(b, o, n)->Ok_0.len() == n,
        n > 0 ==> o + SECTION_HEADER_LEN as int * n <= b.len(),
        forall|k: int|
            0 <= k < n ==> spec_section_headers(b, o, n)->Ok_0[k] == spec_section_header_at(
                b,
                o + SECTION_HEADER_LEN as int * k,
            ),
    decreases n,
{
    if n > 0 {
        lemma_section_headers_ok(b, o + SECTION_HEADER_LEN as int, n - 1);
        let hs = spec_section_headers(b, o, n)->Ok_0;
        let rest = spec_section_headers(b, o + SECTION_HEADER_LEN as int, n - 1)->Ok_0;
        assert forall|k: int| 0 <= k < n implies hs[k] == spec_section_header_at(
            b,
            o + SECTION_HEADER_LEN as int * k,
        ) by {
            if k > 0 {
                assert(hs[k] == rest[k - 1]);
                assert(o + SECTION_HEADER_LEN as int + SECTION_HEADER_LEN as int * (k - 1) == o
                    + SECTION_HEADER_LEN as int * k);
            }
        }
    }
}

/// Every payload of a successfully materialized section table is exactly
/// the declared byte range, which lies wholly inside the input.
pub proof fn lemma_payloads_ok(b: Seq<u8>, hs: Seq<SectionHeaderV>)
    requires
        spec_payloads(b, hs) is Ok,
    ensures
        spec_payloads(b, hs)->Ok_0.len() == hs.len(),
        forall|k: int|
            0 <= k < hs.len() ==> (#[trigger] hs[k]).s_size <= b.len() && hs[k].s_scnptr
                + hs[k].s_size <= b.len() && spec_payloads(b, hs)->Ok_0[k] == b.subrange(
                hs[k].s_scnptr as int,
                hs[k].s_scnptr + hs[k].s_size,
            ),
    decreases hs.len(),
{
    if hs.len() > 0 {
        lemma_payloads_ok(b, hs.skip(1));
        let ds = spec_payloads(b, hs)->Ok_0;
        let rest = spec_payloads(b, hs.skip(1))->Ok_0;
        match spec_payload(b, hs[0]) {
            Ok(d0) => {
                assert(ds == seq![d0] + rest);
                assert(ds[0] == d0);
            },
            Err(_) => {
                assert(false);
            },
        }
        assert forall|k: int|
            0 <= k < hs.len() implies (#[trigger] hs[k]).s_size <= b.len() && hs[k].s_scnptr
            + hs[k].s_size <= b.len() && spec_payloads(b, hs)->Ok_0[k] == b.subrange(
            hs[k].s_scnptr as int,
            hs[k].s_scnptr + hs[k].s_size,
        ) by {
            if k > 0 {
                assert(ds[k] == rest[k - 1]);
                assert(hs.skip(1)[k - 1] == hs[k]);
            }
        }
    }
}

/// The headers of a sequence of section values.
pub open spec fn section_view_headers(ss: Seq<SectionV>) -> Seq<SectionHeaderV> {
    ss.map_values(|s: SectionV| s.header)
}

/// The payloads of a sequence of section values.
pub open spec fn section_view_datas(ss: Seq<SectionV>) -> Seq<Seq<u8>> {
    ss.map_values(|s: SectionV| s.data)
}

/// The wire bytes of a section table: each header in order.
pub open spec fn encode_section_table(hs: Seq<SectionHeaderV>) -> Seq<u8>
    decreases hs.len(),
{
    if hs.len() == 0 {
        Seq::empty()
    } else {
        crate::headers::encode_section_header(hs[0]) + encode_section_table(hs.skip(1))
    }
}

/// One blob after another.
pub open spec fn concat_blobs(ds: Seq<Seq<u8>>) -> Seq<u8>
    decreases ds.len(),
{
    if ds.len() == 0 {
        Seq::empty()
    } else {
        ds[0] + concat_blobs(ds.skip(1))
    }
}

/// The wire bytes of the optional header, or nothing when absent.
pub open spec fn encode_optional(opt: Option<OptionalHeader>) -> Seq<u8> {
    match opt {
        Some(h) => crate::headers::encode_optional_header(h),
        None => Seq::empty(),
    }
}

/// The wire bytes of a whole object value in the canonical contiguous
/// layout: file header, optional header, section table, payloads in
/// section order, symbolic header, local strings, external strings.
pub open spec fn encode_object(o: EcoffObjectV) -> Seq<u8> {
    crate::headers::encode_file_header(o.file_header) + encode_optional(o.optional_header)
        + encode_section_table(section_view_headers(o.sections)) + concat_blobs(
        section_view_datas(o.sections),
    ) + crate::headers::encode_symbolic_header(o.symbolic_header) + o.local_strings
        + o.external_strings
}

/// An object value whose offset fields describe exactly the canonical
/// contiguous layout — the shape every object decoded from such a layout
/// has. Encoding such a value and decoding the bytes restores it.
pub open spec fn object_canonical(o: EcoffObjectV) -> bool {
    let n = o.sections.len() as int;
    let fh = o.file_header;
    let pay_start = section_table_start(fh) + SECTION_HEADER_LEN as int * n;
    let sym_start = pay_start + concat_blobs(section_view_datas(o.sections)).len();
    &&& (o.optional_header is None <==> fh.f_opthdr == 0)
    &&& (fh.f_opthdr == 0 || fh.f_opthdr as int == OPTIONAL_HEADER_LEN as int)
    &&& fh.f_nscns == n
    &&& (forall|i: int|
        0 <= i < n ==> (#[trigger] o.sections[i]).header.s_name.len() == 8)
    &&& (forall|i: int|
        0 <= i < n ==> (#[trigger] o.sections[i]).header.s_size == o.sections[i].data.len())
    &&& (forall|i: int|
        0 <= i < n ==> (#[trigger] o.sections[i]).header.s_scnptr == pay_start + concat_blobs(
            section_view_datas(o.sections).take(i),
        ).len())
    &&& fh.f_symptr == sym_start
    &&& o.symbolic_header.cb_ss_offset == sym_start + SYMBOLIC_HEADER_LEN as int
    &&& o.symbolic_header.iss_max == o.local_strings.len()
    &&& o.symbolic_header.cb_ss_ext_offset == sym_start + SYMBOLIC_HEADER_LEN as int
        + o.local_strings.len()
    &&& o.symbolic_header.iss_ext_max == o.external_strings.len()
}

/// A section table of headers with 8-byte names encodes to 40 bytes each.
#[verifier::rlimit(100)]
pub proof fn lemma_encode_section_table_len(hs: Seq<SectionHeaderV>)
    requires
        forall|i: int| 0 <= i < hs.len() ==> (#[trigger] hs[i]).s_name.len() == 8,
    ensures
        encode_section_table(hs).len() == SECTION_HEADER_LEN as int * hs.len(),
    decreases hs.len(),
{
    if hs.len() > 0 {
        assert forall|i: int| 0 <= i < hs.skip(1).len() implies (#[trigger] hs.skip(
            1,
        )[i]).s_name.len() == 8 by {
            assert(hs.skip(1)[i] == hs[i + 1]);
        }
        lemma_encode_section_table_len(hs.skip(1));
    }
}

/// Decoding a section table from its own encoding restores the headers.
#[verifier::rlimit(100)]
pub proof fn lemma_decode_section_table(b: Seq<u8>, p: int, hs: Seq<SectionHeaderV>)
    requires
        0 <= p,
        forall|i: int| 0 <= i < hs.len() ==> (#[trigger] hs[i]).s_name.len() == 8,
        p + SECTION_HEADER_LEN as int * hs.len() <= b.len(),
        b.subrange(p, p + SECTION_HEADER_LEN as int * hs.len()) == encode_section_table(hs),
    ensures
        spec_section_headers(b, p, hs.len() as int) == Ok::<Seq<SectionHeaderV>, EcoffError>(hs),
    decreases hs.len(),
{
    lemma_encode_section_table_len(hs);
    if hs.len() == 0 {
        assert(hs =~= Seq::<SectionHeaderV>::empty());
    } else {
        let n = hs.len() as int;
        crate::headers::lemma_section_header_round_trip(hs[0]);
        let enc0 = crate::headers::encode_section_header(hs[0]);
        assert(b.subrange(p, p + SECTION_HEADER_LEN as int) =~= enc0) by {
            assert forall|i: int| 0 <= i < SECTION_HEADER_LEN as int implies b[p + i] == enc0[i] by {
                assert(b.subrange(p, p + SECTION_HEADER_LEN as int * hs.len())[i]
                    == encode_section_table(hs)[i]);
            }
        }
        crate::headers::lemma_section_header_window(b, p);
        assert(b.subrange(p, p + SECTION_HEADER_LEN as int).subrange(
            0,
            SECTION_HEADER_LEN as int,
        ) =~= b.subrange(p, p + SECTION_HEADER_LEN as int));
        assert(spec_section_header_at(b, p) == hs[0]);
        assert forall|i: int| 0 <= i < hs.skip(1).len() implies (#[trigger] hs.skip(
            1,
        )[i]).s_name.len() == 8 by {
            assert(hs.skip(1)[i] == hs[i + 1]);
        }
        lemma_encode_section_table_len(hs.skip(1));
        assert(b.subrange(
            p + SECTION_HEADER_LEN as int,
            p + SECTION_HEADER_LEN as int + SECTION_HEADER_LEN as int * (n - 1),
        ) =~= encode_section_table(hs.skip(1))) by {
            assert forall|i: int|
                0 <= i < SECTION_HEADER_LEN as int * (n - 1) implies b[p + SECTION_HEADER_LEN as int
                + i] == encode_section_table(hs.skip(1))[i] by {
                assert(b.subrange(p, p + SECTION_HEADER_LEN as int * hs.len())[
                    SECTION_HEADER_LEN as int + i] == encode_section_table(hs)[
                    SECTION_HEADER_LEN as int + i]);
                assert(encode_section_table(hs)[SECTION_HEADER_LEN as int + i]
                    == encode_section_table(hs.skip(1))[i]);
            }
        }
        lemma_decode_section_table(b, p + SECTION_HEADER_LEN as int, hs.skip(1));
        assert(seq![hs[0]] + hs.skip(1) =~= hs);
    }
}

/// Materializing payloads laid out one after another at `p` restores them.
pub proof fn lemma_decode_payloads_region(
    b: Seq<u8>,
    hs: Seq<SectionHeaderV>,
    ds: Seq<Seq<u8>>,
    p: int,
)
    requires
        0 <= p,
        hs.len() == ds.len(),
        p + concat_blobs(ds).len() <= b.len(),
        b.subrange(p, p + concat_blobs(ds).len()) == concat_blobs(ds),
        forall|i: int| 0 <= i < hs.len() ==> (#[trigger] hs[i]).s_size == ds[i].len(),
        forall|i: int|
            0 <= i < hs.len() ==> (#[trigger] hs[i]).s_scnptr == p + concat_blobs(
                ds.take(i),
            ).len(),
    ensures
        spec_payloads(b, hs) == Ok::<Seq<Seq<u8>>, EcoffError>(ds),
    decreases hs.len(),
{
    if hs.len() == 0 {
        assert(ds =~= Seq::<Seq<u8>>::empty());
    } else {
        let l0 = ds[0].len() as int;
        let total = concat_blobs(ds).len() as int;
        assert(concat_blobs(ds) == ds[0] + concat_blobs(ds.skip(1)));
        assert(ds.take(0) =~= Seq::<Seq<u8>>::empty());
        assert(hs[0].s_scnptr == p);
        assert(b.subrange(p, p + l0) =~= ds[0]);
        assert(spec_payload(b, hs[0]) == Ok::<Seq<u8>, EcoffError>(ds[0]));
        let p2 = p + l0;
        assert(b.subrange(p2, p2 + concat_blobs(ds.skip(1)).len()) =~= concat_blobs(ds.skip(1)))
            by {
            assert forall|i: int|
                0 <= i < concat_blobs(ds.skip(1)).len() implies b[p2 + i] == concat_blobs(
                ds.skip(1),
            )[i] by {
                assert(b.subrange(p, p + concat_blobs(ds).len())[l0 + i] == concat_blobs(ds)[l0
                    + i]);
                assert(concat_blobs(ds)[l0 + i] == concat_blobs(ds.skip(1))[i]);
            }
        }
        assert forall|i: int|
            0 <= i < hs.skip(1).len() implies (#[trigger] hs.skip(1)[i]).s_size == ds.skip(
            1,
        )[i].len() && hs.skip(1)[i].s_scnptr == p2 + concat_blobs(ds.skip(1).take(i)).len() by {
            assert(hs.skip(1)[i] == hs[i + 1]);
            assert(ds.skip(1)[i] == ds[i + 1]);
            assert(ds.take(i + 1) =~= seq![ds[0]] + ds.skip(1).take(i));
            assert((seq![ds[0]] + ds.skip(1).take(i))[0] == ds[0]);
            assert((seq![ds[0]] + ds.skip(1).take(i)).skip(1) =~= ds.skip(1).take(i));
            assert(concat_blobs(ds.take(i + 1)) == ds[0] + concat_blobs(ds.skip(1).take(i)));
        }
        lemma_decode_payloads_region(b, hs.skip(1), ds.skip(1), p2);
        assert(seq![ds[0]] + ds.skip(1) =~= ds);
    }
}

/// Where the section table of the canonical layout of `o` begins.
pub open spec fn canonical_table_offset(o: EcoffObjectV) -> int {
    FILE_HEADER_LEN + encode_optional(o.optional_header).len()
}

/// Where the payload region of the canonical layout of `o` begins.
pub open spec fn canonical_payload_offset(o: EcoffObjectV) -> int {
    canonical_table_offset(o) + encode_section_table(section_view_headers(o.sections)).len()
}

/// Where the symbolic header of the canonical layout of `o` begins.
pub open spec fn canonical_symbolic_offset(o: EcoffObjectV) -> int {
    canonical_payload_offset(o) + concat_blobs(section_view_datas(o.sections)).len()
}

/// Where the local string table of the canonical layout of `o` begins.
pub open spec fn canonical_local_offset(o: EcoffObjectV) -> int {
    canonical_symbolic_offset(o) + crate::headers::encode_symbolic_header(o.symbolic_header).len()
}

/// Where the external string table of the canonical layout of `o` begins.
pub open spec fn canonical_ext_offset(o: EcoffObjectV) -> int {
    canonical_local_offset(o) + o.local_strings.len()
}

/// The canonical layout is the concatenation of its regions: each region
/// of the encoded bytes is its component's own encoding.
#[verifier::rlimit(100)]
pub proof fn lemma_encode_object_regions(o: EcoffObjectV)
    ensures
        encode_object(o).len() == canonical_ext_offset(o) + o.external_strings.len(),
        encode_object(o).subrange(0, FILE_HEADER_LEN as int) == crate::headers::encode_file_header(
            o.file_header,
        ),
        encode_object(o).subrange(FILE_HEADER_LEN as int, canonical_table_offset(o))
            == encode_optional(o.optional_header),
        encode_object(o).subrange(canonical_table_offset(o), canonical_payload_offset(o))
            == encode_section_table(section_view_headers(o.sections)),
        encode_object(o).subrange(canonical_payload_offset(o), canonical_symbolic_offset(o))
            == concat_blobs(section_view_datas(o.sections)),
        encode_object(o).subrange(canonical_symbolic_offset(o), canonical_local_offset(o))
            == crate::headers::encode_symbolic_header(o.symbolic_header),
        encode_object(o).subrange(canonical_local_offset(o), canonical_ext_offset(o))
            == o.local_strings,
        encode_object(o).subrange(canonical_ext_offset(o), encode_object(o).len() as int)
            == o.external_strings,
{
    let b = encode_object(o);
    let fhb = crate::headers::encode_file_header(o.file_header);
    let ob = encode_optional(o.optional_header);
    let shb = encode_section_table(section_view_headers(o.sections));
    let pb = concat_blobs(section_view_datas(o.sections));
    let syb = crate::headers::encode_symbolic_header(o.symbolic_header);
    let r1 = FILE_HEADER_LEN as int;
    let r2 = canonical_table_offset(o);
    let r3 = canonical_payload_offset(o);
    let r4 = canonical_symbolic_offset(o);
    let r5 = canonical_local_offset(o);
    let r6 = canonical_ext_offset(o);
    assert(fhb.len() == FILE_HEADER_LEN) by {
        crate::headers::lemma_file_header_round_trip(o.file_header);
    }
    assert(b.subrange(0, r1) =~= fhb);
    assert(b.subrange(r1, r2) =~= ob);
    assert(b.subrange(r2, r3) =~= shb);
    assert(b.subrange(r3, r4) =~= pb);
    assert(b.subrange(r4, r5) =~= syb);
    assert(b.subrange(r5, r6) =~= o.local_strings);
    assert(b.subrange(r6, b.len() as int) =~= o.external_strings);
}

/// Round trip: encoding an object value whose offset fields describe the
/// canonical contiguous layout, then decoding the bytes, yields the
/// original value — the wire layout loses nothing of such an object.
#[verifier::rlimit(100)]
pub proof fn lemma_object_round_trip(o: EcoffObjectV)
    requires
        object_canonical(o),
    ensures
        spec_decode(encode_object(o)) == Ok::<EcoffObjectV, EcoffError>(o),
{
    let b = encode_object(o);
    let fh = o.file_header;
    let hs = section_view_headers(o.sections);
    let ds = section_view_datas(o.sections);

    crate::headers::lemma_file_header_round_trip(fh);
    if o.optional_header is Some {
        crate::headers::lemma_optional_header_round_trip(o.optional_header->0);
    }
    assert forall|i: int| 0 <= i < hs.len() implies (#[trigger] hs[i]).s_name.len() == 8 by {
        assert(hs[i] == o.sections[i].header);
    }
    lemma_encode_section_table_len(hs);
    crate::headers::lemma_symbolic_header_round_trip(o.symbolic_header);
    lemma_encode_object_regions(o);

    let r1 = FILE_HEADER_LEN as int;
    let r2 = canonical_table_offset(o);
    let r3 = canonical_payload_offset(o);
    let r4 = canonical_symbolic_offset(o);
    let r5 = canonical_local_offset(o);
    let r6 = canonical_ext_offset(o);

    // File header.
    crate::headers::lemma_file_header_window(b, 0);
    assert(spec_file_header_at(b, 0) == fh);

    // Optional header.
    if o.optional_header is Some {
        assert(r2 == FILE_HEADER_LEN + OPTIONAL_HEADER_LEN);
        crate::headers::lemma_optional_header_window(b, r1);
        assert(spec_optional_header_at(b, r1) == o.optional_header->0);
    }
    assert(section_table_start(fh) == r2);

    // Section table.
    lemma_decode_section_table(b, r2, hs);

    // Payloads.
    assert forall|i: int|
        0 <= i < hs.len() implies (#[trigger] hs[i]).s_size == ds[i].len() && hs[i].s_scnptr == r3
        + concat_blobs(ds.take(i)).len() by {
        assert(hs[i] == o.sections[i].header);
        assert(ds[i] == o.sections[i].data);
        assert(ds.take(i) =~= section_view_datas(o.sections).take(i));
    }
    lemma_decode_payloads_region(b, hs, ds, r3);
    assert(make_sections(hs, ds) =~= o.sections);

    // Symbolic header and string tables.
    assert(fh.f_symptr == r4);
    crate::headers::lemma_symbolic_header_window(b, r4);
    assert(spec_symbolic_header_at(b, r4) == o.symbolic_header);
    assert(o.symbolic_header.cb_ss_offset == r5);
    assert(o.symbolic_header.cb_ss_ext_offset == r6);
    if o.symbolic_header.iss_max == 0 {
        assert(o.local_strings =~= Seq::<u8>::empty());
    }
    if o.symbolic_header.iss_ext_max == 0 {
        assert(o.external_strings =~= Seq::<u8>::empty());
    }

    match spec_decode(b) {
        Ok(dec) => {
            assert(dec == o);
        },
        Err(_) => {
            assert(false);
        },
    }
}

/// Decoding is deterministic: identical bytes yield an identical decoded
/// value, whoever performed the two decodes.
pub proof fn lemma_decode_deterministic(
    b: Seq<u8>,
    r1: Result<EcoffObject, EcoffError>,
    r2: Result<EcoffObject, EcoffError>,
)
    requires
        view_result(r1) == spec_decode(b),
        view_result(r2) == spec_decode(b),
    ensures
        view_result(r1) == view_result(r2),
{
}

/// When the file header declares no optional header, the decoded object
/// carries none, and the bytes right after the file header belong to the
/// first section header.
pub proof fn lemma_no_optional_header(b: Seq<u8>)
    requires
        spec_decode(b) is Ok,
        spec_decode(b)->Ok_0.file_header.f_opthdr == 0,
    ensures
        spec_decode(b)->Ok_0.optional_header is None,
        spec_decode(b)->Ok_0.file_header.f_nscns > 0 ==> spec_decode(
            b,
        )->Ok_0.sections[0].header == spec_section_header_at(b, FILE_HEADER_LEN as int),
{
    let fh = spec_file_header_at(b, 0);
    match spec_section_headers(b, section_table_start(fh), fh.f_nscns as int) {
        Ok(hs) => {
            lemma_section_headers_ok(b, section_table_start(fh), fh.f_nscns as int);
            match spec_payloads(b, hs) {
                Ok(ds) => {
                    assert(spec_decode(b)->Ok_0.sections =~= make_sections(hs, ds));
                },
                Err(_) => {
                    assert(false);
                },
            }
        },
        Err(_) => {
            assert(false);
        },
    }
}

/// A decoded object holds exactly as many sections as its file header
/// declares; a declared count of zero yields an empty section sequence.
pub proof fn lemma_section_count(b: Seq<u8>)
    requires
        spec_decode(b) is Ok,
    ensures
        spec_decode(b)->Ok_0.sections.len() == spec_decode(b)->Ok_0.file_header.f_nscns,
        spec_decode(b)->Ok_0.file_header.f_nscns == 0 ==> spec_decode(b)->Ok_0.sections == Seq::<
            SectionV,
        >::empty(),
{
    let fh = spec_file_header_at(b, 0);
    match spec_section_headers(b, section_table_start(fh), fh.f_nscns as int) {
        Ok(hs) => {
            lemma_section_headers_ok(b, section_table_start(fh), fh.f_nscns as int);
            match spec_payloads(b, hs) {
                Ok(ds) => {
                    assert(spec_decode(b)->Ok_0.sections =~= make_sections(hs, ds));
                    if fh.f_nscns == 0 {
                        assert(spec_decode(b)->Ok_0.sections =~= Seq::<SectionV>::empty());
                    }
                },
                Err(_) => {
                    assert(false);
                },
            }
        },
        Err(_) => {
            assert(false);
        },
    }
}

/// No payload of a decoded object is silently truncated: every section's
/// declared byte range lies wholly inside the input, and its payload is
/// exactly that range. An out-of-range section fails the whole decode
/// instead.
pub proof fn lemma_payloads_never_truncated(b: Seq<u8>)
    requires
        spec_decode(b) is Ok,
    ensures
        forall|k: int|
            0 <= k < spec_decode(b)->Ok_0.sections.len() ==> {
                &&& (#[trigger] spec_decode(b)->Ok_0.sections[k]).header.s_scnptr + spec_decode(
                    b,
                )->Ok_0.sections[k].header.s_size <= b.len()
                &&& spec_decode(b)->Ok_0.sections[k].data == b.subrange(
                    spec_decode(b)->Ok_0.sections[k].header.s_scnptr as int,
                    spec_decode(b)->Ok_0.sections[k].header.s_scnptr + spec_decode(
                        b,
                    )->Ok_0.sections[k].header.s_size,
                )
                &&& spec_decode(b)->Ok_0.sections[k].data.len() == spec_decode(
                    b,
                )->Ok_0.sections[k].header.s_size
            },
{
    let fh = spec_file_header_at(b, 0);
    match spec_section_headers(b, section_table_start(fh), fh.f_nscns as int) {
        Ok(hs) => {
            lemma_section_headers_ok(b, section_table_start(fh), fh.f_nscns as int);
            match spec_payloads(b, hs) {
                Ok(ds) => {
                    lemma_payloads_ok(b, hs);
                    assert(spec_decode(b)->Ok_0.sections =~= make_sections(hs, ds));
                },
                Err(_) => {
                    assert(false);
                },
            }
        },
        Err(_) => {
            assert(false);
        },
    }
}

} // verus!
