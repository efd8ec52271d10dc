use ecoff::error::{EcoffError, LayoutIssue};
use ecoff::object::decode_object;

fn push_u16(buf: &mut Vec<u8>, v: u16) {
    buf.extend_from_slice(&v.to_be_bytes());
}

fn push_u32(buf: &mut Vec<u8>, v: u32) {
    buf.extend_from_slice(&v.to_be_bytes());
}

fn file_header_bytes(
    magic: u16,
    nscns: u16,
    timdat: u32,
    symptr: u32,
    nsyms: u32,
    opthdr: u16,
    flags: u16,
) -> Vec<u8> {
    let mut b = Vec::new();
    push_u16(&mut b, magic);
    push_u16(&mut b, nscns);
    push_u32(&mut b, timdat);
    push_u32(&mut b, symptr);
    push_u32(&mut b, nsyms);
    push_u16(&mut b, opthdr);
    push_u16(&mut b, flags);
    b
}

/// A symbolic header whose 23 32-bit fields are `base`, `base + 1`, ... in
/// wire order, except the four string-table fields, which are given.
fn symbolic_header_bytes(
    base: u32,
    iss_max: u32,
    cb_ss_offset: u32,
    iss_ext_max: u32,
    cb_ss_ext_offset: u32,
) -> Vec<u8> {
    let mut b = Vec::new();
    push_u16(&mut b, 0x7009);
    push_u16(&mut b, 2);
    let mut fields = [0u32; 23];
    for (i, f) in fields.iter_mut().enumerate() {
        *f = base + i as u32;
    }
    fields[13] = iss_max;
    fields[14] = cb_ss_offset;
    fields[15] = iss_ext_max;
    fields[16] = cb_ss_ext_offset;
    for f in fields.iter() {
        push_u32(&mut b, *f);
    }
    b
}

fn section_header_bytes(
    name: &[u8; 8],
    paddr: u32,
    vaddr: u32,
    size: u32,
    scnptr: u32,
    relptr: u32,
    lnnoptr: u32,
    nreloc: u16,
    nlnno: u16,
    flags: u32,
) -> Vec<u8> {
    let mut b = Vec::new();
    b.extend_from_slice(name);
    push_u32(&mut b, paddr);
    push_u32(&mut b, vaddr);
    push_u32(&mut b, size);
    push_u32(&mut b, scnptr);
    push_u32(&mut b, relptr);
    push_u32(&mut b, lnnoptr);
    push_u16(&mut b, nreloc);
    push_u16(&mut b, nlnno);
    push_u32(&mut b, flags);
    b
}

fn optional_header_bytes(vals: &[u32; 13], magic: u16, vstamp: u16) -> Vec<u8> {
    let mut b = Vec::new();
    push_u16(&mut b, magic);
    push_u16(&mut b, vstamp);
    for v in vals.iter() {
        push_u32(&mut b, *v);
    }
    b
}

#[test]
fn truncated_file_header_reports_first_failing_field() {
    // Ten bytes cover the first three fields; the fourth (four bytes wide)
    // finds only two left.
    let buf = vec![0u8; 10];
    let r = decode_object(&buf);
    assert_eq!(r.unwrap_err(), EcoffError::TruncatedInput { requested: 4, available: 2 });
}

#[test]
fn empty_input_fails_on_first_field() {
    let buf: Vec<u8> = Vec::new();
    let r = decode_object(&buf);
    assert_eq!(r.unwrap_err(), EcoffError::TruncatedInput { requested: 2, available: 0 });
}

#[test]
fn string_tables_split_into_null_terminated_strings() {
    // File header, symbolic header right after it, then the local blob.
    let mut buf = file_header_bytes(0x0162, 0, 7, 20, 0, 0, 3);
    buf.extend_from_slice(&symbolic_header_bytes(100, 6, 116, 0, 122));
    assert_eq!(buf.len(), 116);
    buf.extend_from_slice(b"ab\0cd\0");
    let obj = decode_object(&buf).unwrap();
    assert_eq!(obj.local_strings.data, b"ab\0cd\0".to_vec());
    let strings = obj.local_strings.strings();
    assert_eq!(strings, vec![b"ab".to_vec(), b"cd".to_vec()]);
    assert_eq!(obj.external_strings.strings(), Vec::<Vec<u8>>::new());
}

#[test]
fn zero_section_count_yields_empty_section_sequence() {
    let mut buf = file_header_bytes(0x0162, 0, 0, 20, 0, 0, 0);
    buf.extend_from_slice(&symbolic_header_bytes(0, 0, 116, 0, 116));
    let obj = decode_object(&buf).unwrap();
    assert!(obj.sections.is_empty());
    assert_eq!(obj.file_header.f_nscns, 0);
}

#[test]
fn no_optional_header_means_sections_follow_file_header() {
    // One section; its header starts at offset 20, its payload at 60.
    let mut buf = file_header_bytes(0x0162, 1, 0, 64, 0, 0, 0);
    buf.extend_from_slice(&section_header_bytes(
        b".text\0\0\0",
        0x1000,
        0x2000,
        4,
        60,
        0,
        0,
        0,
        0,
        0x20,
    ));
    assert_eq!(buf.len(), 60);
    buf.extend_from_slice(&[1, 2, 3, 4]);
    buf.extend_from_slice(&symbolic_header_bytes(0, 0, 160, 0, 160));
    assert_eq!(buf.len(), 160);
    let obj = decode_object(&buf).unwrap();
    assert!(obj.optional_header.is_none());
    assert_eq!(obj.sections.len(), 1);
    let s = &obj.sections[0];
    assert_eq!(s.header.s_name, b".text\0\0\0".to_vec());
    assert_eq!(s.header.s_paddr, 0x1000);
    assert_eq!(s.header.s_vaddr, 0x2000);
    assert_eq!(s.header.s_size, 4);
    assert_eq!(s.header.s_scnptr, 60);
    assert_eq!(s.header.s_flags, 0x20);
    assert_eq!(s.data, vec![1, 2, 3, 4]);
}

#[test]
fn optional_header_decoded_when_declared() {
    let vals: [u32; 13] = [10, 11, 12, 13, 14, 15, 16, 17, 18, 19, 20, 21, 22];
    let mut buf = file_header_bytes(0x0162, 0, 0, 76, 0, 56, 0);
    buf.extend_from_slice(&optional_header_bytes(&vals, 0x0107, 0x0203));
    assert_eq!(buf.len(), 76);
    buf.extend_from_slice(&symbolic_header_bytes(0, 0, 172, 0, 172));
    let obj = decode_object(&buf).unwrap();
    let oh = obj.optional_header.expect("optional header must be present");
    assert_eq!(oh.magic, 0x0107);
    assert_eq!(oh.vstamp, 0x0203);
    assert_eq!(oh.tsize, 10);
    assert_eq!(oh.dsize, 11);
    assert_eq!(oh.bsize, 12);
    assert_eq!(oh.entry, 13);
    assert_eq!(oh.text_start, 14);
    assert_eq!(oh.data_start, 15);
    assert_eq!(oh.bss_start, 16);
    assert_eq!(oh.gprmask, 17);
    assert_eq!(oh.cprmask0, 18);
    assert_eq!(oh.cprmask1, 19);
    assert_eq!(oh.cprmask2, 20);
    assert_eq!(oh.cprmask3, 21);
    assert_eq!(oh.gp_value, 22);
}

#[test]
fn declared_optional_size_must_match_fixed_width() {
    let mut buf = file_header_bytes(0x0162, 0, 0, 20, 0, 10, 0);
    buf.extend_from_slice(&symbolic_header_bytes(0, 0, 116, 0, 116));
    let r = decode_object(&buf);
    assert_eq!(
        r.unwrap_err(),
        EcoffError::InvalidLayout { reason: LayoutIssue::OptionalHeaderSizeMismatch }
    );
}

#[test]
fn section_range_crossing_end_of_input_is_truncation() {
    // Section declares 8 bytes at offset 156: only 4 exist before the end.
    let mut buf = file_header_bytes(0x0162, 1, 0, 60, 0, 0, 0);
    buf.extend_from_slice(&section_header_bytes(b"data\0\0\0\0", 0, 0, 8, 156, 0, 0, 0, 0, 0));
    buf.extend_from_slice(&symbolic_header_bytes(0, 0, 156, 0, 156));
    buf.extend_from_slice(&[9, 9, 9, 9]);
    assert_eq!(buf.len(), 160);
    let r = decode_object(&buf);
    assert_eq!(r.unwrap_err(), EcoffError::TruncatedInput { requested: 8, available: 4 });
}

#[test]
fn section_size_beyond_whole_input_is_invalid_layout() {
    let mut buf = file_header_bytes(0x0162, 1, 0, 60, 0, 0, 0);
    buf.extend_from_slice(&section_header_bytes(
        b"huge\0\0\0\0",
        0,
        0,
        0xFFFF_0000,
        60,
        0,
        0,
        0,
        0,
        0,
    ));
    buf.extend_from_slice(&symbolic_header_bytes(0, 0, 156, 0, 156));
    let r = decode_object(&buf);
    assert_eq!(
        r.unwrap_err(),
        EcoffError::InvalidLayout { reason: LayoutIssue::SectionSizeExceedsInput }
    );
}

#[test]
fn zero_length_string_table_ignores_out_of_range_offset() {
    // Both tables declare zero bytes; their offsets point far past the end
    // of the 116-byte input. A read of zero bytes can always obtain its
    // requested count, so the decode succeeds with empty blobs.
    let mut buf = file_header_bytes(0x0162, 0, 0, 20, 0, 0, 0);
    buf.extend_from_slice(&symbolic_header_bytes(0, 0, 200, 0, 300));
    assert_eq!(buf.len(), 116);
    let obj = decode_object(&buf).unwrap();
    assert_eq!(obj.local_strings.data, Vec::<u8>::new());
    assert_eq!(obj.local_strings.strings(), Vec::<Vec<u8>>::new());
    assert_eq!(obj.external_strings.data, Vec::<u8>::new());
}

#[test]
fn zero_size_section_at_out_of_range_offset_still_fails() {
    // A section's declared range must lie inside the input even when its
    // size is zero: an offset past the end alone fails the decode.
    let mut buf = file_header_bytes(0x0162, 1, 0, 60, 0, 0, 0);
    buf.extend_from_slice(&section_header_bytes(b"empty\0\0\0", 0, 0, 0, 5000, 0, 0, 0, 0, 0));
    buf.extend_from_slice(&symbolic_header_bytes(0, 0, 156, 0, 156));
    let r = decode_object(&buf);
    assert_eq!(r.unwrap_err(), EcoffError::TruncatedInput { requested: 0, available: 0 });
}

#[test]
fn truncated_symbolic_header_fails() {
    // The symbol-table offset points at the very end: no field fits.
    let buf = file_header_bytes(0x0162, 0, 0, 20, 0, 0, 0);
    let r = decode_object(&buf);
    assert_eq!(r.unwrap_err(), EcoffError::TruncatedInput { requested: 2, available: 0 });
}

#[test]
fn string_table_blob_crossing_end_of_input_is_truncation() {
    let mut buf = file_header_bytes(0x0162, 0, 0, 20, 0, 0, 0);
    buf.extend_from_slice(&symbolic_header_bytes(0, 10, 116, 0, 116));
    assert_eq!(buf.len(), 116);
    let r = decode_object(&buf);
    assert_eq!(r.unwrap_err(), EcoffError::TruncatedInput { requested: 10, available: 0 });
}

#[test]
fn decoding_is_deterministic() {
    let mut buf = file_header_bytes(0x0162, 1, 5, 64, 2, 0, 1);
    buf.extend_from_slice(&section_header_bytes(b"d\0\0\0\0\0\0\0", 1, 2, 4, 60, 3, 4, 5, 6, 7));
    buf.extend_from_slice(&[4, 3, 2, 1]);
    buf.extend_from_slice(&symbolic_header_bytes(40, 3, 160, 0, 163));
    buf.extend_from_slice(b"xy\0");
    let a = decode_object(&buf).unwrap();
    let b = decode_object(&buf).unwrap();
    assert_eq!(a, b);
}

#[test]
fn round_trip_re_encoding_decoded_object_restores_the_bytes() {
    // A canonical contiguous layout: file header, optional header, one
    // section header, its payload, symbolic header, local and external
    // string blobs.
    let vals: [u32; 13] = [1, 2, 3, 4, 5, 6, 7, 8, 9, 10, 11, 12, 13];
    let mut buf = file_header_bytes(0x0162, 1, 99, 120, 4, 56, 2);
    buf.extend_from_slice(&optional_header_bytes(&vals, 0x0107, 0x0b01));
    buf.extend_from_slice(&section_header_bytes(
        b".rdata\0\0",
        7,
        8,
        4,
        116,
        0,
        0,
        1,
        2,
        0x100,
    ));
    buf.extend_from_slice(&[0xAA, 0xBB, 0xCC, 0xDD]);
    assert_eq!(buf.len(), 120);
    buf.extend_from_slice(&symbolic_header_bytes(1000, 4, 216, 3, 220));
    buf.extend_from_slice(b"ok\0\0");
    buf.extend_from_slice(b"e\0\0");
    let obj = decode_object(&buf).unwrap();

    // Re-encode from the decoded values alone, per the fixed layout.
    let fh = &obj.file_header;
    let mut again = file_header_bytes(
        fh.f_magic,
        fh.f_nscns,
        fh.f_timdat,
        fh.f_symptr,
        fh.f_nsyms,
        fh.f_opthdr,
        fh.f_flags,
    );
    let oh = obj.optional_header.as_ref().unwrap();
    let ovals: [u32; 13] = [
        oh.tsize,
        oh.dsize,
        oh.bsize,
        oh.entry,
        oh.text_start,
        oh.data_start,
        oh.bss_start,
        oh.gprmask,
        oh.cprmask0,
        oh.cprmask1,
        oh.cprmask2,
        oh.cprmask3,
        oh.gp_value,
    ];
    again.extend_from_slice(&optional_header_bytes(&ovals, oh.magic, oh.vstamp));
    let sh = &obj.sections[0].header;
    let mut name = [0u8; 8];
    name.copy_from_slice(&sh.s_name);
    again.extend_from_slice(&section_header_bytes(
        &name,
        sh.s_paddr,
        sh.s_vaddr,
        sh.s_size,
        sh.s_scnptr,
        sh.s_relptr,
        sh.s_lnnoptr,
        sh.s_nreloc,
        sh.s_nlnno,
        sh.s_flags,
    ));
    again.extend_from_slice(&obj.sections[0].data);
    let sy = &obj.symbolic_header;
    let mut sym = Vec::new();
    push_u16(&mut sym, sy.magic);
    push_u16(&mut sym, sy.vstamp);
    for v in [
        sy.iline_max,
        sy.cb_line,
        sy.cb_line_offset,
        sy.idn_max,
        sy.cb_dn_offset,
        sy.ipd_max,
        sy.cb_pd_offset,
        sy.isym_max,
        sy.cb_sym_offset,
        sy.iopt_max,
        sy.cb_opt_offset,
        sy.iaux_max,
        sy.cb_aux_offset,
        sy.iss_max,
        sy.cb_ss_offset,
        sy.iss_ext_max,
        sy.cb_ss_ext_offset,
        sy.ifd_max,
        sy.cb_fd_offset,
        sy.crfd,
        sy.cb_rfd_offset,
        sy.iext_max,
        sy.cb_ext_offset,
    ] {
        push_u32(&mut sym, v);
    }
    again.extend_from_slice(&sym);
    again.extend_from_slice(&obj.local_strings.data);
    again.extend_from_slice(&obj.external_strings.data);
    assert_eq!(again, buf);

    // Decoding the re-encoded bytes yields an equal object.
    let obj2 = decode_object(&again).unwrap();
    assert_eq!(obj2, obj);
}
