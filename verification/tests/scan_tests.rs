use memhook::{data_scan, pattern_scan, scan_pattern, sig_scan, AddressSpace, Bits, MemError, Prot, Target};

const BUFFER: [u8; 14] = [0, 3, 4, 1, 2, 6, 0x10, 0x20, 0x30, 0, 0, 5, 2, 6];

/// A target with one readable page at 0x1000 that holds BUFFER at `offset`.
fn with_buffer(offset: u64) -> (AddressSpace, u64) {
    let mut s = AddressSpace::new(Target::Remote { handle: 3, bits: Bits::Bits64 });
    let page = s.allocate(0, Prot::rw()).unwrap();
    s.write(page + offset, &BUFFER).unwrap();
    s.protect(page, 1, Prot::r()).unwrap();
    (s, page + offset)
}

#[test]
fn data_scan_finds_the_bytes() {
    let (s, buffer) = with_buffer(0x100);
    assert_eq!(data_scan(&s, &[0x10, 0x20, 0x30], buffer, BUFFER.len()), Ok(buffer + 6));
}

#[test]
fn data_scan_returns_lowest_address() {
    let (s, buffer) = with_buffer(0x100);
    assert_eq!(data_scan(&s, &[6], buffer, BUFFER.len()), Ok(buffer + 5));
    assert_eq!(data_scan(&s, &[0], buffer, BUFFER.len()), Ok(buffer));
    assert_eq!(data_scan(&s, &[2, 6], buffer, BUFFER.len()), Ok(buffer + 4));
}

#[test]
fn data_scan_stays_inside_the_region() {
    let (s, buffer) = with_buffer(0x100);
    // the needle stands at offset 6 to 8; a region that ends at offset 8 misses its last byte
    assert_eq!(data_scan(&s, &[0x10, 0x20, 0x30], buffer, 8), Err(MemError::NotFound));
    assert_eq!(data_scan(&s, &[0x10, 0x20, 0x30], buffer, 9), Ok(buffer + 6));
    assert_eq!(data_scan(&s, &[0x10, 0x20, 0x30], buffer + 7, 7), Err(MemError::NotFound));
}

#[test]
fn data_scan_needle_longer_than_region() {
    let (s, buffer) = with_buffer(0x100);
    assert_eq!(data_scan(&s, &[0, 3, 4], buffer, 2), Err(MemError::NotFound));
    assert_eq!(data_scan(&s, &[0], buffer, 0), Err(MemError::NotFound));
}

#[test]
fn data_scan_reports_absence() {
    let (s, buffer) = with_buffer(0x100);
    assert_eq!(data_scan(&s, &[0x30, 0x20], buffer, BUFFER.len()), Err(MemError::NotFound));
}

#[test]
fn data_scan_rejects_empty_needle_before_reading() {
    let (s, buffer) = with_buffer(0x100);
    assert_eq!(data_scan(&s, &[], buffer, BUFFER.len()), Err(MemError::InvalidArgument));
    assert_eq!(data_scan(&s, &[], 0x9000, 4), Err(MemError::InvalidArgument));
}

#[test]
fn data_scan_needs_a_readable_region() {
    let (mut s, buffer) = with_buffer(0x100);
    assert_eq!(data_scan(&s, &[1], 0x9000, 4), Err(MemError::AccessError));
    // the region runs past the end of the page
    assert_eq!(data_scan(&s, &[0x10], buffer, 0x1000), Err(MemError::AccessError));
    s.protect(buffer, 1, Prot::none()).unwrap();
    assert_eq!(data_scan(&s, &[0x10], buffer, BUFFER.len()), Err(MemError::AccessError));
}

#[test]
fn data_scan_over_two_pages() {
    let mut s = AddressSpace::new(Target::Remote { handle: 3, bits: Bits::Bits32 });
    let a = s.allocate(0, Prot::rw()).unwrap();
    let b = s.allocate(0, Prot::rw()).unwrap();
    assert_eq!(b, a + 0x1000);
    s.write(b - 2, &[0xCA, 0xFE, 0xBA, 0xBE]).unwrap();
    assert_eq!(data_scan(&s, &[0xCA, 0xFE, 0xBA, 0xBE], a, 0x2000), Ok(b - 2));
}

#[test]
fn pattern_scan_with_mask() {
    let (s, buffer) = with_buffer(0x40);
    let pattern = [0x10, 0, 0x30, 0, 0, 5, 2];
    assert_eq!(pattern_scan(&s, &pattern, "x?x??xx", buffer, BUFFER.len()), Ok(buffer + 6));
}

#[test]
fn pattern_scan_all_fixed_equals_data_scan() {
    let (s, buffer) = with_buffer(0x40);
    let needle = [0x10, 0x20, 0x30];
    assert_eq!(
        pattern_scan(&s, &needle, "xxx", buffer, BUFFER.len()),
        data_scan(&s, &needle, buffer, BUFFER.len())
    );
    let absent = [0x10, 0x20, 0x31];
    assert_eq!(
        pattern_scan(&s, &absent, "xxx", buffer, BUFFER.len()),
        data_scan(&s, &absent, buffer, BUFFER.len())
    );
    assert_eq!(pattern_scan(&s, &absent, "xxx", buffer, BUFFER.len()), Err(MemError::NotFound));
}

#[test]
fn pattern_scan_wildcard_does_not_excuse_fixed_positions() {
    let (s, buffer) = with_buffer(0x40);
    assert_eq!(
        pattern_scan(&s, &[0x10, 0, 0x31], "x?x", buffer, BUFFER.len()),
        Err(MemError::NotFound)
    );
    assert_eq!(pattern_scan(&s, &[0x10, 0xFF, 0x30], "x?x", buffer, BUFFER.len()), Ok(buffer + 6));
    assert_eq!(
        pattern_scan(&s, &[0x10, 0xFF, 0x30], "xxx", buffer, BUFFER.len()),
        Err(MemError::NotFound)
    );
}

#[test]
fn pattern_scan_rejects_bad_mask() {
    let (s, buffer) = with_buffer(0x40);
    assert_eq!(
        pattern_scan(&s, &[1, 2, 3], "xx", buffer, BUFFER.len()),
        Err(MemError::InvalidArgument)
    );
    assert_eq!(
        pattern_scan(&s, &[1, 2], "x.", buffer, BUFFER.len()),
        Err(MemError::InvalidArgument)
    );
    assert_eq!(pattern_scan(&s, &[], "", buffer, BUFFER.len()), Err(MemError::InvalidArgument));
    // the argument is judged before the region is read
    assert_eq!(pattern_scan(&s, &[1, 2], "x", 0x9000, 4), Err(MemError::InvalidArgument));
    assert_eq!(pattern_scan(&s, &[1, 2], "xé", buffer, 4), Err(MemError::InvalidArgument));
}

#[test]
fn pattern_scan_needs_a_readable_region() {
    let (s, _) = with_buffer(0x40);
    assert_eq!(pattern_scan(&s, &[1, 2], "x?", 0x9000, 4), Err(MemError::AccessError));
}

#[test]
fn sig_scan_finds_the_0x10_byte() {
    let (s, buffer) = with_buffer(0x800);
    assert_eq!(sig_scan(&s, "10 ?? 30 ?? ?? 05 02", buffer, BUFFER.len()), Ok(buffer + 6));
}

#[test]
fn sig_scan_equals_pattern_scan() {
    let (s, buffer) = with_buffer(0x800);
    assert_eq!(
        sig_scan(&s, "10 ?? 30 ?? ?? 05 02", buffer, BUFFER.len()),
        pattern_scan(&s, &[0x10, 0, 0x30, 0, 0, 5, 2], "x?x??xx", buffer, BUFFER.len())
    );
    assert_eq!(
        sig_scan(&s, "03 04 ?? 02", buffer, BUFFER.len()),
        pattern_scan(&s, &[3, 4, 0, 2], "xx?x", buffer, BUFFER.len())
    );
    assert_eq!(sig_scan(&s, "03 04 ?? 02", buffer, BUFFER.len()), Ok(buffer + 1));
}

#[test]
fn sig_scan_rejects_malformed_text_before_scanning() {
    let (s, buffer) = with_buffer(0x800);
    for text in ["", "1", "10 ?", "10 ? 30", "1g", "10  30", "10 30 ", "?? ?", "10-30"] {
        assert_eq!(sig_scan(&s, text, buffer, BUFFER.len()), Err(MemError::InvalidArgument));
        assert_eq!(sig_scan(&s, text, 0x9000, 4), Err(MemError::InvalidArgument));
    }
}

#[test]
fn sig_scan_reports_absence_and_unreadable_region() {
    let (s, buffer) = with_buffer(0x800);
    assert_eq!(sig_scan(&s, "10 ?? 31", buffer, BUFFER.len()), Err(MemError::NotFound));
    assert_eq!(sig_scan(&s, "10 ?? 30", 0x9000, 4), Err(MemError::AccessError));
}

#[test]
fn scan_pattern_is_the_common_scanner() {
    let (s, buffer) = with_buffer(0);
    let pattern = [Some(0x10), None, Some(0x30)];
    assert_eq!(scan_pattern(&s, &pattern, buffer, BUFFER.len()), Ok(buffer + 6));
    assert_eq!(scan_pattern(&s, &[], buffer, BUFFER.len()), Err(MemError::InvalidArgument));
    assert_eq!(scan_pattern(&s, &[None], buffer, 0), Err(MemError::NotFound));
    assert_eq!(scan_pattern(&s, &[None], buffer, 1), Ok(buffer));
}

#[test]
fn scans_fail_on_a_dead_target() {
    let (mut s, buffer) = with_buffer(0);
    s.terminate();
    assert_eq!(data_scan(&s, &[0x10], buffer, BUFFER.len()), Err(MemError::AccessError));
    assert_eq!(sig_scan(&s, "10", buffer, BUFFER.len()), Err(MemError::AccessError));
}
