use memhook::pattern::{apply_mask, find_bytes, find_pattern, parse_signature};
use memhook::MemError;

const BUFFER: [u8; 14] = [0, 3, 4, 1, 2, 6, 0x10, 0x20, 0x30, 0, 0, 5, 2, 6];

#[test]
fn find_bytes_returns_offset_of_needle() {
    assert_eq!(find_bytes(&BUFFER, &[0x10, 0x20, 0x30]), Some(6));
}

#[test]
fn find_bytes_returns_lowest_of_several() {
    let hay = [7u8, 1, 2, 9, 1, 2, 1, 2];
    assert_eq!(find_bytes(&hay, &[1, 2]), Some(1));
}

#[test]
fn find_bytes_finds_needle_at_start_and_end() {
    assert_eq!(find_bytes(&BUFFER, &[0, 3]), Some(0));
    assert_eq!(find_bytes(&BUFFER, &[5, 2, 6]), Some(11));
}

#[test]
fn find_bytes_reports_absence() {
    assert_eq!(find_bytes(&BUFFER, &[0x10, 0x21]), None);
}

#[test]
fn find_bytes_needle_longer_than_hay() {
    assert_eq!(find_bytes(&[1u8, 2], &[1, 2, 3]), None);
    assert_eq!(find_bytes(&[], &[1]), None);
}

#[test]
fn find_bytes_whole_hay_is_needle() {
    assert_eq!(find_bytes(&[1u8, 2, 3], &[1, 2, 3]), Some(0));
}

#[test]
fn find_bytes_empty_needle_is_at_zero() {
    assert_eq!(find_bytes(&BUFFER, &[]), Some(0));
    assert_eq!(find_bytes(&[], &[]), Some(0));
}

#[test]
fn find_bytes_needle_inserted_at_k() {
    for k in 0..12usize {
        let mut hay = vec![0xEEu8; 16];
        hay[k] = 0xC0;
        hay[k + 1] = 0xDE;
        hay[k + 2] = 0xC0;
        hay[k + 3] = 0xDE;
        assert_eq!(find_bytes(&hay, &[0xC0, 0xDE, 0xC0, 0xDE]), Some(k));
    }
}

#[test]
fn find_pattern_skips_wildcards() {
    let pattern = [Some(0x10), None, Some(0x30), None, None, Some(5), Some(2)];
    assert_eq!(find_pattern(&BUFFER, &pattern), Some(6));
}

#[test]
fn find_pattern_requires_every_fixed_byte() {
    let pattern = [Some(0x10), None, Some(0x31), None, None, Some(5), Some(2)];
    assert_eq!(find_pattern(&BUFFER, &pattern), None);
    let pattern = [Some(0x10), None, Some(0x30), None, None, Some(5), Some(3)];
    assert_eq!(find_pattern(&BUFFER, &pattern), None);
}

#[test]
fn find_pattern_all_wildcards_matches_at_zero() {
    assert_eq!(find_pattern(&BUFFER, &[None, None, None]), Some(0));
}

#[test]
fn find_pattern_all_fixed_equals_find_bytes() {
    let needles: [&[u8]; 4] = [&[0x10, 0x20, 0x30], &[6], &[2, 6], &[9, 9]];
    for needle in needles {
        let pattern: Vec<Option<u8>> = needle.iter().map(|b| Some(*b)).collect();
        assert_eq!(find_pattern(&BUFFER, &pattern), find_bytes(&BUFFER, needle));
    }
}

#[test]
fn find_pattern_longer_than_hay() {
    assert_eq!(find_pattern(&[1u8], &[None, None]), None);
}

#[test]
fn apply_mask_builds_pattern() {
    let pattern = apply_mask(&[0x10, 0, 0x30, 0, 0, 5, 2], b"x?x??xx").unwrap();
    assert_eq!(
        pattern,
        vec![Some(0x10), None, Some(0x30), None, None, Some(5), Some(2)]
    );
}

#[test]
fn apply_mask_all_fixed() {
    assert_eq!(apply_mask(&[1, 2], b"xx").unwrap(), vec![Some(1), Some(2)]);
}

#[test]
fn apply_mask_rejects_length_mismatch() {
    assert_eq!(apply_mask(&[1, 2, 3], b"xx"), Err(MemError::InvalidArgument));
    assert_eq!(apply_mask(&[1], b"xx"), Err(MemError::InvalidArgument));
}

#[test]
fn apply_mask_rejects_other_characters() {
    assert_eq!(apply_mask(&[1, 2], b"xX"), Err(MemError::InvalidArgument));
    assert_eq!(apply_mask(&[1, 2], b"x*"), Err(MemError::InvalidArgument));
    assert_eq!(apply_mask(&[1, 2], b" x"), Err(MemError::InvalidArgument));
}

#[test]
fn apply_mask_of_nothing_is_empty() {
    assert_eq!(apply_mask(&[], b"").unwrap(), Vec::<Option<u8>>::new());
}

#[test]
fn parse_signature_reads_tokens() {
    assert_eq!(
        parse_signature(b"10 ?? 30 ?? ?? 05 02").unwrap(),
        vec![Some(0x10), None, Some(0x30), None, None, Some(5), Some(2)]
    );
}

#[test]
fn parse_signature_reads_both_cases_of_hex() {
    assert_eq!(
        parse_signature(b"aB Cd eF 09 ff").unwrap(),
        vec![Some(0xAB), Some(0xCD), Some(0xEF), Some(0x09), Some(0xFF)]
    );
}

#[test]
fn parse_signature_single_token() {
    assert_eq!(parse_signature(b"7f").unwrap(), vec![Some(0x7F)]);
    assert_eq!(parse_signature(b"??").unwrap(), vec![None]);
}

#[test]
fn parse_signature_rejects_empty_text() {
    assert_eq!(parse_signature(b""), Err(MemError::InvalidArgument));
}

#[test]
fn parse_signature_rejects_odd_digits() {
    assert_eq!(parse_signature(b"1"), Err(MemError::InvalidArgument));
    assert_eq!(parse_signature(b"10 2"), Err(MemError::InvalidArgument));
    assert_eq!(parse_signature(b"102"), Err(MemError::InvalidArgument));
}

#[test]
fn parse_signature_rejects_non_hex() {
    assert_eq!(parse_signature(b"1g"), Err(MemError::InvalidArgument));
    assert_eq!(parse_signature(b"10 zz"), Err(MemError::InvalidArgument));
    assert_eq!(parse_signature(b"0x 10"), Err(MemError::InvalidArgument));
}

#[test]
fn parse_signature_rejects_wrong_wildcard() {
    assert_eq!(parse_signature(b"10 ?"), Err(MemError::InvalidArgument));
    assert_eq!(parse_signature(b"10 ?1"), Err(MemError::InvalidArgument));
    assert_eq!(parse_signature(b"10 1?"), Err(MemError::InvalidArgument));
    assert_eq!(parse_signature(b"10 **"), Err(MemError::InvalidArgument));
}

#[test]
fn parse_signature_rejects_stray_spaces() {
    assert_eq!(parse_signature(b" 10"), Err(MemError::InvalidArgument));
    assert_eq!(parse_signature(b"10 "), Err(MemError::InvalidArgument));
    assert_eq!(parse_signature(b"10  20"), Err(MemError::InvalidArgument));
    assert_eq!(parse_signature(b"10,20"), Err(MemError::InvalidArgument));
}

#[test]
fn signature_and_mask_give_the_same_pattern() {
    let from_mask = apply_mask(&[0x10, 0, 0x30, 0, 0, 5, 2], b"x?x??xx").unwrap();
    let from_text = parse_signature(b"10 ?? 30 ?? ?? 05 02").unwrap();
    assert_eq!(from_mask, from_text);
}
