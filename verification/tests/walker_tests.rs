use memhook::{deep_pointer, AddressSpace, Bits, MemError, Prot, Target};

fn space(bits: Bits) -> (AddressSpace, u64) {
    let mut s = AddressSpace::new(Target::Remote { handle: 5, bits });
    let page = s.allocate(0, Prot::rw()).unwrap();
    (s, page)
}

#[test]
fn deep_pointer_without_offsets_is_the_base() {
    let (s, _) = space(Bits::Bits64);
    assert_eq!(deep_pointer(&s, 0xdeadbeef, &[]), Ok(0xdeadbeef));
    assert_eq!(deep_pointer(&s, 0, &[]), Ok(0));
    assert_eq!(deep_pointer(&s, u64::MAX, &[]), Ok(u64::MAX));
}

#[test]
fn deep_pointer_with_one_offset_adds_without_reading() {
    let (s, _) = space(Bits::Bits64);
    // nothing is mapped at the base, and nothing needs to be
    assert_eq!(deep_pointer(&s, 0x9000_0000, &[0xF0]), Ok(0x9000_00F0));
    assert_eq!(deep_pointer(&s, 0x9000_0000, &[0]), Ok(0x9000_0000));
}

#[test]
fn deep_pointer_reaches_field_at_offset_0xf0() {
    let (mut s, player) = space(Bits::Bits64);
    s.write_uint(player + 0xF0, 4, 42).unwrap();
    let health = deep_pointer(&s, player, &[0xF0]).unwrap();
    assert_eq!(health, player + 0xF0);
    assert_eq!(s.read_uint(health, 4), Ok(42));
    s.write_uint(health, 4, 1337).unwrap();
    assert_eq!(s.read_uint(player + 0xF0, 4), Ok(1337));
}

#[test]
fn deep_pointer_dereferences_for_every_offset_but_the_last() {
    let (mut s, page) = space(Bits::Bits64);
    let layer = page;
    let player = page + 0x100;
    let item = page + 0x400;
    s.write_pointer(layer, player).unwrap();
    s.write_pointer(player + 0x20, item).unwrap();
    s.write_uint(item + 0x18, 4, 7).unwrap();
    // one dereference: *layer + 0x08 + 0xF0
    assert_eq!(deep_pointer(&s, layer, &[0x08, 0xF0]), Ok(player + 0xF8));
    // two dereferences: *(*layer + 0x20) + 0x10 + 0x08
    assert_eq!(deep_pointer(&s, layer, &[0x20, 0x10, 0x08]), Ok(item + 0x18));
    let found = deep_pointer(&s, layer, &[0x20, 0x10, 0x08]).unwrap();
    assert_eq!(s.read_uint(found, 4), Ok(7));
}

#[test]
fn deep_pointer_fails_at_first_unreadable_pointer() {
    let (mut s, page) = space(Bits::Bits64);
    assert_eq!(deep_pointer(&s, 0x9000_0000, &[0, 0]), Err(MemError::AccessError));
    s.write_pointer(page, 0x9000_0000).unwrap();
    assert_eq!(deep_pointer(&s, page, &[0, 0]), Ok(0x9000_0000));
    assert_eq!(deep_pointer(&s, page, &[0, 0, 0]), Err(MemError::AccessError));
    // the last bytes of the pointer lie outside the page
    assert_eq!(deep_pointer(&s, page + 0xFFC, &[0, 0]), Err(MemError::AccessError));
}

#[test]
fn deep_pointer_does_not_check_the_result() {
    let (mut s, page) = space(Bits::Bits64);
    s.write_pointer(page, 0x7777_0000).unwrap();
    let result = deep_pointer(&s, page, &[0x10, 0x20]).unwrap();
    assert_eq!(result, 0x7777_0030);
    assert_eq!(s.read(result, 1), Err(MemError::AccessError));
}

#[test]
fn deep_pointer_reads_pointers_of_the_target_width() {
    let (mut s, page) = space(Bits::Bits32);
    s.write(page, &[0x00, 0x20, 0x00, 0x00, 0xFF, 0xFF, 0xFF, 0xFF]).unwrap();
    assert_eq!(deep_pointer(&s, page, &[4, 0]), Ok(0x2004));
}

#[test]
fn deep_pointer_wraps_at_the_target_width() {
    let (s32, _) = space(Bits::Bits32);
    assert_eq!(deep_pointer(&s32, 0xFFFF_FFF0, &[0x20]), Ok(0x10));
    assert_eq!(deep_pointer(&s32, 0xFFFF_FFF0, &[0x0F]), Ok(0xFFFF_FFFF));
    let (s64, _) = space(Bits::Bits64);
    assert_eq!(deep_pointer(&s64, u64::MAX, &[2]), Ok(1));
    assert_eq!(deep_pointer(&s64, 0xFFFF_FFF0, &[0x20]), Ok(0x1_0000_0010));
}

#[test]
fn deep_pointer_on_dead_target() {
    let (mut s, page) = space(Bits::Bits64);
    s.write_pointer(page, page).unwrap();
    s.terminate();
    assert_eq!(deep_pointer(&s, page, &[]), Ok(page));
    assert_eq!(deep_pointer(&s, page, &[8]), Ok(page + 8));
    assert_eq!(deep_pointer(&s, page, &[8, 8]), Err(MemError::AccessError));
}
