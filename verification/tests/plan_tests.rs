use memhook::plan::{displaced_length, entry_code, original_bytes, trampoline_code};
use memhook::{Bits, Instruction, MemError};

fn insts(address: u64, sizes: &[usize]) -> Vec<Instruction> {
    let mut out = Vec::new();
    let mut at = address;
    for size in sizes {
        out.push(Instruction { address: at, size: *size, text: String::new() });
        at += *size as u64;
    }
    out
}

#[test]
fn displaced_length_covers_the_jump_with_whole_instructions() {
    let decoded = insts(0x1000, &[1, 3, 4, 5, 3]);
    assert_eq!(displaced_length(Bits::Bits32, &decoded, 0x1000, 0x2000), Ok(8));
    assert_eq!(displaced_length(Bits::Bits64, &decoded, 0x1000, 0x2000), Ok(16));
    let exact = insts(0x1000, &[2, 3, 9]);
    assert_eq!(displaced_length(Bits::Bits32, &exact, 0x1000, 0x2000), Ok(5));
    assert_eq!(displaced_length(Bits::Bits64, &exact, 0x1000, 0x2000), Ok(14));
}

#[test]
fn displaced_length_failures() {
    let decoded = insts(0x1000, &[1, 3]);
    assert_eq!(
        displaced_length(Bits::Bits32, &decoded, 0x1000, 0x2000),
        Err(MemError::DisassemblyError)
    );
    let decoded = insts(0x1000, &[1, 3, 4]);
    assert_eq!(
        displaced_length(Bits::Bits32, &decoded, 0x1000, 0x1_0000_0000),
        Err(MemError::InvalidArgument)
    );
    assert_eq!(
        displaced_length(Bits::Bits32, &insts(0x1_0000_0000, &[5]), 0x1_0000_0000, 0x2000),
        Err(MemError::InvalidArgument)
    );
    assert_eq!(
        displaced_length(Bits::Bits64, &insts(0x1_0000_0000, &[14]), 0x1_0000_0000, u64::MAX),
        Ok(14)
    );
}

#[test]
fn trampoline_code_is_original_and_jump_back() {
    let original = [0x55u8, 0x89, 0xE5, 0x83, 0xEC];
    assert_eq!(
        trampoline_code(Bits::Bits32, &original, 0x5000, 0x1000),
        Ok(vec![0x55, 0x89, 0xE5, 0x83, 0xEC, 0xE9, 0xFB, 0xBF, 0xFF, 0xFF])
    );
    let wide = trampoline_code(Bits::Bits64, &original, 0x5000, 0x1000).unwrap();
    assert_eq!(wide.len(), 19);
    assert_eq!(&wide[..5], &original);
    assert_eq!(&wide[5..], &[0xFF, 0x25, 0, 0, 0, 0, 0x05, 0x10, 0, 0, 0, 0, 0, 0]);
    assert_eq!(
        trampoline_code(Bits::Bits32, &[], 0x5000, 0x1000),
        Ok(vec![0xE9, 0xFB, 0xBF, 0xFF, 0xFF])
    );
}

#[test]
fn trampoline_code_failures() {
    let long = vec![0x90u8; 4092];
    assert_eq!(
        trampoline_code(Bits::Bits32, &long, 0x5000, 0x1000),
        Err(MemError::AllocationError)
    );
    assert_eq!(trampoline_code(Bits::Bits32, &long[..4091], 0x5000, 0x1000).unwrap().len(), 4096);
    assert_eq!(
        trampoline_code(Bits::Bits64, &long[..4083], 0x5000, 0x1000),
        Err(MemError::AllocationError)
    );
    let short = [0x90u8; 5];
    assert_eq!(
        trampoline_code(Bits::Bits32, &short, u64::MAX - 4, 0x1000),
        Err(MemError::AccessError)
    );
    assert_eq!(
        trampoline_code(Bits::Bits32, &short, 0x5000, u64::MAX - 4),
        Err(MemError::AccessError)
    );
    assert!(trampoline_code(Bits::Bits32, &short, u64::MAX - 5, 0x1000).is_ok());
}

#[test]
fn entry_code_is_jump_and_padding() {
    assert_eq!(
        entry_code(Bits::Bits32, 0x1000, 0x2000, 8),
        Ok(vec![0xE9, 0xFB, 0x0F, 0x00, 0x00, 0x90, 0x90, 0x90])
    );
    assert_eq!(entry_code(Bits::Bits32, 0x1000, 0x2000, 5), Ok(vec![0xE9, 0xFB, 0x0F, 0x00, 0x00]));
    assert_eq!(entry_code(Bits::Bits32, 0x1000, 0x2000, 4), Err(MemError::InvalidArgument));
    assert_eq!(entry_code(Bits::Bits64, 0x1000, 0x2000, 13), Err(MemError::InvalidArgument));
    assert_eq!(entry_code(Bits::Bits64, 0x1000, 0x2000, 14).unwrap().len(), 14);
    let wide = entry_code(Bits::Bits64, 0x1000, 0x7000, 16).unwrap();
    assert_eq!(
        wide,
        vec![0xFF, 0x25, 0, 0, 0, 0, 0x00, 0x70, 0, 0, 0, 0, 0, 0, 0x90, 0x90]
    );
}

#[test]
fn original_bytes_come_back_out_of_a_trampoline() {
    let original: Vec<u8> = (1..=16u8).collect();
    for bits in [Bits::Bits32, Bits::Bits64] {
        let code = trampoline_code(bits, &original, 0x5000, 0x1000).unwrap();
        assert_eq!(original_bytes(bits, &code, 0x5000, 0x1000, 16), Ok(original.clone()));
    }
    // fewer bytes than the jump of the target has were never displaced
    let few = [0x55u8, 0x89, 0xE5, 0x83, 0xEC, 0x10];
    let code = trampoline_code(Bits::Bits64, &few, 0x5000, 0x1000).unwrap();
    assert_eq!(
        original_bytes(Bits::Bits64, &code, 0x5000, 0x1000, 6),
        Err(MemError::InvalidArgument)
    );
    let code = trampoline_code(Bits::Bits32, &few, 0x5000, 0x1000).unwrap();
    assert_eq!(original_bytes(Bits::Bits32, &code, 0x5000, 0x1000, 6), Ok(few.to_vec()));
}

#[test]
fn original_bytes_rejects_what_is_no_trampoline_of_the_site() {
    let original = [0x55u8, 0x89, 0xE5, 0x83, 0xEC, 0x10];
    let code = trampoline_code(Bits::Bits32, &original, 0x5000, 0x1000).unwrap();
    let bad = Err(MemError::InvalidArgument);
    // another site, another address, another size
    assert_eq!(original_bytes(Bits::Bits32, &code, 0x5000, 0x1001, 6), bad);
    assert_eq!(original_bytes(Bits::Bits32, &code, 0x5001, 0x1000, 6), bad);
    assert_eq!(original_bytes(Bits::Bits32, &code, 0x5000, 0x1000, 5), bad);
    assert_eq!(original_bytes(Bits::Bits32, &code[..10], 0x5000, 0x1000, 5), bad);
    // a size below the jump, bytes that are too few
    assert_eq!(original_bytes(Bits::Bits32, &code[..9], 0x5000, 0x1000, 4), bad);
    assert_eq!(original_bytes(Bits::Bits32, &[], 0x5000, 0x1000, 6), bad);
    // a changed jump back
    let mut changed = code.clone();
    changed[7] ^= 1;
    assert_eq!(original_bytes(Bits::Bits32, &changed, 0x5000, 0x1000, 6), bad);
    // ends that are no addresses
    assert_eq!(original_bytes(Bits::Bits32, &code, u64::MAX, 0x1000, 6), bad);
    assert_eq!(original_bytes(Bits::Bits32, &code, 0x5000, u64::MAX, 6), bad);
    // the other width
    assert_eq!(original_bytes(Bits::Bits64, &code, 0x5000, 0x1000, 6), bad);
}
