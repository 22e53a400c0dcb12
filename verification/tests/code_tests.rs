use memhook::code::{code_length, jump_code, jump_size, nop, Instruction};
use memhook::{Bits, MemError};

fn chain(address: u64, sizes: &[usize]) -> Vec<Instruction> {
    let mut out = Vec::new();
    let mut at = address;
    for size in sizes {
        out.push(Instruction { address: at, size: *size, text: String::from("op") });
        at += *size as u64;
    }
    out
}

#[test]
fn jump_size_is_five_or_fourteen() {
    assert_eq!(jump_size(Bits::Bits32), 5);
    assert_eq!(jump_size(Bits::Bits64), 14);
}

#[test]
fn nop_is_0x90() {
    assert_eq!(nop(Bits::Bits32), 0x90);
    assert_eq!(nop(Bits::Bits64), 0x90);
}

#[test]
fn jump_code_32_forward() {
    assert_eq!(jump_code(Bits::Bits32, 0x1000, 0x2000), vec![0xE9, 0xFB, 0x0F, 0x00, 0x00]);
}

#[test]
fn jump_code_32_backward_wraps() {
    assert_eq!(jump_code(Bits::Bits32, 0x2000, 0x1000), vec![0xE9, 0xFB, 0xEF, 0xFF, 0xFF]);
}

#[test]
fn jump_code_32_to_next_instruction_is_zero_distance() {
    assert_eq!(jump_code(Bits::Bits32, 0x4000, 0x4005), vec![0xE9, 0, 0, 0, 0]);
}

#[test]
fn jump_code_32_to_itself() {
    assert_eq!(jump_code(Bits::Bits32, 0x4000, 0x4000), vec![0xE9, 0xFB, 0xFF, 0xFF, 0xFF]);
}

#[test]
fn jump_code_64_holds_the_destination() {
    assert_eq!(
        jump_code(Bits::Bits64, 0x1000, 0x1122334455667788),
        vec![0xFF, 0x25, 0, 0, 0, 0, 0x88, 0x77, 0x66, 0x55, 0x44, 0x33, 0x22, 0x11]
    );
    assert_eq!(
        jump_code(Bits::Bits64, 0xFFFF_0000, 0x7000),
        vec![0xFF, 0x25, 0, 0, 0, 0, 0x00, 0x70, 0, 0, 0, 0, 0, 0]
    );
}

#[test]
fn code_length_stops_on_instruction_boundary() {
    // push rbp; mov rbp, rsp; mov rsp, rbp; pop rbp; ret
    let insts = chain(0xdeadbeef, &[1, 3, 3, 1, 1]);
    assert_eq!(code_length(&insts, 0xdeadbeef, 3), Ok(4));
    assert_eq!(code_length(&insts, 0xdeadbeef, 1), Ok(1));
    assert_eq!(code_length(&insts, 0xdeadbeef, 2), Ok(4));
    assert_eq!(code_length(&insts, 0xdeadbeef, 4), Ok(4));
    assert_eq!(code_length(&insts, 0xdeadbeef, 5), Ok(7));
    assert_eq!(code_length(&insts, 0xdeadbeef, 9), Ok(9));
}

#[test]
fn code_length_never_splits_an_instruction() {
    let sizes = [2usize, 5, 1, 7, 3, 4];
    let insts = chain(0x40_0000, &sizes);
    let mut boundaries = vec![];
    let mut total = 0;
    for s in sizes {
        total += s;
        boundaries.push(total);
    }
    for min in 1..=total {
        let n = code_length(&insts, 0x40_0000, min).unwrap();
        assert!(n >= min);
        assert!(boundaries.contains(&n));
        let prior = boundaries.iter().filter(|b| **b < n).max().copied().unwrap_or(0);
        assert!(prior < min);
    }
}

#[test]
fn code_length_fails_when_instructions_run_out() {
    let insts = chain(0x1000, &[1, 3]);
    assert_eq!(code_length(&insts, 0x1000, 5), Err(MemError::DisassemblyError));
    assert_eq!(code_length(&[], 0x1000, 1), Err(MemError::DisassemblyError));
}

#[test]
fn code_length_rejects_zero_bytes() {
    let insts = chain(0x1000, &[1, 3]);
    assert_eq!(code_length(&insts, 0x1000, 0), Err(MemError::InvalidArgument));
}

#[test]
fn code_length_fails_on_gap_in_chain() {
    let mut insts = chain(0x1000, &[2, 2, 3]);
    insts[1].address = 0x1003;
    assert_eq!(code_length(&insts, 0x1000, 2), Ok(2));
    assert_eq!(code_length(&insts, 0x1000, 3), Err(MemError::DisassemblyError));
}

#[test]
fn code_length_fails_when_first_instruction_is_elsewhere() {
    let insts = chain(0x1001, &[2, 2, 3]);
    assert_eq!(code_length(&insts, 0x1000, 1), Err(MemError::DisassemblyError));
}

#[test]
fn code_length_fails_on_empty_instruction() {
    let insts = chain(0x1000, &[2, 0, 3]);
    assert_eq!(code_length(&insts, 0x1000, 2), Ok(2));
    assert_eq!(code_length(&insts, 0x1000, 3), Err(MemError::DisassemblyError));
}

#[test]
fn code_length_fails_when_total_does_not_fit() {
    let insts = vec![
        Instruction { address: 0, size: usize::MAX, text: String::new() },
        Instruction { address: usize::MAX as u64, size: 1, text: String::new() },
    ];
    assert_eq!(code_length(&insts, 0, usize::MAX), Ok(usize::MAX));
    let insts = vec![
        Instruction { address: 0, size: 2, text: String::new() },
        Instruction { address: 2, size: usize::MAX, text: String::new() },
    ];
    assert_eq!(code_length(&insts, 0, 3), Err(MemError::DisassemblyError));
}
