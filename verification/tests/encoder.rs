use jitbuf::x64asm::{
    addi, arith_imm8, assemble, ax, bx, cx, extop, jmp, jmp8, nop, regreg, ret, rex_w, xor,
    Assembly, ExtOp,
};

#[test]
fn test_assemble_macro() {
    let instrs = vec![nop(), nop(), nop(), jmp(0, 0), nop()];
    let stream = assemble(&instrs);
    assert_eq!(
        &stream.dat[..15],
        &[1, 0x90, 1, 0x90, 1, 0x90, 5, 0xE9, 0xFB, 0xFF, 0xFF, 0xFF, 1, 0x90, 0]
    );
}

#[test]
fn test_asm_iter() {
    let instrs = vec![nop(), nop(), nop(), jmp(0, 0), nop()];
    let mut stream = assemble(&instrs);
    let mut nop_vec: Vec<Vec<u8>> = Vec::new();
    while let Some(instr) = stream.next() {
        nop_vec.push(instr);
    }
    assert_eq!(
        &nop_vec[..],
        &[
            vec![0x90],
            vec![0x90],
            vec![0x90],
            vec![0xE9, 0xFB, 0xFF, 0xFF, 0xFF],
            vec![0x90]
        ]
    );
}

#[test]
fn test_arith_regreg() {
    let buf = xor(ax, bx);
    assert_eq!(&buf[..], &[0x31, 0xd8]);
}

#[test]
fn self_jump_bytes() {
    assert_eq!(jmp8(0, 0), vec![0xEB, 0xFE]);
    assert_eq!(jmp8(77, 77), vec![0xEB, 0xFE]);
    // jumping forward by one instruction slot
    assert_eq!(jmp8(10, 4), vec![0xEB, 4]);
}

#[test]
fn near_jump_wraps() {
    // backward jump: displacement is the two's-complement distance
    assert_eq!(jmp(0, 0), vec![0xE9, 0xFB, 0xFF, 0xFF, 0xFF]);
    assert_eq!(jmp(0x100, 0x100), vec![0xE9, 0xFB, 0xFF, 0xFF, 0xFF]);
    // forward jump by 0x10 from the byte after the instruction
    assert_eq!(jmp(0x15, 0x0), vec![0xE9, 0x10, 0x00, 0x00, 0x00]);
}

#[test]
fn single_byte_opcodes() {
    assert_eq!(nop(), vec![0x90]);
    assert_eq!(ret(), vec![0xC3]);
    assert_eq!(rex_w(), vec![0x48]);
}

#[test]
fn modrm_bytes() {
    assert_eq!(regreg(ax, bx), 0xD8);
    assert_eq!(regreg(cx, cx), 0xC9);
    assert_eq!(extop(ExtOp::Add, ax), 0xC0);
    assert_eq!(extop(ExtOp::Xor, bx), 0xF3);
}

#[test]
fn immediate_forms() {
    assert_eq!(addi(ax, 20), vec![0x81, 0xC0, 20, 0, 0, 0]);
    assert_eq!(addi(ax, 0x01020304), vec![0x81, 0xC0, 0x04, 0x03, 0x02, 0x01]);
    assert_eq!(arith_imm8(ExtOp::Sub, cx, 7), vec![0x80, 0xE9, 7]);
}

#[test]
fn reader_stops_at_terminator() {
    let mut stream = Assembly::create(vec![0]);
    assert_eq!(stream.next(), None);
    assert_eq!(stream.next(), None);

    let mut stream = assemble(&vec![ret()]);
    assert_eq!(stream.next(), Some(vec![0xC3]));
    assert_eq!(stream.next(), None);
}
