//! Minimal x86-64 instruction encoder.
//!
//! Every encoder returns the exact byte sequence of one instruction, stated in
//! its contract.  Instructions travel between components as a length-prefixed
//! byte stream (`Assembly`): `[len0, bytes0.., len1, bytes1.., 0]`, where a
//! zero length terminates the stream.

use vstd::prelude::*;
use vstd::arithmetic::div_mod::{
    lemma_div_denominator, lemma_div_is_ordered, lemma_fundamental_div_mod, lemma_mod_bound,
    lemma_mod_multiples_vanish, lemma_small_mod,
};

verus! {

pub const ADD8: u8 = 0x00;
pub const ADD: u8 = 0x01;
pub const OR8: u8 = 0x08;
pub const OR: u8 = 0x09;
pub const ADC8: u8 = 0x10;
pub const ADC: u8 = 0x11;
pub const SBB8: u8 = 0x18;
pub const SBB: u8 = 0x19;
pub const AND8: u8 = 0x20;
pub const AND: u8 = 0x21;
pub const SUB8: u8 = 0x28;
pub const SUB: u8 = 0x29;
pub const XOR8: u8 = 0x30;
pub const XOR: u8 = 0x31;
pub const CMP8: u8 = 0x38;
pub const CMP: u8 = 0x39;
pub const REX_W: u8 = 0x48;
pub const ARITH8: u8 = 0x80;
pub const ARITH: u8 = 0x81;
pub const NOP: u8 = 0x90;
pub const RET: u8 = 0xC3;
pub const JMP: u8 = 0xE9;
pub const JMP8: u8 = 0xEB;

#[allow(non_upper_case_globals)]
pub const ax: u8 = 0;
#[allow(non_upper_case_globals)]
pub const cx: u8 = 1;
#[allow(non_upper_case_globals)]
pub const dx: u8 = 2;
#[allow(non_upper_case_globals)]
pub const bx: u8 = 3;
#[allow(non_upper_case_globals)]
pub const sp: u8 = 4;
#[allow(non_upper_case_globals)]
pub const bp: u8 = 5;
#[allow(non_upper_case_globals)]
pub const si: u8 = 6;
#[allow(non_upper_case_globals)]
pub const di: u8 = 7;

/// The eight register-to-register arithmetic/logical families, in opcode
/// order: family `k` has 32-bit opcode `0x01 + 8k` and immediate-form
/// ModR/M extension `k`.
pub enum ExtOp {
    Add,
    Or,
    Adc,
    Sbb,
    And,
    Sub,
    Xor,
    Cmp,
}

pub open spec fn spec_ext_code(op: ExtOp) -> u8 {
    match op {
        ExtOp::Add => 0,
        ExtOp::Or => 1,
        ExtOp::Adc => 2,
        ExtOp::Sbb => 3,
        ExtOp::And => 4,
        ExtOp::Sub => 5,
        ExtOp::Xor => 6,
        ExtOp::Cmp => 7,
    }
}

#[verifier::when_used_as_spec(spec_ext_code)]
pub fn ext_code(op: ExtOp) -> (r: u8)
    ensures
        r == spec_ext_code(op),
{
    match op {
        ExtOp::Add => 0,
        ExtOp::Or => 1,
        ExtOp::Adc => 2,
        ExtOp::Sbb => 3,
        ExtOp::And => 4,
        ExtOp::Sub => 5,
        ExtOp::Xor => 6,
        ExtOp::Cmp => 7,
    }
}

pub open spec fn spec_regreg(dst: u8, src: u8) -> u8 {
    (0xC0u8 | (src << 3) | dst) as u8
}

/// ModR/M byte for a register-to-register operation: mode 3, `src` in the
/// reg field, `dst` in the r/m field.
pub fn regreg(dst: u8, src: u8) -> (r: u8)
    requires
        dst < 8,
        src < 8,
    ensures
        r == spec_regreg(dst, src),
{
    0xC0u8 | (src << 3) | dst
}

pub open spec fn spec_extop(op: ExtOp, reg2: u8) -> u8 {
    (0xC0u8 | (spec_ext_code(op) << 3) | reg2) as u8
}

/// ModR/M byte for an immediate-form operation: mode 3, the opcode
/// extension in the reg field, `reg2` in the r/m field.
pub fn extop(op: ExtOp, reg2: u8) -> (r: u8)
    requires
        reg2 < 8,
    ensures
        r == spec_extop(op, reg2),
{
    0xC0u8 | (ext_code(op) << 3) | reg2
}

/// Displacement byte of a two-byte short jump from `from` to `to`:
/// the instruction occupies `[from, from + 2)`, so the encoded byte is
/// `(to - from - 2) mod 256`.
pub open spec fn jmp8_rel(to: int, from: int) -> int {
    (to - from - 2) % 256
}

/// Displacement of a five-byte near jump from `from` to `to`:
/// `(to - from - 5) mod 2^32`, stored little-endian.
pub open spec fn jmp_rel(to: int, from: int) -> int {
    (to - from - 5) % 0x1_0000_0000
}

/// Little-endian bytes of a 32-bit value.
pub open spec fn le32(v: int) -> Seq<u8> {
    seq![
        (v % 256) as u8,
        ((v / 256) % 256) as u8,
        ((v / 65536) % 256) as u8,
        ((v / 16777216) % 256) as u8,
    ]
}

pub open spec fn spec_jmp8(to: int, from: int) -> Seq<u8> {
    seq![JMP8, jmp8_rel(to, from) as u8]
}

pub open spec fn spec_jmp(to: int, from: int) -> Seq<u8> {
    seq![JMP] + le32(jmp_rel(to, from))
}

pub fn nop() -> (r: Vec<u8>)
    ensures
        r@ == seq![NOP],
{
    let mut v: Vec<u8> = Vec::new();
    v.push(NOP);
    proof {
        assert(v@ =~= seq![NOP]);
    }
    v
}

pub fn ret() -> (r: Vec<u8>)
    ensures
        r@ == seq![RET],
{
    let mut v: Vec<u8> = Vec::new();
    v.push(RET);
    proof {
        assert(v@ =~= seq![RET]);
    }
    v
}

pub fn rex_w() -> (r: Vec<u8>)
    ensures
        r@ == seq![REX_W],
{
    let mut v: Vec<u8> = Vec::new();
    v.push(REX_W);
    proof {
        assert(v@ =~= seq![REX_W]);
    }
    v
}

proof fn lemma_mod_shift_256(a: int, b: int, c: int)
    requires
        a >= 0,
        b >= 0,
    ensures
        (a % 256 + 512 - b % 256 + c) % 256 == (a - b + c) % 256,
{
    lemma_fundamental_div_mod(a, 256);
    lemma_fundamental_div_mod(b, 256);
    let qa = a / 256;
    let qb = b / 256;
    assert(a % 256 + 512 - b % 256 + c == 256 * (2 - qa + qb) + (a - b + c));
    lemma_mod_multiples_vanish(2 - qa + qb, a - b + c, 256);
}

/// Two-byte short relative jump to `to`, assuming the instruction's own
/// first byte sits at `from`.  `jmp8(x, x)` is the self-loop `[0xEB, 0xFE]`.
pub fn jmp8(to: usize, from: usize) -> (r: Vec<u8>)
    ensures
        r@ == spec_jmp8(to as int, from as int),
{
    let rel_big: usize = to % 256 + 512 - from % 256 - 2;
    let rel: u8 = (rel_big % 256) as u8;
    proof {
        lemma_mod_shift_256(to as int, from as int, -2);
    }
    let mut v: Vec<u8> = Vec::new();
    v.push(JMP8);
    v.push(rel);
    proof {
        assert(v@ =~= spec_jmp8(to as int, from as int));
    }
    v
}

proof fn lemma_mod_shift_2_32(a: int, b: int, c: int)
    requires
        a >= 0,
        b >= 0,
    ensures
        (a % 0x1_0000_0000 + 0x2_0000_0000 - b % 0x1_0000_0000 + c) % 0x1_0000_0000 == (a - b + c)
            % 0x1_0000_0000,
{
    lemma_fundamental_div_mod(a, 0x1_0000_0000);
    lemma_fundamental_div_mod(b, 0x1_0000_0000);
    let qa = a / 0x1_0000_0000;
    let qb = b / 0x1_0000_0000;
    assert(a % 0x1_0000_0000 + 0x2_0000_0000 - b % 0x1_0000_0000 + c == 0x1_0000_0000 * (2 - qa
        + qb) + (a - b + c));
    lemma_mod_multiples_vanish(2 - qa + qb, a - b + c, 0x1_0000_0000);
}

/// Five-byte near relative jump to `to`, with the instruction's first byte at
/// `from`; the 32-bit displacement is stored little-endian.
pub fn jmp(to: usize, from: usize) -> (r: Vec<u8>)
    ensures
        r@ == spec_jmp(to as int, from as int),
{
    let t: u64 = (to as u64) % 0x1_0000_0000;
    let f: u64 = (from as u64) % 0x1_0000_0000;
    let rel: u64 = (t + 0x2_0000_0000 - f - 5) % 0x1_0000_0000;
    proof {
        lemma_mod_shift_2_32(to as int, from as int, -5);
    }
    let mut v: Vec<u8> = Vec::new();
    v.push(JMP);
    v.push((rel % 256) as u8);
    v.push((rel / 256 % 256) as u8);
    v.push((rel / 65536 % 256) as u8);
    v.push((rel / 16777216 % 256) as u8);
    proof {
        assert(v@ =~= spec_jmp(to as int, from as int));
    }
    v
}

/// The four little-endian bytes of a 32-bit value recombine to that value.
pub proof fn lemma_le32_recompose(v: int)
    requires
        0 <= v < 0x1_0000_0000,
    ensures
        (le32(v)[0] as int) + 256 * (le32(v)[1] as int) + 65536 * (le32(v)[2] as int) + 16777216
            * (le32(v)[3] as int) == v,
{
    lemma_mod_bound(v, 256);
    lemma_mod_bound(v / 256, 256);
    lemma_mod_bound(v / 65536, 256);
    lemma_div_is_ordered(v, 0xFFFF_FFFF, 16777216);
    lemma_div_is_ordered(0, v, 16777216);
    lemma_small_mod((v / 16777216) as nat, 256nat);
    lemma_fundamental_div_mod(v, 256);
    lemma_fundamental_div_mod(v / 256, 256);
    lemma_fundamental_div_mod(v / 65536, 256);
    lemma_div_denominator(v, 256, 256);
    lemma_div_denominator(v, 65536, 256);
    assert(v / 256 / 256 == v / 65536);
    assert(v / 65536 / 256 == v / 16777216);
    assert(v == v % 256 + 256 * ((v / 256) % 256) + 65536 * ((v / 65536) % 256) + 16777216 * (v
        / 16777216)) by (nonlinear_arith)
        requires
            v == 256 * (v / 256) + v % 256,
            v / 256 == 256 * (v / 256 / 256) + (v / 256) % 256,
            v / 65536 == 256 * (v / 65536 / 256) + (v / 65536) % 256,
            v / 256 / 256 == v / 65536,
            v / 65536 / 256 == v / 16777216,
    ;
}

/// Round trip of the short-jump displacement: landing two bytes past `from`
/// and moving by the encoded displacement reaches `to`, modulo 256.
pub proof fn lemma_jmp8_roundtrip(to: int, from: int)
    ensures
        (from + 2 + jmp8_rel(to, from)) % 256 == to % 256,
{
    lemma_fundamental_div_mod(to - from - 2, 256);
    let q = (to - from - 2) / 256;
    assert(from + 2 + jmp8_rel(to, from) == 256 * (-q) + to);
    lemma_mod_multiples_vanish(-q, to, 256);
}

/// Round trip of the near-jump displacement: landing five bytes past `from`
/// and moving by the encoded displacement reaches `to`, modulo 2^32.
pub proof fn lemma_jmp_roundtrip(to: int, from: int)
    ensures
        (from + 5 + jmp_rel(to, from)) % 0x1_0000_0000 == to % 0x1_0000_0000,
{
    lemma_fundamental_div_mod(to - from - 5, 0x1_0000_0000);
    let q = (to - from - 5) / 0x1_0000_0000;
    assert(from + 5 + jmp_rel(to, from) == 0x1_0000_0000 * (-q) + to);
    lemma_mod_multiples_vanish(-q, to, 0x1_0000_0000);
}

/// A register-to-register instruction of any of the eight families, in
/// either width: `[opcode, ModR/M]`.
pub fn regreg_instr(opcode_byte: u8, to: u8, with: u8) -> (r: Vec<u8>)
    requires
        to < 8,
        with < 8,
    ensures
        r@ == seq![opcode_byte, spec_regreg(to, with)],
{
    let mut v: Vec<u8> = Vec::new();
    v.push(opcode_byte);
    v.push(regreg(to, with));
    proof {
        assert(v@ =~= seq![opcode_byte, spec_regreg(to, with)]);
    }
    v
}

pub fn add(to: u8, with: u8) -> (r: Vec<u8>)
    requires
        to < 8,
        with < 8,
    ensures
        r@ == seq![ADD, spec_regreg(to, with)],
{
    regreg_instr(ADD, to, with)
}

pub fn or(to: u8, with: u8) -> (r: Vec<u8>)
    requires
        to < 8,
        with < 8,
    ensures
        r@ == seq![OR, spec_regreg(to, with)],
{
    regreg_instr(OR, to, with)
}

pub fn adc(to: u8, with: u8) -> (r: Vec<u8>)
    requires
        to < 8,
        with < 8,
    ensures
        r@ == seq![ADC, spec_regreg(to, with)],
{
    regreg_instr(ADC, to, with)
}

pub fn sbb(to: u8, with: u8) -> (r: Vec<u8>)
    requires
        to < 8,
        with < 8,
    ensures
        r@ == seq![SBB, spec_regreg(to, with)],
{
    regreg_instr(SBB, to, with)
}

pub fn and(to: u8, with: u8) -> (r: Vec<u8>)
    requires
        to < 8,
        with < 8,
    ensures
        r@ == seq![AND, spec_regreg(to, with)],
{
    regreg_instr(AND, to, with)
}

pub fn sub(to: u8, with: u8) -> (r: Vec<u8>)
    requires
        to < 8,
        with < 8,
    ensures
        r@ == seq![SUB, spec_regreg(to, with)],
{
    regreg_instr(SUB, to, with)
}

pub fn xor(to: u8, with: u8) -> (r: Vec<u8>)
    requires
        to < 8,
        with < 8,
    ensures
        r@ == seq![XOR, spec_regreg(to, with)],
{
    regreg_instr(XOR, to, with)
}

pub fn cmp(to: u8, with: u8) -> (r: Vec<u8>)
    requires
        to < 8,
        with < 8,
    ensures
        r@ == seq![CMP, spec_regreg(to, with)],
{
    regreg_instr(CMP, to, with)
}

/// An immediate-form instruction with a 32-bit immediate:
/// `[0x81, ModR/M, imm as little-endian]`.
pub fn arith_imm(op: ExtOp, to: u8, operand: u32) -> (r: Vec<u8>)
    requires
        to < 8,
    ensures
        r@ == seq![ARITH, spec_extop(op, to)] + le32(operand as int),
{
    let mut v: Vec<u8> = Vec::new();
    v.push(ARITH);
    v.push(extop(op, to));
    v.push((operand % 256) as u8);
    v.push((operand / 256 % 256) as u8);
    v.push((operand / 65536 % 256) as u8);
    v.push((operand / 16777216 % 256) as u8);
    proof {
        assert(v@ =~= seq![ARITH, spec_extop(op, to)] + le32(operand as int));
    }
    v
}

/// An immediate-form instruction with an 8-bit immediate:
/// `[0x80, ModR/M, imm]`.
pub fn arith_imm8(op: ExtOp, to: u8, operand: u8) -> (r: Vec<u8>)
    requires
        to < 8,
    ensures
        r@ == seq![ARITH8, spec_extop(op, to), operand],
{
    let mut v: Vec<u8> = Vec::new();
    v.push(ARITH8);
    v.push(extop(op, to));
    v.push(operand);
    proof {
        assert(v@ =~= seq![ARITH8, spec_extop(op, to), operand]);
    }
    v
}

pub fn addi(to: u8, operand: u32) -> (r: Vec<u8>)
    requires
        to < 8,
    ensures
        r@ == seq![ARITH, spec_extop(ExtOp::Add, to)] + le32(operand as int),
{
    arith_imm(ExtOp::Add, to, operand)
}

pub fn ori(to: u8, operand: u32) -> (r: Vec<u8>)
    requires
        to < 8,
    ensures
        r@ == seq![ARITH, spec_extop(ExtOp::Or, to)] + le32(operand as int),
{
    arith_imm(ExtOp::Or, to, operand)
}

pub fn adci(to: u8, operand: u32) -> (r: Vec<u8>)
    requires
        to < 8,
    ensures
        r@ == seq![ARITH, spec_extop(ExtOp::Adc, to)] + le32(operand as int),
{
    arith_imm(ExtOp::Adc, to, operand)
}

pub fn sbbi(to: u8, operand: u32) -> (r: Vec<u8>)
    requires
        to < 8,
    ensures
        r@ == seq![ARITH, spec_extop(ExtOp::Sbb, to)] + le32(operand as int),
{
    arith_imm(ExtOp::Sbb, to, operand)
}

pub fn andi(to: u8, operand: u32) -> (r: Vec<u8>)
    requires
        to < 8,
    ensures
        r@ == seq![ARITH, spec_extop(ExtOp::And, to)] + le32(operand as int),
{
    arith_imm(ExtOp::And, to, operand)
}

pub fn subi(to: u8, operand: u32) -> (r: Vec<u8>)
    requires
        to < 8,
    ensures
        r@ == seq![ARITH, spec_extop(ExtOp::Sub, to)] + le32(operand as int),
{
    arith_imm(ExtOp::Sub, to, operand)
}

pub fn xori(to: u8, operand: u32) -> (r: Vec<u8>)
    requires
        to < 8,
    ensures
        r@ == seq![ARITH, spec_extop(ExtOp::Xor, to)] + le32(operand as int),
{
    arith_imm(ExtOp::Xor, to, operand)
}

pub fn cmpi(to: u8, operand: u32) -> (r: Vec<u8>)
    requires
        to < 8,
    ensures
        r@ == seq![ARITH, spec_extop(ExtOp::Cmp, to)] + le32(operand as int),
{
    arith_imm(ExtOp::Cmp, to, operand)
}

/// Well-formedness of a length-prefixed stream starting at offset `i`:
/// a chain of records `[len, bytes..]` with `len != 0`, ending on a zero
/// length, all within bounds.
pub open spec fn wf_at(s: Seq<u8>, i: int) -> bool
    decreases s.len() - i,
{
    &&& 0 <= i < s.len()
    &&& (s[i] == 0 || (i + 1 + s[i] <= s.len() && wf_at(s, i + 1 + s[i])))
}

/// The instructions encoded from offset `i` on.
pub open spec fn instrs_at(s: Seq<u8>, i: int) -> Seq<Seq<u8>>
    decreases s.len() - i,
{
    if 0 <= i < s.len() && s[i] != 0 && i + 1 + s[i] <= s.len() {
        seq![s.subrange(i + 1, i + 1 + s[i])] + instrs_at(s, i + 1 + s[i])
    } else {
        Seq::empty()
    }
}

/// The length-prefixed records of a list of instructions, without the
/// terminating zero byte.
pub open spec fn records_of(instrs: Seq<Seq<u8>>) -> Seq<u8>
    decreases instrs.len(),
{
    if instrs.len() == 0 {
        Seq::empty()
    } else {
        seq![instrs[0].len() as u8] + instrs[0] + records_of(instrs.drop_first())
    }
}

/// The full on-wire form of a list of instructions: its records followed by
/// the zero terminator.
pub open spec fn encode_stream(instrs: Seq<Seq<u8>>) -> Seq<u8> {
    records_of(instrs) + seq![0u8]
}

/// A single-pass reader over a length-prefixed instruction stream.
pub struct Assembly {
    pub dat: Vec<u8>,
    pub pos: usize,
}

impl Assembly {
    /// The reader is inside its buffer and the unread part is a well-formed
    /// stream.
    pub open spec fn wf(&self) -> bool {
        wf_at(self.dat@, self.pos as int)
    }

    /// The instructions not yet yielded.
    pub open spec fn remaining(&self) -> Seq<Seq<u8>> {
        instrs_at(self.dat@, self.pos as int)
    }

    /// Wrap a finished stream buffer for reading.
    pub fn create(dat: Vec<u8>) -> (r: Assembly)
        requires
            wf_at(dat@, 0),
        ensures
            r.dat == dat,
            r.pos == 0,
            r.wf(),
            r.remaining() == instrs_at(dat@, 0),
    {
        Assembly { dat, pos: 0 }
    }

    /// Yield the next instruction's bytes, or `None` at the terminator.
    pub fn next(&mut self) -> (r: Option<Vec<u8>>)
        requires
            old(self).wf(),
        ensures
            final(self).wf(),
            final(self).dat == old(self).dat,
            match r {
                Option::None => {
                    &&& old(self).remaining().len() == 0
                    &&& final(self).pos == old(self).pos
                },
                Option::Some(v) => {
                    &&& old(self).remaining().len() > 0
                    &&& v@ == old(self).remaining()[0]
                    &&& final(self).remaining() == old(self).remaining().drop_first()
                },
            },
    {
        let len = self.dat[self.pos] as usize;
        if len == 0 {
            None
        } else {
            let dlen = self.dat.len();
            proof {
                assert(self.pos + 1 + self.dat@[self.pos as int] <= dlen);
            }
            let start = self.pos + 1;
            let end = start + len;
            let mut out: Vec<u8> = Vec::new();
            let mut j: usize = start;
            while j < end
                invariant
                    start <= j <= end,
                    end <= self.dat@.len(),
                    out@ == self.dat@.subrange(start as int, j as int),
                decreases end - j,
            {
                out.push(self.dat[j]);
                proof {
                    assert(out@ =~= self.dat@.subrange(start as int, j + 1));
                }
                j += 1;
            }
            proof {
                assert(self.remaining()[0] == self.dat@.subrange(start as int, end as int));
                assert(instrs_at(self.dat@, end as int) =~= self.remaining().drop_first());
            }
            self.pos = end;
            Some(out)
        }
    }
}

proof fn lemma_wf_shift(p: Seq<u8>, t: Seq<u8>, i: int)
    requires
        0 <= i,
        wf_at(t, i),
    ensures
        wf_at(p + t, p.len() + i),
        instrs_at(p + t, p.len() + i) == instrs_at(t, i),
    decreases t.len() - i,
{
    let s = p + t;
    let n = p.len() as int;
    assert(s[n + i] == t[i]);
    if t[i] == 0 {
        assert(instrs_at(s, n + i) =~= instrs_at(t, i));
    } else {
        lemma_wf_shift(p, t, i + 1 + t[i]);
        assert(s.subrange(n + i + 1, n + i + 1 + s[n + i]) =~= t.subrange(i + 1, i + 1 + t[i]));
        assert(instrs_at(s, n + i) =~= instrs_at(t, i));
    }
}

proof fn lemma_encode_decodes(instrs: Seq<Seq<u8>>)
    requires
        forall|k: int| 0 <= k < instrs.len() ==> 1 <= #[trigger] instrs[k].len() <= 255,
    ensures
        wf_at(encode_stream(instrs), 0),
        instrs_at(encode_stream(instrs), 0) == instrs,
    decreases instrs.len(),
{
    let s = encode_stream(instrs);
    if instrs.len() == 0 {
        assert(s =~= seq![0u8]);
        assert(instrs_at(s, 0) =~= instrs);
    } else {
        let rest = instrs.drop_first();
        assert(forall|k: int|
            0 <= k < rest.len() ==> 1 <= #[trigger] rest[k].len() <= 255) by {
            assert(forall|k: int|
                0 <= k < rest.len() ==> rest[k] == instrs[k + 1]);
        }
        lemma_encode_decodes(rest);
        let head = seq![instrs[0].len() as u8] + instrs[0];
        assert(s =~= head + encode_stream(rest));
        lemma_wf_shift(head, encode_stream(rest), 0);
        assert(s[0] == instrs[0].len() as u8);
        assert(s.subrange(1, 1 + s[0]) =~= instrs[0]);
        assert(instrs_at(s, 0) =~= instrs);
    }
}

proof fn lemma_records_push(instrs: Seq<Seq<u8>>, x: Seq<u8>)
    ensures
        records_of(instrs.push(x)) == records_of(instrs) + seq![x.len() as u8] + x,
    decreases instrs.len(),
{
    if instrs.len() == 0 {
        assert(instrs.push(x).drop_first() =~= instrs);
        assert(records_of(instrs.push(x)) =~= records_of(instrs) + seq![x.len() as u8] + x);
    } else {
        assert(instrs.push(x).drop_first() =~= instrs.drop_first().push(x));
        lemma_records_push(instrs.drop_first(), x);
        assert(records_of(instrs.push(x)) =~= records_of(instrs) + seq![x.len() as u8] + x);
    }
}

/// Build the on-wire stream of a list of instructions and wrap it for
/// reading: the runtime counterpart of the original's compile-time
/// assembler.
pub fn assemble(instrs: &Vec<Vec<u8>>) -> (r: Assembly)
    requires
        forall|k: int| 0 <= k < instrs@.len() ==> 1 <= #[trigger] instrs@[k]@.len() <= 255,
    ensures
        r.pos == 0,
        r.wf(),
        r.dat@ == encode_stream(instrs.deep_view()),
        r.remaining() == instrs.deep_view(),
{
    let ghost deep = instrs.deep_view();
    let mut dat: Vec<u8> = Vec::new();
    let mut i: usize = 0;
    proof {
        assert(deep.take(0) =~= Seq::<Seq<u8>>::empty());
        assert(dat@ =~= records_of(deep.take(0)));
    }
    while i < instrs.len()
        invariant
            i <= instrs@.len(),
            deep == instrs.deep_view(),
            deep.len() == instrs@.len(),
            forall|k: int| 0 <= k < instrs@.len() ==> 1 <= #[trigger] instrs@[k]@.len() <= 255,
            forall|k: int| 0 <= k < deep.len() ==> deep[k] == instrs@[k]@,
            dat@ == records_of(deep.take(i as int)),
        decreases instrs@.len() - i,
    {
        let instr = &instrs[i];
        dat.push(instr.len() as u8);
        let mut j: usize = 0;
        let ghost mid = dat@;
        while j < instr.len()
            invariant
                j <= instr@.len(),
                dat@ == mid + instr@.subrange(0, j as int),
            decreases instr@.len() - j,
        {
            dat.push(instr[j]);
            proof {
                assert(dat@ =~= mid + instr@.subrange(0, j + 1));
            }
            j += 1;
        }
        proof {
            assert(instr@.subrange(0, instr@.len() as int) =~= instr@);
            lemma_records_push(deep.take(i as int), deep[i as int]);
            assert(deep.take(i + 1) =~= deep.take(i as int).push(deep[i as int]));
            assert(dat@ =~= records_of(deep.take(i + 1)));
        }
        i += 1;
    }
    dat.push(0);
    proof {
        assert(deep.take(deep.len() as int) =~= deep);
        assert(dat@ =~= encode_stream(deep));
        lemma_encode_decodes(deep);
    }
    Assembly::create(dat)
}

} // verus!
