use jitbuf::x64asm::{addi, ax, nop, ret, rex_w, xor};
use jitbuf::{JitBuffer, JitPage, PAGE_SIZE};

fn chain_length(tail: &JitPage) -> usize {
    let mut count = 1usize;
    let mut cur = tail;
    while let Some(prev) = cur.prev_page.as_ref() {
        count += 1;
        cur = prev;
    }
    count
}

fn flat(instrs: &[Vec<u8>]) -> Vec<u8> {
    let mut out = Vec::new();
    for i in instrs {
        out.extend_from_slice(i);
    }
    out
}

#[test]
fn fresh_page_shape() {
    let buf = JitBuffer::new();
    let p = &buf.curr_page;
    assert_eq!(p.page.len(), PAGE_SIZE);
    assert_eq!(p.loop_pos, 0);
    assert_eq!(&p.page[0..2], &[0xEB, 0xFE]);
    assert!(p.page[2..].iter().all(|&b| b == 0x90));
    assert_eq!(buf.start_func().addr(), 0);
}

#[test]
fn return_twenty_bytes() {
    // the "return twenty" body: xor ax,ax; add ax,20; ret with REX.W prefixes
    let mut buf = JitBuffer::new();
    let instrs = vec![rex_w(), xor(ax, ax), rex_w(), addi(ax, 20), ret()];
    let expect = flat(&instrs);
    buf.push_instrs(&instrs);
    let p = &buf.curr_page;
    // the emitted byte stream reads back from offset 2 of page 0
    assert_eq!(&p.page[2..2 + expect.len()], &expect[..]);
    // the old loop was published away
    assert_eq!(&p.page[0..2], &[0x90, 0x90]);
    // the relocated loop is aligned, in the code region, and live
    assert_eq!(p.loop_pos % 4, 0);
    assert!(p.loop_pos + 2 <= p.page.len() - 8);
    assert_eq!(&p.page[p.loop_pos..p.loop_pos + 2], &[0xEB, 0xFE]);
    // padding between the last emitted byte and the loop is no-op
    assert!(p.page[2 + expect.len()..p.loop_pos].iter().all(|&b| b == 0x90));
}

#[test]
fn empty_release() {
    let mut buf = JitBuffer::new();
    let entry = buf.start_func().addr();
    buf.push_instrs(&Vec::new());
    let p = &buf.curr_page;
    // the old loop at the entry address is now two no-ops
    assert_eq!(&p.page[entry..entry + 2], &[0x90, 0x90]);
    // a fresh loop was installed on the next aligned word
    assert_eq!(p.loop_pos, 4);
    assert_eq!(&p.page[4..6], &[0xEB, 0xFE]);
    assert_eq!(&p.page[2..4], &[0x90, 0x90]);
    // a consumer released here runs no-ops only until the new loop; a
    // subsequent ret would let it return
    let mut buf2 = buf;
    buf2.push_instrs(&vec![ret()]);
    assert_eq!(buf2.curr_page.page[6], 0xC3);
}

#[test]
fn boundary_fill_no_bridge() {
    // page of 16 bytes: code region is 8 bytes; a fresh page writes from
    // offset 2, and an append fits while it ends below offset 8
    let p = JitPage::map_at(0, 16);
    let five = vec![nop(), nop(), nop(), nop(), nop()];
    let p = p.push_instrs(&five);
    assert_eq!(chain_length(&p), 1);
    assert_eq!(p.base, 0);
    // one byte more must bridge into a successor page
    let q = JitPage::map_at(0, 16);
    let six = vec![nop(), nop(), nop(), nop(), nop(), nop()];
    let q = q.push_instrs(&six);
    assert_eq!(chain_length(&q), 2);
    assert_ne!(q.base, 0);
}

#[test]
fn largest_single_instruction() {
    // on a 16-byte page the largest single instruction is code_size - 3 = 5
    // bytes: it lands exactly on the last writable byte of a fresh page
    let p = JitPage::map_at(0, 16);
    let instr = vec![vec![0x90, 0x90, 0x90, 0x90, 0xC3]];
    let p = p.push_instrs(&instr);
    assert_eq!(chain_length(&p), 1);
    assert_eq!(&p.page[2..7], &[0x90, 0x90, 0x90, 0x90, 0xC3]);
}

#[test]
fn page_bridge() {
    let p = JitPage::map_at(0, 16);
    let instrs = vec![nop(), nop(), nop(), nop(), nop(), ret()];
    let tail = p.push_instrs(&instrs);
    assert!(chain_length(&tail) >= 2);
    let first = tail.prev_page.as_ref().unwrap();
    let cs = first.page.len() - 8;
    // the retired page parked its loop at code_size and broke it
    assert_eq!(first.loop_pos, cs);
    assert_eq!(&first.page[cs..cs + 2], &[0x90, 0x90]);
    // its bridge decodes to a near jump landing on the successor's base
    assert_eq!(first.page[cs + 2], 0xE9);
    let rel = u32::from_le_bytes([
        first.page[cs + 3],
        first.page[cs + 4],
        first.page[cs + 5],
        first.page[cs + 6],
    ]);
    let jump_addr = first.base as u64 + cs as u64 + 2;
    let target = (jump_addr + 5).wrapping_add(rel as u64) & 0xFFFF_FFFF;
    assert_eq!(target, tail.base as u64 & 0xFFFF_FFFF);
    // the deferred instruction continued in the successor
    assert_eq!(tail.page[2], 0xC3);
}

#[test]
fn chain_teardown() {
    let mut p = JitPage::map_at(0, 16);
    let six = vec![nop(), nop(), nop(), nop(), nop(), nop()];
    for _ in 0..10_000 {
        p = p.push_instrs(&six);
    }
    assert!(chain_length(&p) >= 10_000);
    // dropping the tail must unlink the whole chain without recursing
    drop(p);
}

#[test]
fn tail_loop_invariant_over_many_pushes() {
    let mut buf = JitBuffer::new();
    for step in 0..50usize {
        let mut instrs = Vec::new();
        for _ in 0..step % 7 {
            instrs.push(nop());
        }
        instrs.push(addi(ax, step as u32));
        buf.push_instrs(&instrs);
        let p = &buf.curr_page;
        assert_eq!(p.loop_pos % 4, 0);
        assert!(p.loop_pos + 2 <= p.page.len() - 8);
        assert_eq!(&p.page[p.loop_pos..p.loop_pos + 2], &[0xEB, 0xFE]);
        assert!(p.page[p.loop_pos + 2..].iter().all(|&b| b == 0x90));
    }
}

#[test]
fn empty_push_on_full_page_changes_nothing() {
    // fill a 16-byte page so its loop parks on the code boundary: no aligned
    // slot remains, and an empty append must neither move nor break the loop
    let p = JitPage::map_at(0, 16);
    let five = vec![nop(), nop(), nop(), nop(), nop()];
    let p = p.push_instrs(&five);
    assert_eq!(p.loop_pos, 8);
    let before = p.page.clone();
    let p = p.push_instrs(&Vec::new());
    assert_eq!(p.loop_pos, 8);
    assert_eq!(p.page, before);
    assert_eq!(chain_length(&p), 1);
}
