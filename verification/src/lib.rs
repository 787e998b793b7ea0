//! A streaming just-in-time code buffer.
//!
//! A producer thread appends x86-64 instructions to an executable page while a
//! consumer thread, already running inside the page, spins in a two-byte
//! self-loop (`[0xEB, 0xFE]`) at the page's tail.  Publishing new code means
//! overwriting that loop with two no-ops; when a page fills, a five-byte near
//! jump bridges it to a freshly mapped successor and the old page is kept
//! alive as the successor's predecessor.
//!
//! The library verifies the byte-level page model: where the live loop sits,
//! what every append writes, and that each retired page carries a bridge that
//! lands on its successor's base.  The unverifiable edge — RW+X mappings, the
//! fence plus atomic 2-byte store that realizes publication, and casting a
//! code address to a callable function pointer — lives outside the library;
//! here a page is a byte vector at a nominal base address, with successors
//! laid out contiguously, as a reserved code arena would.

use vstd::prelude::*;
use vstd::arithmetic::div_mod::{lemma_fundamental_div_mod, lemma_mod_bound, lemma_mod_multiples_vanish};
use vstd::arithmetic::mul::{
    lemma_mul_basics, lemma_mul_inequality, lemma_mul_is_distributive_add_other_way,
    lemma_mul_strict_inequality,
};

pub mod extfn;
pub mod x64asm;

use crate::extfn::ExtFn;
use crate::x64asm::{jmp_rel, lemma_jmp_roundtrip, lemma_le32_recompose, spec_jmp};

verus! {

/// Size in bytes of one executable page.
pub const PAGE_SIZE: usize = 0x10000;

/// All bytes of `s` in `[lo, hi)` are the no-op opcode.
pub open spec fn all_nop(s: Seq<u8>, lo: int, hi: int) -> bool {
    forall|j: int| lo <= j < hi ==> s[j] == 0x90u8
}

/// The views of a list of instructions.
pub open spec fn views_of(instrs: Seq<Vec<u8>>) -> Seq<Seq<u8>> {
    instrs.map_values(|v: Vec<u8>| v@)
}

/// The next 4-byte-aligned position strictly past `x`.
pub open spec fn align4(x: int) -> int {
    (x + 4) / 4 * 4
}

/// One page of the code buffer: the page bytes, the offset of the trailing
/// self-loop, the page's base address, and the retired predecessor chain
/// that is kept alive while the consumer may still run inside it.
pub struct JitPage {
    pub page: Vec<u8>,
    pub loop_pos: usize,
    pub base: usize,
    pub prev_page: Option<Box<JitPage>>,
}

impl JitPage {
    /// Highest offset at which client instructions may be written; the final
    /// eight bytes are reserved for the bridge jump and its headroom.
    pub open spec fn code_size(self) -> int {
        self.page@.len() - 8
    }

    /// Shape of a live (tail) page: the loop is 4-byte aligned and inside the
    /// code region, its two bytes read `[0xEB, 0xFE]`, and everything past it
    /// is still no-op filler.
    pub open spec fn local_wf(self) -> bool {
        &&& self.page@.len() >= 16
        &&& self.page@.len() as int % 4 == 0
        &&& self.loop_pos as int % 4 == 0
        &&& self.loop_pos <= self.code_size()
        &&& self.page@[self.loop_pos as int] == 0xEBu8
        &&& self.page@[self.loop_pos + 1] == 0xFEu8
        &&& all_nop(self.page@, self.loop_pos + 2, self.page@.len() as int)
    }

    /// Shape of a retired page whose successor starts at `succ_base`: its
    /// loop was parked at `code_size` and then broken, and the five bytes
    /// after it encode a near jump from this page's tail to the successor's
    /// base.  Successors sit directly above their predecessor, so bases grow
    /// strictly along the chain.
    pub open spec fn frozen_wf(self, succ_base: int, page_len: int) -> bool
        decreases self,
    {
        let cs = page_len - 8;
        &&& self.page@.len() == page_len
        &&& self.loop_pos == cs
        &&& self.base + page_len == succ_base
        &&& self.page@[cs] == 0x90u8
        &&& self.page@[cs + 1] == 0x90u8
        &&& self.page@.subrange(cs + 2, cs + 7) == spec_jmp(succ_base, self.base + cs + 2)
        &&& match self.prev_page {
            Option::None => true,
            Option::Some(p) => p.frozen_wf(self.base as int, page_len),
        }
    }

    /// Well-formedness of a tail page together with its whole predecessor
    /// chain.
    pub open spec fn wf(self) -> bool {
        &&& self.local_wf()
        &&& match self.prev_page {
            Option::None => true,
            Option::Some(p) => p.frozen_wf(self.base as int, self.page@.len() as int),
        }
    }

    /// Number of pages in the chain, this one included.
    pub open spec fn chain_len(self) -> nat
        decreases self,
    {
        match self.prev_page {
            Option::None => 1,
            Option::Some(p) => 1 + p.chain_len(),
        }
    }

    /// The page `k` steps down the predecessor chain (0 is the page itself).
    pub open spec fn nth_prev(self, k: nat) -> JitPage
        decreases k,
    {
        if k == 0 {
            self
        } else {
            match self.prev_page {
                Option::Some(p) => p.nth_prev((k - 1) as nat),
                Option::None => self,
            }
        }
    }
}

/// Pages reachable through an optional predecessor edge.
pub open spec fn opt_chain_len(o: Option<Box<JitPage>>) -> nat {
    match o {
        Option::None => 0,
        Option::Some(p) => p.chain_len(),
    }
}

/// The stream fits in the current page: appending it cannot overflow into a
/// successor.
pub open spec fn push_fits(pre: JitPage, instrs: Seq<Seq<u8>>) -> bool {
    instrs.len() == 0 || pre.loop_pos + 2 + instrs.flatten().len() < pre.code_size()
}

/// Number of leading instructions of `instrs` that an append writes when it
/// starts writing at offset `w`: the first instruction that would reach `cs`
/// is deferred to a successor page.
pub open spec fn fit_count(w: int, cs: int, instrs: Seq<Seq<u8>>) -> int
    decreases instrs.len(),
{
    if instrs.len() == 0 {
        0
    } else if w + instrs[0].len() >= cs {
        0
    } else {
        1 + fit_count(w + instrs[0].len(), cs, instrs.drop_first())
    }
}

/// How an overflowing append distributed the instruction bytes over the
/// chain: the page `depth` steps below the tail received the leading
/// instructions that fit it, written two bytes past its old loop, and the
/// rest continued one page up; the tail itself received everything left,
/// written from offset 2, with its loop aligned past it.
pub open spec fn spells(post: JitPage, depth: int, l0: int, instrs: Seq<Seq<u8>>) -> bool
    decreases depth,
{
    if depth <= 0 {
        let flat = instrs.flatten();
        &&& post.page@.subrange(2, 2 + flat.len() as int) == flat
        &&& post.loop_pos as int == align4(2 + flat.len() as int)
    } else {
        let cs = post.page@.len() - 8;
        let k = fit_count(l0 + 2, cs, instrs);
        let head = instrs.take(k).flatten();
        &&& post.nth_prev(depth as nat).page@.subrange(l0 + 2, l0 + 2 + head.len() as int) == head
        &&& spells(post, depth - 1, 0, instrs.skip(k))
    }
}

/// Mid-append shape: the `depth` retired pages below the current (still
/// fresh) tail hold the first `done` instructions, distributed by what fit
/// each page; the tail has received nothing yet.
pub open spec fn spells_pending(
    cur: JitPage,
    depth: int,
    l0: int,
    instrs: Seq<Seq<u8>>,
    done: int,
) -> bool
    decreases depth,
{
    if depth <= 0 {
        done == 0
    } else {
        let cs = cur.page@.len() - 8;
        let k = fit_count(l0 + 2, cs, instrs);
        let head = instrs.take(k).flatten();
        &&& k <= done
        &&& cur.nth_prev(depth as nat).page@.subrange(l0 + 2, l0 + 2 + head.len() as int) == head
        &&& spells_pending(cur, depth - 1, 0, instrs.skip(k), done - k)
    }
}

/// What one append does, relating the tail page before (`pre`) and after
/// (`post`).
///
/// If the stream fits, the page keeps its base and predecessors; the bytes of
/// the stream sit right after the old loop, the old loop's two bytes are
/// no-ops (the publication), the padding up to the relocated loop is no-ops,
/// and everything below the old loop is untouched.  The one exception is an
/// empty append to a page whose loop is already parked at `code_size`: there
/// is no aligned slot left to move the loop to, so the page is returned
/// unchanged and nothing is published.
///
/// If the stream does not fit, the chain has grown; `pre`'s page reappears
/// `post.chain_len() - pre.chain_len()` steps down the chain, retired: its
/// client bytes untouched, its old loop broken, and its loop parked at
/// `code_size` (the bridge it carries is stated by `frozen_wf`).  Where
/// every instruction went — what each retired page received and what the
/// tail holds — is stated by `spells`.
pub open spec fn push_post(pre: JitPage, instrs: Seq<Seq<u8>>, post: JitPage) -> bool {
    let l0 = pre.loop_pos as int;
    let b = instrs.flatten().len() as int;
    &&& post.page@.len() == pre.page@.len()
    &&& if push_fits(pre, instrs) {
        if instrs.len() == 0 && l0 == pre.code_size() {
            post == pre
        } else {
            &&& post.base == pre.base
            &&& post.prev_page == pre.prev_page
            &&& post.loop_pos as int == align4(l0 + 2 + b)
            &&& post.page@.subrange(0, l0) == pre.page@.subrange(0, l0)
            &&& post.page@[l0] == 0x90u8
            &&& post.page@[l0 + 1] == 0x90u8
            &&& post.page@.subrange(l0 + 2, l0 + 2 + b) == instrs.flatten()
            &&& all_nop(post.page@, l0 + 2 + b, post.loop_pos as int)
        }
    } else {
        let m = (post.chain_len() - pre.chain_len()) as nat;
        &&& post.chain_len() > pre.chain_len()
        &&& post.base > pre.base
        &&& post.nth_prev(m).base == pre.base
        &&& post.nth_prev(m).loop_pos == pre.code_size()
        &&& post.nth_prev(m).prev_page == pre.prev_page
        &&& post.nth_prev(m).page@.len() == pre.page@.len()
        &&& post.nth_prev(m).page@.subrange(0, l0) == pre.page@.subrange(0, l0)
        &&& post.nth_prev(m).page@[l0] == 0x90u8
        &&& post.nth_prev(m).page@[l0 + 1] == 0x90u8
        &&& spells(post, m as int, l0, instrs)
    }
}

/// Copy one instruction's bytes into the page at `pos`.
fn copy_instr(page: &mut Vec<u8>, pos: usize, src: &Vec<u8>)
    requires
        pos + src@.len() <= old(page)@.len(),
    ensures
        final(page)@.len() == old(page)@.len(),
        final(page)@.subrange(pos as int, pos + src@.len()) == src@,
        forall|j: int| 0 <= j < pos ==> final(page)@[j] == old(page)@[j],
        forall|j: int|
            pos + src@.len() <= j < old(page)@.len() ==> final(page)@[j] == old(page)@[j],
{
    let plen = page.len();
    let mut j: usize = 0;
    while j < src.len()
        invariant
            j <= src@.len(),
            pos + src@.len() <= plen,
            plen == page@.len(),
            page@.len() == old(page)@.len(),
            page@.subrange(pos as int, pos + j) == src@.subrange(0, j as int),
            forall|k: int| 0 <= k < pos ==> page@[k] == old(page)@[k],
            forall|k: int| pos + j <= k < page@.len() ==> page@[k] == old(page)@[k],
        decreases src@.len() - j,
    {
        page[pos + j] = src[j];
        proof {
            assert(page@.subrange(pos as int, pos + j + 1) =~= src@.subrange(0, j + 1));
        }
        j += 1;
    }
    proof {
        assert(src@.subrange(0, src@.len() as int) =~= src@);
    }
}

impl JitPage {
    /// Map a fresh page of the default size at base address zero, filled
    /// with no-ops and armed with the initial self-loop at offset zero.
    pub fn map() -> (r: JitPage)
        ensures
            r.wf(),
            r.base == 0,
            r.loop_pos == 0,
            r.prev_page is None,
            r.page@.len() == PAGE_SIZE,
    {
        Self::map_at(0, PAGE_SIZE)
    }

    /// Map a fresh page of `page_size` bytes at the given base address.
    pub fn map_at(base: usize, page_size: usize) -> (r: JitPage)
        requires
            page_size >= 16,
            page_size as int % 4 == 0,
        ensures
            r.wf(),
            r.base == base,
            r.loop_pos == 0,
            r.prev_page is None,
            r.page@.len() == page_size,
    {
        let mut page: Vec<u8> = vec![0x90u8; page_size];
        let self_jump = x64asm::jmp8(0, 0);
        proof {
            assert(self_jump@[1] == 254u8);
        }
        page[0] = self_jump[0];
        page[1] = self_jump[1];
        JitPage { page, loop_pos: 0, base, prev_page: None }
    }

    /// Round a region end up to the nearest word-aligned position strictly
    /// past it, where the next self-loop may be installed: the two loop
    /// bytes then lie within a single aligned 4-byte word, so the later
    /// atomic 2-byte overwrite cannot be torn.
    fn loop_pos(region_start: usize) -> (r: usize)
        requires
            region_start + 4 <= usize::MAX,
        ensures
            r as int == align4(region_start as int),
            r as int % 4 == 0,
            region_start < r <= region_start + 4,
    {
        proof {
            lemma_fundamental_div_mod(region_start + 4, 4);
            lemma_mod_multiples_vanish((region_start + 4) as int / 4, 0, 4);
        }
        (region_start + 4) / 4 * 4
    }

    /// Nominal address of the byte at `pos` within this page.
    fn address_at(&self, pos: usize) -> (r: usize)
        requires
            self.base + pos <= usize::MAX,
        ensures
            r == self.base + pos,
    {
        self.base + pos
    }

    /// Address of the live trailing loop: where a consumer must enter.
    pub fn curr_addr(&self) -> (r: usize)
        requires
            self.base + self.loop_pos <= usize::MAX,
        ensures
            r == self.base + self.loop_pos,
    {
        self.address_at(self.loop_pos)
    }

    /// Write the bridge jump from this page's tail to `other`'s base into
    /// the reserved bytes `[code_size + 2, code_size + 7)`.
    fn insert_jmp_bridge(&mut self, other: &JitPage)
        requires
            old(self).page@.len() >= 16,
            old(self).base + old(self).page@.len() <= usize::MAX,
        ensures
            final(self).page@.len() == old(self).page@.len(),
            final(self).loop_pos == old(self).loop_pos,
            final(self).base == old(self).base,
            final(self).prev_page == old(self).prev_page,
            final(self).page@.subrange(
                old(self).code_size() + 2,
                old(self).code_size() + 7,
            ) == spec_jmp(other.base as int, old(self).base + old(self).code_size() + 2),
            forall|j: int|
                0 <= j < old(self).code_size() + 2 ==> final(self).page@[j] == old(self).page@[j],
            forall|j: int|
                old(self).code_size() + 7 <= j < old(self).page@.len() ==> final(self).page@[j]
                    == old(self).page@[j],
    {
        let cs = self.page.len() - 8;
        let dst_ptr = other.address_at(0);
        let src_ptr = self.address_at(cs + 2);
        let jmp_instr = x64asm::jmp(dst_ptr, src_ptr);
        copy_instr(&mut self.page, cs + 2, &jmp_instr);
    }

    /// Publish: overwrite the two bytes of the live loop with no-ops.  In
    /// the running system this is a sequentially-consistent fence followed
    /// by one aligned atomic 16-bit store of `0x9090`; the model records the
    /// bytes it leaves behind.
    fn break_loop(&mut self)
        requires
            old(self).loop_pos + 2 <= old(self).page@.len(),
        ensures
            final(self).page@.len() == old(self).page@.len(),
            final(self).loop_pos == old(self).loop_pos,
            final(self).base == old(self).base,
            final(self).prev_page == old(self).prev_page,
            final(self).page@[old(self).loop_pos as int] == 0x90u8,
            final(self).page@[old(self).loop_pos + 1] == 0x90u8,
            forall|j: int|
                0 <= j < old(self).loop_pos ==> final(self).page@[j] == old(self).page@[j],
            forall|j: int|
                old(self).loop_pos + 2 <= j < old(self).page@.len() ==> final(self).page@[j]
                    == old(self).page@[j],
    {
        let plen = self.page.len();
        proof {
            assert(old(self).loop_pos + 2 <= plen);
        }
        let l = self.loop_pos;
        self.page[l] = 0x90;
        self.page[l + 1] = 0x90;
    }
}

proof fn lemma_subrange_push(s: Seq<Seq<u8>>, a: int, b: int)
    requires
        0 <= a <= b < s.len(),
    ensures
        s.subrange(a, b + 1) == s.subrange(a, b).push(s[b]),
{
    assert(s.subrange(a, b + 1) =~= s.subrange(a, b).push(s[b]));
}

proof fn lemma_flatten_take_len_le(s: Seq<Seq<u8>>, j: int)
    requires
        0 <= j <= s.len(),
    ensures
        s.take(j).flatten().len() <= s.flatten().len(),
    decreases s.len() - j,
{
    if j == s.len() {
        assert(s.take(j) =~= s);
    } else {
        assert(s.take(j + 1) =~= s.take(j).push(s[j]));
        s.take(j).lemma_flatten_push(s[j]);
        lemma_flatten_take_len_le(s, j + 1);
    }
}

/// The bytes of instruction `j` are part of the whole stream's bytes.
proof fn lemma_flatten_prefix_bound(s: Seq<Seq<u8>>, j: int)
    requires
        0 <= j < s.len(),
    ensures
        s.take(j).flatten().len() + s[j].len() <= s.flatten().len(),
{
    assert(s.take(j + 1) =~= s.take(j).push(s[j]));
    s.take(j).lemma_flatten_push(s[j]);
    lemma_flatten_take_len_le(s, j + 1);
}

impl JitPage {
    /// Write instructions from `instrs[i0..]` one after another, starting two
    /// bytes past the live loop, stopping before any instruction that would
    /// reach `code_size`.  Returns the end of the written region and the
    /// index of the first instruction that was not written.
    fn fill_page(&mut self, instrs: &Vec<Vec<u8>>, i0: usize) -> (r: (usize, usize))
        requires
            old(self).local_wf(),
            i0 <= instrs@.len(),
            forall|k: int|
                0 <= k < instrs@.len() ==> (#[trigger] instrs@[k])@.len() + 2 < old(
                    self,
                ).code_size(),
            2 * old(self).page@.len() <= usize::MAX,
        ensures
            ({
                let (copy_pos, i) = r;
                let deep = views_of(instrs@);
                let start = old(self).loop_pos + 2;
                let cs = old(self).code_size();
                &&& final(self).loop_pos == old(self).loop_pos
                &&& final(self).base == old(self).base
                &&& final(self).prev_page == old(self).prev_page
                &&& final(self).page@.len() == old(self).page@.len()
                &&& i0 <= i <= deep.len()
                &&& copy_pos as int == start + deep.subrange(i0 as int, i as int).flatten().len()
                &&& final(self).page@.subrange(0, start as int) == old(self).page@.subrange(
                    0,
                    start as int,
                )
                &&& final(self).page@.subrange(start as int, copy_pos as int) == deep.subrange(
                    i0 as int,
                    i as int,
                ).flatten()
                &&& all_nop(final(self).page@, copy_pos as int, final(self).page@.len() as int)
                &&& (i > i0 ==> copy_pos < cs)
                &&& (i == i0 ==> *final(self) == *old(self) && copy_pos == start)
                &&& (i < deep.len() ==> copy_pos + deep[i as int].len() >= cs)
                &&& i - i0 == fit_count(start as int, cs, deep.skip(i0 as int))
            }),
    {
        let ghost deep = views_of(instrs@);
        let page_len = self.page.len();
        let cs = page_len - 8;
        let start = self.loop_pos + 2;
        let mut copy_pos = start;
        let mut i = i0;
        proof {
            assert(deep.subrange(i0 as int, i0 as int) =~= Seq::<Seq<u8>>::empty());
        }
        while i < instrs.len()
            invariant
                i0 <= i <= instrs@.len(),
                deep == views_of(instrs@),
                deep.len() == instrs@.len(),
                forall|k: int|
                    0 <= k < instrs@.len() ==> (#[trigger] instrs@[k])@.len() + 2 < cs,
                old(self).local_wf(),
                page_len == old(self).page@.len(),
                cs == page_len - 8,
                2 * page_len <= usize::MAX,
                start == old(self).loop_pos + 2,
                self.loop_pos == old(self).loop_pos,
                self.base == old(self).base,
                self.prev_page == old(self).prev_page,
                self.page@.len() == page_len,
                start <= copy_pos,
                copy_pos as int == start + deep.subrange(i0 as int, i as int).flatten().len(),
                i > i0 ==> copy_pos < cs,
                i == i0 ==> *self == *old(self) && copy_pos == start,
                self.page@.subrange(0, start as int) == old(self).page@.subrange(0, start as int),
                self.page@.subrange(start as int, copy_pos as int) == deep.subrange(
                    i0 as int,
                    i as int,
                ).flatten(),
                all_nop(self.page@, copy_pos as int, page_len as int),
                fit_count(start as int, cs as int, deep.skip(i0 as int)) == i - i0 + fit_count(
                    copy_pos as int,
                    cs as int,
                    deep.skip(i as int),
                ),
            ensures
                i <= instrs@.len(),
                i < instrs@.len() ==> copy_pos + instrs@[i as int]@.len() >= cs,
                fit_count(start as int, cs as int, deep.skip(i0 as int)) == i - i0 + fit_count(
                    copy_pos as int,
                    cs as int,
                    deep.skip(i as int),
                ),
            decreases instrs@.len() - i,
        {
            let ilen = instrs[i].len();
            proof {
                assert(deep.skip(i as int)[0] == deep[i as int]);
            }
            if copy_pos + ilen >= cs {
                break ;
            }
            copy_instr(&mut self.page, copy_pos, &instrs[i]);
            proof {
                assert(deep.skip(i as int).drop_first() =~= deep.skip(i + 1));
                let pre_flat = deep.subrange(i0 as int, i as int).flatten();
                lemma_subrange_push(deep, i0 as int, i as int);
                deep.subrange(i0 as int, i as int).lemma_flatten_push(deep[i as int]);
                assert(self.page@.subrange(0, start as int) =~= old(self).page@.subrange(
                    0,
                    start as int,
                ));
                assert(self.page@.subrange(start as int, copy_pos + ilen) =~= pre_flat
                    + deep[i as int]);
            }
            copy_pos = copy_pos + ilen;
            i = i + 1;
        }
        proof {
            if i < instrs.len() {
                assert(deep.skip(i as int)[0] == deep[i as int]);
                assert(fit_count(copy_pos as int, cs as int, deep.skip(i as int)) == 0);
            } else {
                assert(deep.skip(i as int).len() == 0);
            }
        }
        (copy_pos, i)
    }

    /// Complete an append that stayed within the page: install the relocated
    /// loop on the next aligned word past the written region, then publish
    /// by breaking the old loop.
    fn finish_page(&mut self, copy_pos: usize)
        requires
            old(self).page@.len() >= 16,
            old(self).page@.len() as int % 4 == 0,
            old(self).loop_pos as int % 4 == 0,
            old(self).loop_pos + 2 <= copy_pos,
            copy_pos <= old(self).code_size() + 2,
            align4(copy_pos as int) <= old(self).code_size(),
            all_nop(old(self).page@, copy_pos as int, old(self).page@.len() as int),
            2 * old(self).page@.len() <= usize::MAX,
        ensures
            final(self).base == old(self).base,
            final(self).prev_page == old(self).prev_page,
            final(self).page@.len() == old(self).page@.len(),
            final(self).loop_pos as int == align4(copy_pos as int),
            final(self).local_wf(),
            forall|j: int|
                0 <= j < old(self).loop_pos ==> final(self).page@[j] == old(self).page@[j],
            final(self).page@[old(self).loop_pos as int] == 0x90u8,
            final(self).page@[old(self).loop_pos + 1] == 0x90u8,
            forall|j: int|
                old(self).loop_pos + 2 <= j < copy_pos ==> final(self).page@[j] == old(
                    self,
                ).page@[j],
            all_nop(final(self).page@, copy_pos as int, align4(copy_pos as int)),
    {
        let newloop = Self::loop_pos(copy_pos);
        self.page[newloop] = 0xEB;
        self.page[newloop + 1] = 0xFE;
        self.break_loop();
        self.loop_pos = newloop;
    }

    /// Retire a page that overflowed: install the bridge jump to the
    /// successor in the reserved tail bytes, publish by breaking the old
    /// loop, and park the loop position at `code_size`.
    fn retire_page(&mut self, succ: &JitPage)
        requires
            old(self).page@.len() >= 16,
            old(self).page@.len() as int % 4 == 0,
            old(self).loop_pos as int % 4 == 0,
            old(self).loop_pos <= old(self).code_size(),
            old(self).base + old(self).page@.len() == succ.base,
            old(self).loop_pos == old(self).code_size() || (old(self).page@[old(
                self,
            ).code_size()] == 0x90u8 && old(self).page@[old(self).code_size() + 1] == 0x90u8),
        ensures
            final(self).base == old(self).base,
            final(self).prev_page == old(self).prev_page,
            final(self).page@.len() == old(self).page@.len(),
            final(self).loop_pos as int == old(self).code_size(),
            forall|j: int|
                0 <= j < old(self).loop_pos ==> final(self).page@[j] == old(self).page@[j],
            final(self).page@[old(self).loop_pos as int] == 0x90u8,
            final(self).page@[old(self).loop_pos + 1] == 0x90u8,
            final(self).page@[old(self).code_size()] == 0x90u8,
            final(self).page@[old(self).code_size() + 1] == 0x90u8,
            forall|j: int|
                old(self).loop_pos + 2 <= j < old(self).code_size() + 2 ==> final(self).page@[j]
                    == old(self).page@[j],
            final(self).page@.subrange(old(self).code_size() + 2, old(self).code_size() + 7)
                == spec_jmp(succ.base as int, old(self).base + old(self).code_size() + 2),
    {
        let cs = self.page.len() - 8;
        self.insert_jmp_bridge(succ);
        self.break_loop();
        self.loop_pos = cs;
        proof {
            assert(self.page@.subrange(cs as int + 2, cs as int + 7) =~= spec_jmp(
                succ.base as int,
                old(self).base + cs + 2,
            ));
        }
    }
}

proof fn lemma_fit_count_bounds(w: int, cs: int, s: Seq<Seq<u8>>)
    ensures
        0 <= fit_count(w, cs, s) <= s.len(),
    decreases s.len(),
{
    if s.len() != 0 && w + s[0].len() < cs {
        lemma_fit_count_bounds(w + s[0].len(), cs, s.drop_first());
    }
}

proof fn lemma_spells_extend(
    old_tail: JitPage,
    frozen: JitPage,
    succ: JitPage,
    depth: int,
    l0: int,
    l0_bot: int,
    s: Seq<Seq<u8>>,
    done: int,
    delta: int,
)
    requires
        depth >= 0,
        depth < old_tail.chain_len(),
        spells_pending(old_tail, depth, l0, s, done),
        depth == 0 ==> l0_bot == l0,
        depth > 0 ==> l0_bot == 0,
        succ.prev_page is Some,
        *succ.prev_page->Some_0 == frozen,
        frozen.prev_page == old_tail.prev_page,
        frozen.page@.len() == old_tail.page@.len(),
        succ.page@.len() == old_tail.page@.len(),
        0 <= done,
        0 <= delta,
        done + delta <= s.len(),
        delta == fit_count(l0_bot + 2, old_tail.page@.len() - 8, s.skip(done)),
        ({
            let head = s.skip(done).take(delta).flatten();
            frozen.page@.subrange(l0_bot + 2, l0_bot + 2 + head.len() as int) == head
        }),
    ensures
        spells_pending(succ, depth + 1, l0, s, done + delta),
    decreases depth,
{
    let cs = old_tail.page@.len() - 8;
    if depth == 0 {
        assert(s.skip(0) =~= s);
        assert(fit_count(l0 + 2, succ.page@.len() - 8, s) == delta);
        assert(succ.nth_prev(1nat) == frozen);
        assert(spells_pending(succ, 0, 0, s.skip(delta), 0));
    } else {
        let k = fit_count(l0 + 2, cs, s);
        lemma_fit_count_bounds(l0 + 2, cs, s);
        assert(old_tail.prev_page is Some) by {
            if old_tail.prev_page is None {
                assert(old_tail.chain_len() == 1);
            }
        }
        assert(succ.nth_prev((depth + 1) as nat) == frozen.nth_prev(depth as nat));
        assert(frozen.nth_prev(depth as nat) == old_tail.nth_prev(depth as nat));
        assert(frozen.chain_len() == old_tail.chain_len());
        assert(s.skip(k).skip(done - k) =~= s.skip(done));
        lemma_spells_extend(
            old_tail,
            frozen,
            succ,
            depth - 1,
            0,
            l0_bot,
            s.skip(k),
            done - k,
            delta,
        );
    }
}

proof fn lemma_spells_close(
    entry: JitPage,
    fin: JitPage,
    depth: int,
    l0: int,
    s: Seq<Seq<u8>>,
    done: int,
)
    requires
        depth >= 1,
        depth < entry.chain_len(),
        spells_pending(entry, depth, l0, s, done),
        fin.prev_page == entry.prev_page,
        fin.page@.len() == entry.page@.len(),
        0 <= done <= s.len(),
        ({
            let flat = s.skip(done).flatten();
            &&& fin.page@.subrange(2, 2 + flat.len() as int) == flat
            &&& fin.loop_pos as int == align4(2 + flat.len() as int)
        }),
    ensures
        spells(fin, depth, l0, s),
    decreases depth,
{
    let cs = entry.page@.len() - 8;
    let k = fit_count(l0 + 2, cs, s);
    lemma_fit_count_bounds(l0 + 2, cs, s);
    assert(entry.prev_page is Some) by {
        if entry.prev_page is None {
            assert(entry.chain_len() == 1);
        }
    }
    assert(fin.nth_prev(depth as nat) == entry.nth_prev(depth as nat));
    if depth == 1 {
        assert(spells_pending(entry, 0, 0, s.skip(k), done - k));
        assert(done == k);
        assert(s.skip(done) == s.skip(k));
        assert(spells(fin, 0, 0, s.skip(k)));
    } else {
        assert(s.skip(k).skip(done - k) =~= s.skip(done));
        lemma_spells_close(entry, fin, depth - 1, 0, s.skip(k), done - k);
    }
}

impl JitPage {
    /// Append an instruction stream and return the resulting tail page.
    ///
    /// Instructions are written one after another starting two bytes past the
    /// current loop.  An instruction that would reach `code_size` is not
    /// written here: a successor page is mapped directly above this one, a
    /// bridge jump to it is installed in the reserved tail bytes, this page's
    /// loop is parked at `code_size` and broken, and the rest of the stream
    /// continues in the successor — repeatedly, if need be.  A page's old
    /// loop is only ever overwritten after everything the consumer can fall
    /// through to is in place.
    #[verifier::rlimit(100)]
    pub fn push_instrs(self, instrs: &Vec<Vec<u8>>) -> (res: JitPage)
        requires
            self.wf(),
            forall|k: int|
                0 <= k < instrs@.len() ==> (#[trigger] instrs@[k])@.len() + 2 < self.code_size(),
            self.base + (instrs@.len() + 3) * self.page@.len() <= usize::MAX,
        ensures
            res.wf(),
            push_post(self, views_of(instrs@), res),
    {
        let ghost orig = self;
        let ghost deep = views_of(instrs@);
        let n = instrs.len();
        let page_len = self.page.len();
        let mut cur = self;
        let mut i: usize = 0;
        let ghost mut made: int = 0;
        proof {
            lemma_mul_is_distributive_add_other_way(page_len as int, n + 2, 1);
            lemma_mul_inequality(2, n + 2, page_len as int);
        }
        loop
            invariant
                orig == self,
                cur.wf(),
                cur.page@.len() == page_len,
                page_len == orig.page@.len(),
                page_len >= 16,
                page_len as int % 4 == 0,
                i <= n,
                n == instrs@.len(),
                deep == views_of(instrs@),
                deep.len() == n,
                forall|k: int|
                    0 <= k < instrs@.len() ==> (#[trigger] instrs@[k])@.len() + 2 < page_len - 8,
                2 * page_len <= usize::MAX,
                made >= 0,
                made == 0 ==> cur == orig && i == 0,
                made == 0 ==> cur.base + (n - i + 2) * page_len + page_len <= usize::MAX,
                made > 0 ==> cur.base + (n - i + 2) * page_len <= usize::MAX,
                made > 0 ==> cur.loop_pos == 0 && !push_fits(orig, deep),
                made > 0 ==> i < n,
                made > 0 ==> cur.base > orig.base,
                made > 0 ==> cur.chain_len() == orig.chain_len() + made,
                made > 0 ==> {
                    let f = cur.nth_prev(made as nat);
                    &&& f.base == orig.base
                    &&& f.loop_pos == orig.code_size()
                    &&& f.prev_page == orig.prev_page
                    &&& f.page@.len() == orig.page@.len()
                    &&& f.page@.subrange(0, orig.loop_pos as int) == orig.page@.subrange(
                        0,
                        orig.loop_pos as int,
                    )
                    &&& f.page@[orig.loop_pos as int] == 0x90u8
                    &&& f.page@[orig.loop_pos + 1] == 0x90u8
                },
                spells_pending(cur, made, orig.loop_pos as int, deep, i as int),
            decreases 2 * (n - i) + (if made == 0 { 1int } else { 0int }),
        {
            let ghost entry = cur;
            let ghost i_entry = i as int;
            let cs = page_len - 8;
            let r = cur.fill_page(instrs, i);
            let copy_pos = r.0;
            let ghost start = entry.loop_pos + 2;
            proof {
                lemma_mul_inequality(2, n - i + 2, page_len as int);
            }
            i = r.1;
            if i == n {
                let newloop = Self::loop_pos(copy_pos);
                if newloop > cs {
                    proof {
                        assert(i_entry == n);
                        assert(made == 0) by {
                            if made > 0 {
                                assert(i_entry < n);
                            }
                        }
                        assert(n == 0);
                        assert(cur == orig);
                        assert(copy_pos == orig.loop_pos + 2);
                        assert(orig.loop_pos == orig.code_size());
                        assert(deep.flatten().len() == 0);
                        assert(push_fits(orig, deep));
                        assert(push_post(orig, deep, cur));
                    }
                    return cur;
                }
                cur.finish_page(copy_pos);
                proof {
                    let l0 = entry.loop_pos as int;
                    let flat = deep.subrange(i_entry, n as int).flatten();
                    assert(copy_pos as int == start + flat.len());
                    assert(cur.page@.subrange(0, l0) =~= entry.page@.subrange(0, l0));
                    assert(cur.page@.subrange(start as int, copy_pos as int) =~= flat);
                    assert(cur.wf());
                    if made == 0 && deep.len() == 0 {
                        assert(orig.loop_pos != orig.code_size());
                    }
                    if made == 0 {
                        assert(deep.subrange(0, n as int) =~= deep);
                        assert(push_fits(orig, deep));
                        assert(cur.page@.subrange(l0 + 2, l0 + 2 + flat.len()) =~= flat);
                        assert(push_post(orig, deep, cur));
                    } else {
                        assert(cur.nth_prev(made as nat) == entry.nth_prev(made as nat));
                        assert(cur.chain_len() == entry.chain_len());
                        assert((cur.chain_len() - orig.chain_len()) as nat == made as nat);
                        assert(entry.loop_pos == 0);
                        assert(i_entry < n);
                        assert(deep.skip(i_entry) =~= deep.subrange(i_entry, n as int));
                        let tail_flat = deep.skip(i_entry).flatten();
                        assert(cur.loop_pos as int == align4(2 + tail_flat.len() as int));
                        assert(cur.page@.subrange(2, 2 + tail_flat.len() as int) == tail_flat);
                        assert(orig.chain_len() >= 1);
                        lemma_spells_close(entry, cur, made, orig.loop_pos as int, deep, i_entry);
                        assert(push_post(orig, deep, cur));
                    }
                }
                return cur;
            }
            // An instruction was deferred: retire this page behind a bridge
            // and continue in a fresh successor mapped directly above it.
            proof {
                assert(instrs@[i as int]@.len() + 2 < cs);
                if made > 0 {
                    assert(i > i_entry) by {
                        if i == i_entry {
                            assert(copy_pos == start);
                            assert(entry.loop_pos == 0);
                            assert(copy_pos + instrs@[i as int]@.len() < cs);
                        }
                    }
                    lemma_mul_inequality(n - i + 3, n - i_entry + 2, page_len as int);
                } else {
                    lemma_mul_inequality(n - i + 3, n - i_entry + 3, page_len as int);
                    lemma_mul_is_distributive_add_other_way(page_len as int, n - i_entry + 2, 1);
                }
                lemma_mul_is_distributive_add_other_way(page_len as int, n - i + 2, 1);
                lemma_mul_inequality(0, n - i + 2, page_len as int);
                lemma_mul_inequality(1, n - i + 2, page_len as int);
                // bytes at code_size are still no-op filler unless the loop
                // itself is parked there
                if entry.loop_pos < cs {
                    assert(entry.loop_pos + 4 <= cs);
                    if i == i_entry {
                        assert(cur.page@[cs as int] == 0x90u8 && cur.page@[cs as int + 1]
                            == 0x90u8);
                    } else {
                        assert(copy_pos < cs);
                        assert(cur.page@[cs as int] == 0x90u8 && cur.page@[cs as int + 1]
                            == 0x90u8);
                    }
                }
            }
            let succ = JitPage::map_at(cur.base + page_len, page_len);
            cur.retire_page(&succ);
            let ghost frozen = cur;
            let mut succ = succ;
            succ.prev_page = Some(Box::new(cur));
            proof {
                let l0 = entry.loop_pos as int;
                // the deferred instruction shows the whole stream cannot fit
                if made == 0 {
                    lemma_flatten_prefix_bound(deep, i as int);
                    assert(deep.subrange(0, i as int) == deep.take(i as int));
                    assert(orig.loop_pos + 2 + deep.flatten().len() >= cs);
                    assert(!push_fits(orig, deep));
                }
                assert(frozen.frozen_wf(succ.base as int, page_len as int));
                assert(succ.wf());
                assert(succ.chain_len() == frozen.chain_len() + 1);
                assert(frozen.chain_len() == entry.chain_len());
                let f = succ.nth_prev((made + 1) as nat);
                if made == 0 {
                    assert(f == frozen);
                    assert(frozen.page@.subrange(0, l0) =~= orig.page@.subrange(0, l0));
                } else {
                    assert(f == frozen.nth_prev(made as nat));
                    assert(frozen.nth_prev(made as nat) == entry.nth_prev(made as nat));
                }
                // the retired page holds exactly the instructions that fit it
                assert(deep.skip(i_entry).take(i - i_entry) =~= deep.subrange(i_entry, i as int));
                let head = deep.skip(i_entry).take(i - i_entry).flatten();
                assert(head.len() == copy_pos - start);
                assert(frozen.page@.subrange(l0 + 2, l0 + 2 + head.len() as int) =~= head);
                assert(orig.chain_len() >= 1);
                assert(*succ.prev_page->Some_0 == frozen);
                lemma_spells_extend(
                    entry,
                    frozen,
                    succ,
                    made,
                    orig.loop_pos as int,
                    l0,
                    deep,
                    i_entry,
                    i - i_entry,
                );
                made = made + 1;
            }
            cur = succ;
        }
    }
}

impl Drop for JitPage {
    /// Unlink the predecessor chain iteratively before the fields are
    /// dropped: dropping a long chain through the `Box` ownership edges
    /// would recurse once per page and can overflow the stack.
    fn drop(&mut self)
        opens_invariants none
        no_unwind
    {
        let mut cur: Option<Box<JitPage>> = None;
        core::mem::swap(&mut self.prev_page, &mut cur);
        loop
            decreases opt_chain_len(cur),
        {
            match cur {
                None => {
                    break ;
                },
                Some(mut boxed) => {
                    let mut next: Option<Box<JitPage>> = None;
                    core::mem::swap(&mut boxed.prev_page, &mut next);
                    cur = next;
                },
            }
        }
    }
}

/// The client-facing buffer: owns the tail page of the chain.
pub struct JitBuffer {
    pub curr_page: JitPage,
}

impl JitBuffer {
    pub open spec fn wf(self) -> bool {
        self.curr_page.wf()
    }

    /// A fresh buffer with one freshly mapped page.
    pub fn new() -> (r: JitBuffer)
        ensures
            r.wf(),
            r.curr_page.base == 0,
            r.curr_page.loop_pos == 0,
            r.curr_page.prev_page is None,
            r.curr_page.page@.len() == PAGE_SIZE,
    {
        JitBuffer { curr_page: JitPage::map() }
    }

    /// Append a stream to the tail page and store whatever page the append
    /// returns as the new tail.
    pub fn push_instrs(&mut self, instrs: &Vec<Vec<u8>>)
        requires
            old(self).wf(),
            forall|k: int|
                0 <= k < instrs@.len() ==> (#[trigger] instrs@[k])@.len() + 2 < old(
                    self,
                ).curr_page.code_size(),
            old(self).curr_page.base + (instrs@.len() + 3) * old(self).curr_page.page@.len()
                <= usize::MAX,
        ensures
            final(self).wf(),
            push_post(old(self).curr_page, views_of(instrs@), final(self).curr_page),
    {
        // swap the tail out through a cheap placeholder so the page struct
        // itself never has to be copied
        let mut tmp = JitPage { page: Vec::new(), loop_pos: 0, base: 0, prev_page: None };
        core::mem::swap(&mut self.curr_page, &mut tmp);
        tmp = tmp.push_instrs(instrs);
        core::mem::swap(&mut self.curr_page, &mut tmp);
    }

    /// Capture a callable entry point: the address of the tail page's live
    /// loop.  A consumer started there spins in the loop until the next
    /// append publishes more code.
    pub fn start_func(&self) -> (r: ExtFn)
        requires
            self.curr_page.base + self.curr_page.loop_pos <= usize::MAX,
        ensures
            r.ptr == self.curr_page.base + self.curr_page.loop_pos,
    {
        ExtFn { ptr: self.curr_page.curr_addr() }
    }
}

#[verifier::rlimit(50)]
proof fn lemma_frozen_base_at(q: JitPage, succ_base: int, page_len: int, k: nat)
    requires
        q.frozen_wf(succ_base, page_len),
        k < q.chain_len(),
    ensures
        q.nth_prev(k).base == q.base - k * page_len,
    decreases k,
{
    lemma_mul_basics(page_len);
    if k == 0 {
        assert(q.nth_prev(0nat) == q);
        assert(k * page_len == 0);
    } else {
        match q.prev_page {
            Option::Some(p) => {
                assert(((k - 1) as nat) < p.chain_len());
                lemma_frozen_base_at(*p, q.base as int, page_len, (k - 1) as nat);
                assert(q.nth_prev(k) == p.nth_prev((k - 1) as nat));
                assert(p.base == q.base - page_len);
                assert(p.nth_prev((k - 1) as nat).base == p.base - (k - 1) * page_len);
                lemma_mul_is_distributive_add_other_way(page_len, k - 1, 1);
                assert((k - 1 + 1) * page_len == (k - 1) * page_len + 1 * page_len);
                assert(k * page_len == (k - 1) * page_len + page_len);
            },
            Option::None => {
                assert(q.chain_len() == 1);
            },
        }
    }
}

#[verifier::rlimit(50)]
proof fn lemma_chain_base_at(p: JitPage, k: nat)
    requires
        p.wf(),
        k < p.chain_len(),
    ensures
        p.nth_prev(k).base == p.base - k * p.page@.len(),
{
    lemma_mul_basics(p.page@.len() as int);
    if k > 0 {
        match p.prev_page {
            Option::Some(q) => {
                assert(((k - 1) as nat) < q.chain_len());
                lemma_frozen_base_at(*q, p.base as int, p.page@.len() as int, (k - 1) as nat);
                assert(p.nth_prev(k) == q.nth_prev((k - 1) as nat));
                lemma_mul_is_distributive_add_other_way(p.page@.len() as int, k - 1, 1);
                assert((k - 1 + 1) * p.page@.len() == (k - 1) * p.page@.len() + 1 * p.page@.len());
            },
            Option::None => {
                assert(p.chain_len() == 1);
            },
        }
    }
}

/// Law: every retired page sits exactly one page length below its successor,
/// so base addresses strictly decrease toward older pages; in particular no
/// page occurs twice in the chain — the chain is acyclic (and it is finite
/// because `chain_len` is a well-founded measure of the ownership structure).
pub proof fn lemma_chain_acyclic(p: JitPage, k1: nat, k2: nat)
    requires
        p.wf(),
        k1 < k2 < p.chain_len(),
    ensures
        p.nth_prev(k1).base > p.nth_prev(k2).base,
{
    lemma_chain_base_at(p, k1);
    lemma_chain_base_at(p, k2);
    lemma_mul_strict_inequality(k1 as int, k2 as int, p.page@.len() as int);
}

/// Law: the bridge jump of a retired page really lands on its successor.
/// Reading the displacement little-endian from the four bytes after the
/// `0xE9` opcode and adding it to the address just past the five-byte jump
/// yields the successor's base, modulo 2^32.
pub proof fn lemma_bridge_decodes(p: JitPage, succ_base: int, page_len: int)
    requires
        p.frozen_wf(succ_base, page_len),
    ensures
        ({
            let cs = page_len - 8;
            let s = p.page@;
            let rel = (s[cs + 3] as int) + 256 * (s[cs + 4] as int) + 65536 * (s[cs + 5] as int)
                + 16777216 * (s[cs + 6] as int);
            &&& s[cs + 2] == 0xE9u8
            &&& (p.base + cs + 2 + 5 + rel) % 0x1_0000_0000 == succ_base % 0x1_0000_0000
        }),
{
    let cs = page_len - 8;
    let s = p.page@;
    let from = p.base + cs + 2;
    let rel = jmp_rel(succ_base, from);
    assert(s[cs + 2] == s.subrange(cs + 2, cs + 7)[0]);
    assert(s[cs + 3] == s.subrange(cs + 2, cs + 7)[1]);
    assert(s[cs + 4] == s.subrange(cs + 2, cs + 7)[2]);
    assert(s[cs + 5] == s.subrange(cs + 2, cs + 7)[3]);
    assert(s[cs + 6] == s.subrange(cs + 2, cs + 7)[4]);
    lemma_mod_bound(succ_base - from - 5, 0x1_0000_0000);
    lemma_le32_recompose(rel);
    lemma_jmp_roundtrip(succ_base, from);
}

/// Law: after an append that fits with at least five bytes to spare below
/// `code_size`, the relocated loop lies entirely within the code region.
pub proof fn lemma_loop_within_code(pre: JitPage, instrs: Seq<Seq<u8>>, post: JitPage)
    requires
        push_post(pre, instrs, post),
        push_fits(pre, instrs),
        pre.page@.len() as int % 4 == 0,
        pre.loop_pos + 2 + instrs.flatten().len() <= pre.code_size() - 5,
    ensures
        post.loop_pos + 2 <= post.code_size(),
{
    let x = pre.loop_pos + 2 + instrs.flatten().len();
    lemma_fundamental_div_mod(x + 4, 4);
    lemma_mod_multiples_vanish((x + 4) / 4, 0, 4);
}

/// Law: an append allocates a successor page exactly when the stream does
/// not fit in the current page.  Filling the page up to its last writable
/// byte keeps the chain as it was; one byte more grows it.
pub proof fn lemma_bridges_iff_overflow(pre: JitPage, instrs: Seq<Seq<u8>>, post: JitPage)
    requires
        push_post(pre, instrs, post),
    ensures
        push_fits(pre, instrs) <==> post.chain_len() == pre.chain_len(),
{
    if push_fits(pre, instrs) {
        assert(post.prev_page == pre.prev_page);
    }
}

/// Law: streaming a list of instructions into a fresh page leaves exactly
/// their concatenated bytes at offsets `[2, 2 + B)`, `B` being the total
/// instruction byte length.
pub proof fn lemma_fresh_roundtrip(pre: JitPage, instrs: Seq<Seq<u8>>, post: JitPage)
    requires
        push_post(pre, instrs, post),
        push_fits(pre, instrs),
        pre.page@.len() >= 16,
        pre.loop_pos == 0,
    ensures
        post.page@.subrange(2, 2 + instrs.flatten().len() as int) == instrs.flatten(),
{
}

} // verus!
