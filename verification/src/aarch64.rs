use crate::le_bytes::{le4, overwrite, read_u32, read_u32_at, write_u32_at};
use vstd::prelude::*;

verus! {

// ---------------------------------------------------------------------------
// The AArch64 instructions that templates are patched through
// ---------------------------------------------------------------------------
/// AArch64 `nop`.
pub const NOP: u32 = 0xD503_201F;

/// The 16-bit immediate field (bits 5..21) of a move-wide instruction.
pub open spec fn imm16(w: u32) -> u32 {
    (w >> 5u32) & 0xFFFFu32
}

/// `w` is a `movz` (of either width) or a `movk` (of either width).
pub open spec fn is_movz_or_movk(w: u32) -> bool {
    (w & 0x7F80_0000u32) == 0x5280_0000u32 || (w & 0x7F80_0000u32) == 0x7280_0000u32
}

/// The effect on a 64-bit register of a `nop` or of a 64-bit move-wide
/// instruction (`movn`, `movz`, `movk`: opcode field 0, 2, 3, shift
/// `16 * hw`) that writes it: `movz` sets the register to the shifted
/// immediate, `movn` to its complement, `movk` replaces one 16-bit chunk.
pub open spec fn exec_mov(w: u32, x: u64) -> u64 {
    if w == NOP {
        x
    } else {
        let sh = ((((w >> 21u32) & 3u32) as u64) * 16u64) as u64;
        let imm = imm16(w) as u64;
        let opc = (w >> 29u32) & 3u32;
        if opc == 2 {
            imm << sh
        } else if opc == 0 {
            !(imm << sh)
        } else if opc == 3 {
            (x & !(0xFFFFu64 << sh)) | (imm << sh)
        } else {
            x
        }
    }
}

/// The destination register field of a move-wide instruction.
pub open spec fn rd(w: u32) -> u32 {
    w & 31u32
}

/// The shape that the compiler gives a 64-bit constant materialised into
/// register `rd(w0)`: `movz x, #c0; movk x, #c1, lsl #16; movk x, #c2, lsl
/// #32; movk x, #c3, lsl #48`.
pub open spec fn movz_movk_chain(w0: u32, w1: u32, w2: u32, w3: u32) -> bool {
    &&& (w0 & 0xFFE0_0000u32) == 0xD280_0000u32
    &&& (w1 & 0xFFE0_0000u32) == 0xF2A0_0000u32
    &&& (w2 & 0xFFE0_0000u32) == 0xF2C0_0000u32
    &&& (w3 & 0xFFE0_0000u32) == 0xF2E0_0000u32
    &&& rd(w1) == rd(w0)
    &&& rd(w2) == rd(w0)
    &&& rd(w3) == rd(w0)
}

/// The register value after the four instructions, starting from `x`.
pub open spec fn exec_mov4(w0: u32, w1: u32, w2: u32, w3: u32, x: u64) -> u64 {
    exec_mov(w3, exec_mov(w2, exec_mov(w1, exec_mov(w0, x))))
}

// ---------------------------------------------------------------------------
// Value holes
// ---------------------------------------------------------------------------
/// Chunk `k` (bits `16k..16k + 16`) of `v`.
pub open spec fn chunk(v: u64, k: int) -> u16 {
    if k == 0 {
        v as u16
    } else if k == 1 {
        (v >> 16u64) as u16
    } else if k == 2 {
        (v >> 32u64) as u16
    } else {
        (v >> 48u64) as u16
    }
}

/// The four 16-bit chunks of `v`, each shifted back to its place, add up to
/// `v` (and, as they do not overlap, so does their bitwise or).
pub proof fn lemma_chunks_rebuild(v: u64)
    ensures
        v == (chunk(v, 0) as u64) + ((chunk(v, 1) as u64) << 16u64) + ((chunk(v, 2) as u64)
            << 32u64) + ((chunk(v, 3) as u64) << 48u64),
        v == (chunk(v, 0) as u64) | ((chunk(v, 1) as u64) << 16u64) | ((chunk(v, 2) as u64)
            << 32u64) | ((chunk(v, 3) as u64) << 48u64),
{
    assert(v == ((v as u16) as u64) + ((((v >> 16u64) as u16) as u64) << 16u64) + ((((v
        >> 32u64) as u16) as u64) << 32u64) + ((((v >> 48u64) as u16) as u64) << 48u64))
        by (bit_vector);
    assert(v == ((v as u16) as u64) | ((((v >> 16u64) as u16) as u64) << 16u64) | ((((v
        >> 32u64) as u16) as u64) << 32u64) | ((((v >> 48u64) as u16) as u64) << 48u64))
        by (bit_vector);
}

/// Chunk `k` of a sentinel.
pub fn hole_chunk(v: u64, k: usize) -> (c: u16)
    requires
        k < 4,
    ensures
        c == chunk(v, k as int),
{
    if k == 0 {
        v as u16
    } else if k == 1 {
        (v >> 16u64) as u16
    } else if k == 2 {
        (v >> 32u64) as u16
    } else {
        (v >> 48u64) as u16
    }
}

/// No 16-bit chunk of `v` is all zeros or all ones, so the compiler always
/// materialises it with one `movz` and three `movk`s.
pub open spec fn spec_chunks_ok(v: u64) -> bool {
    forall|k: int| 0 <= k < 4 ==> chunk(v, k) != 0 && chunk(v, k) != 0xFFFF
}

pub fn chunks_ok(v: u64) -> (ok: bool)
    ensures
        ok == spec_chunks_ok(v),
{
    let mut k: usize = 0;
    while k < 4
        invariant
            k <= 4,
            forall|j: int| 0 <= j < k ==> chunk(v, j) != 0 && chunk(v, j) != 0xFFFF,
        decreases 4 - k,
    {
        let c = hole_chunk(v, k);
        if c == 0 || c == 0xFFFF {
            return false;
        }
        k += 1;
    }
    true
}

/// The 16 bytes at `i` are four `movz`/`movk` instructions whose immediates
/// are the chunks of `sentinel`, in order.
pub open spec fn value_hole_at(bytes: Seq<u8>, i: int, sentinel: u64) -> bool {
    &&& 0 <= i
    &&& i + 16 <= bytes.len()
    &&& forall|k: int|
        0 <= k < 4 ==> is_movz_or_movk(#[trigger] read_u32(bytes, i + 4 * k)) && imm16(
            read_u32(bytes, i + 4 * k),
        ) == chunk(sentinel, k) as u32
}

/// Offset of the first 4-aligned value hole for `sentinel` in `bytes`.
pub fn find_value_hole(bytes: &[u8], sentinel: u64) -> (i: usize)
    requires
        exists|j: int| j % 4 == 0 && #[trigger] value_hole_at(bytes@, j, sentinel),
    ensures
        i % 4 == 0,
        value_hole_at(bytes@, i as int, sentinel),
        forall|j: int| 0 <= j < i && j % 4 == 0 ==> !#[trigger] value_hole_at(bytes@, j, sentinel),
{
    match search_value_hole(bytes, sentinel) {
        Some(i) => i,
        None => {
            proof {
                let j = choose|j: int| j % 4 == 0 && #[trigger] value_hole_at(bytes@, j, sentinel);
                assert(value_hole_at(bytes@, j, sentinel));
            }
            0
        },
    }
}

/// The offset of the first 4-aligned value hole for `sentinel`, if any.
pub fn search_value_hole(bytes: &[u8], sentinel: u64) -> (res: Option<usize>)
    ensures
        res matches Some(i) ==> {
            &&& i % 4 == 0
            &&& value_hole_at(bytes@, i as int, sentinel)
            &&& forall|j: int| 0 <= j < i && j % 4 == 0 ==> !#[trigger] value_hole_at(bytes@, j, sentinel)
        },
        res is None ==> forall|j: int| j % 4 == 0 ==> !#[trigger] value_hole_at(bytes@, j, sentinel),
{
    let len = bytes.len();
    let limit = if len >= 15 {
        len - 15
    } else {
        0
    };
    let mut i: usize = 0;
    while i < limit
        invariant
            len == bytes@.len(),
            limit == if len >= 15 { len - 15 } else { 0 },
            i % 4 == 0,
            i <= limit + 3,
            forall|j: int| 0 <= j < i && j % 4 == 0 ==> !#[trigger] value_hole_at(bytes@, j, sentinel),
        decreases limit + 4 - i,
    {
        let mut matches = true;
        let mut k: usize = 0;
        while k < 4
            invariant
                i < limit,
                len == bytes@.len(),
                limit == if len >= 15 { len - 15 } else { 0 },
                k <= 4,
                matches == forall|m: int|
                    0 <= m < k ==> is_movz_or_movk(#[trigger] read_u32(bytes@, i + 4 * m)) && imm16(
                        read_u32(bytes@, i + 4 * m),
                    ) == chunk(sentinel, m) as u32,
            decreases 4 - k,
        {
            let word = read_u32_at(bytes, i + k * 4);
            let is_movz_or_movk = word & 0x7F80_0000 == 0x5280_0000 || word & 0x7F80_0000
                == 0x7280_0000;
            let c = hole_chunk(sentinel, k);
            assert(i + k * 4 == i + 4 * k);
            matches = matches && is_movz_or_movk && ((word >> 5) & 0xFFFF) == c as u32;
            k += 1;
        }
        if matches {
            return Some(i);
        }
        i += 4;
    }
    None
}

/// More of chunks 1..3 of `v` are all ones than all zeros, so starting from
/// `movn` lets more `movk`s be dropped than starting from `movz`.
pub open spec fn use_movn(v: u64) -> bool {
    let zeros = (if chunk(v, 1) == 0 { 1int } else { 0int }) + (if chunk(v, 2) == 0 {
        1int
    } else {
        0int
    }) + (if chunk(v, 3) == 0 { 1int } else { 0int });
    let ones = (if chunk(v, 1) == 0xFFFF { 1int } else { 0int }) + (if chunk(v, 2) == 0xFFFF {
        1int
    } else {
        0int
    }) + (if chunk(v, 3) == 0xFFFF { 1int } else { 0int });
    ones > zeros
}

/// `w` with its immediate field replaced by `imm`.
pub open spec fn with_imm16(w: u32, imm: u16) -> u32 {
    (w & !(0xFFFFu32 << 5u32)) | ((imm as u32) << 5u32)
}

/// The first instruction of a patched value hole: the template's `movz`
/// with chunk 0 of `v` (or, for `movn`, its complement, with opcode bit 30
/// cleared to turn `movz` into `movn`).
pub open spec fn patched_base(w0: u32, v: u64) -> u32 {
    if use_movn(v) {
        with_imm16(w0, !chunk(v, 0)) & !(1u32 << 30u32)
    } else {
        with_imm16(w0, chunk(v, 0))
    }
}

/// Instruction `k` (1..3) of a patched value hole: a `nop` when the chunk
/// already has the value that the base instruction fills in, else the
/// template's `movk` with chunk `k` of `v`.
pub open spec fn patched_movk(w: u32, v: u64, k: int) -> u32 {
    let skip: u16 = if use_movn(v) { 0xFFFF } else { 0 };
    if chunk(v, k) == skip {
        NOP
    } else {
        with_imm16(w, chunk(v, k))
    }
}

/// The bytes after patching the value hole at `off` with `v`.
pub open spec fn value_patch(bytes: Seq<u8>, off: int, v: u64) -> Seq<u8> {
    let w0 = read_u32(bytes, off);
    let w1 = read_u32(bytes, off + 4);
    let w2 = read_u32(bytes, off + 8);
    let w3 = read_u32(bytes, off + 12);
    overwrite(
        overwrite(
            overwrite(
                overwrite(bytes, off, le4(patched_base(w0, v))),
                off + 4,
                le4(patched_movk(w1, v, 1)),
            ),
            off + 8,
            le4(patched_movk(w2, v, 2)),
        ),
        off + 12,
        le4(patched_movk(w3, v, 3)),
    )
}

/// Patches the value hole at `offset` so that it materialises `value`.
pub fn apply_value_hole(buf: &mut Vec<u8>, offset: usize, value: u64)
    requires
        offset + 16 <= old(buf).len(),
    ensures
        final(buf)@ == value_patch(old(buf)@, offset as int, value),
{
    let ghost old_buf = buf@;
    let c0 = hole_chunk(value, 0);
    let c1 = hole_chunk(value, 1);
    let c2 = hole_chunk(value, 2);
    let c3 = hole_chunk(value, 3);
    let zero_skippable: usize = (if c1 == 0 { 1 } else { 0 }) + (if c2 == 0 { 1 } else { 0 }) + (
    if c3 == 0 { 1 } else { 0 });
    let ones_skippable: usize = (if c1 == 0xFFFF { 1 } else { 0 }) + (if c2 == 0xFFFF {
        1
    } else {
        0
    }) + (if c3 == 0xFFFF { 1 } else { 0 });
    let use_movn = ones_skippable > zero_skippable;
    assert(use_movn == crate::aarch64::use_movn(value));
    let w1 = read_u32_at(buf.as_slice(), offset + 4);
    let w2 = read_u32_at(buf.as_slice(), offset + 8);
    let w3 = read_u32_at(buf.as_slice(), offset + 12);
    let base_word = read_u32_at(buf.as_slice(), offset);
    let base_imm = if use_movn {
        !c0
    } else {
        c0
    };
    let mut new_base = (base_word & !(0xFFFFu32 << 5u32)) | ((base_imm as u32) << 5u32);
    if use_movn {
        new_base = new_base & !(1u32 << 30u32);
    }
    write_u32_at(buf, offset, new_base);
    let skip_value: u16 = if use_movn {
        0xFFFF
    } else {
        0
    };
    let words = [w1, w2, w3];
    let chunks = [c1, c2, c3];
    let mut k: usize = 1;
    while k < 4
        invariant
            1 <= k <= 4,
            offset + 16 <= buf.len(),
            words@ == seq![w1, w2, w3],
            chunks@ == seq![c1, c2, c3],
            skip_value == (if crate::aarch64::use_movn(value) { 0xFFFFu16 } else { 0u16 }),
            c1 == chunk(value, 1),
            c2 == chunk(value, 2),
            c3 == chunk(value, 3),
            buf@ == {
                let b1 = overwrite(old_buf, offset as int, le4(new_base));
                let b2 = if k > 1 {
                    overwrite(b1, offset + 4, le4(patched_movk(w1, value, 1)))
                } else {
                    b1
                };
                let b3 = if k > 2 {
                    overwrite(b2, offset + 8, le4(patched_movk(w2, value, 2)))
                } else {
                    b2
                };
                if k > 3 {
                    overwrite(b3, offset + 12, le4(patched_movk(w3, value, 3)))
                } else {
                    b3
                }
            },
        decreases 4 - k,
    {
        let off = offset + k * 4;
        if chunks[k - 1] == skip_value {
            write_u32_at(buf, off, NOP);
        } else {
            let word = words[k - 1];
            let patched = (word & !(0xFFFFu32 << 5u32)) | ((chunks[k - 1] as u32) << 5u32);
            write_u32_at(buf, off, patched);
        }
        k += 1;
    }
    proof {
        assert(read_u32(old_buf, offset as int) == base_word);
        assert(new_base == patched_base(base_word, value));
    }
}


proof fn lemma_patch_chain_bv(w0: u32, w1: u32, w2: u32, w3: u32, v: u64, x: u64, m: bool)
    by (bit_vector)
    requires
        (w0 & 0xFFE0_0000u32) == 0xD280_0000u32,
        (w1 & 0xFFE0_0000u32) == 0xF2A0_0000u32,
        (w2 & 0xFFE0_0000u32) == 0xF2C0_0000u32,
        (w3 & 0xFFE0_0000u32) == 0xF2E0_0000u32,
    ensures
        ({
            let c0 = v as u16;
            let c1 = (v >> 16u64) as u16;
            let c2 = (v >> 32u64) as u16;
            let c3 = (v >> 48u64) as u16;
            let skip: u16 = if m { 0xFFFFu16 } else { 0u16 };
            let b = if m {
                with_imm16(w0, !c0) & !(1u32 << 30u32)
            } else {
                with_imm16(w0, c0)
            };
            let p1 = if c1 == skip { NOP } else { with_imm16(w1, c1) };
            let p2 = if c2 == skip { NOP } else { with_imm16(w2, c2) };
            let p3 = if c3 == skip { NOP } else { with_imm16(w3, c3) };
            &&& exec_mov4(b, p1, p2, p3, x) == v
            &&& rd(b) == rd(w0)
            &&& (p1 == NOP || rd(p1) == rd(w1))
            &&& (p2 == NOP || rd(p2) == rd(w2))
            &&& (p3 == NOP || rd(p3) == rd(w3))
        }),
{
}

/// A patched value hole materialises its value: when the hole holds the
/// compiler's `movz`/`movk` chain, the four patched instructions, run from
/// any register value, leave exactly `v` in that chain's destination
/// register, and each of them is a `nop` or still writes that register.
pub proof fn theorem_value_hole(w0: u32, w1: u32, w2: u32, w3: u32, v: u64, x: u64)
    requires
        movz_movk_chain(w0, w1, w2, w3),
    ensures
        exec_mov4(
            patched_base(w0, v),
            patched_movk(w1, v, 1),
            patched_movk(w2, v, 2),
            patched_movk(w3, v, 3),
            x,
        ) == v,
        rd(patched_base(w0, v)) == rd(w0),
        patched_movk(w1, v, 1) == NOP || rd(patched_movk(w1, v, 1)) == rd(w0),
        patched_movk(w2, v, 2) == NOP || rd(patched_movk(w2, v, 2)) == rd(w0),
        patched_movk(w3, v, 3) == NOP || rd(patched_movk(w3, v, 3)) == rd(w0),
{
    lemma_patch_chain_bv(w0, w1, w2, w3, v, x, use_movn(v));
}

/// Patching a value hole rewrites its four words, as `patched_base` and
/// `patched_movk` say, and no other byte.
pub proof fn theorem_value_patch_words(bytes: Seq<u8>, off: int, v: u64)
    requires
        0 <= off,
        off + 16 <= bytes.len(),
    ensures
        ({
            let p = value_patch(bytes, off, v);
            &&& p.len() == bytes.len()
            &&& read_u32(p, off) == patched_base(read_u32(bytes, off), v)
            &&& read_u32(p, off + 4) == patched_movk(read_u32(bytes, off + 4), v, 1)
            &&& read_u32(p, off + 8) == patched_movk(read_u32(bytes, off + 8), v, 2)
            &&& read_u32(p, off + 12) == patched_movk(read_u32(bytes, off + 12), v, 3)
            &&& forall|j: int| 0 <= j < bytes.len() && !(off <= j < off + 16) ==> p[j] == bytes[j]
        }),
{
    let p = value_patch(bytes, off, v);
    crate::le_bytes::lemma_le4_read(patched_base(read_u32(bytes, off), v));
    crate::le_bytes::lemma_le4_read(patched_movk(read_u32(bytes, off + 4), v, 1));
    crate::le_bytes::lemma_le4_read(patched_movk(read_u32(bytes, off + 8), v, 2));
    crate::le_bytes::lemma_le4_read(patched_movk(read_u32(bytes, off + 12), v, 3));
    assert(read_u32(p, off) == read_u32(le4(patched_base(read_u32(bytes, off), v)), 0));
    assert(read_u32(p, off + 4) == read_u32(le4(patched_movk(read_u32(bytes, off + 4), v, 1)), 0));
    assert(read_u32(p, off + 8) == read_u32(le4(patched_movk(read_u32(bytes, off + 8), v, 2)), 0));
    assert(read_u32(p, off + 12) == read_u32(le4(patched_movk(read_u32(bytes, off + 12), v, 3)), 0));
}

// ---------------------------------------------------------------------------
// Branch holes
// ---------------------------------------------------------------------------
/// `w` is an unconditional `B`.
pub open spec fn is_branch(w: u32) -> bool {
    (w & 0xFC00_0000u32) == 0x1400_0000u32
}

/// The signed word offset of a `B`: its 26-bit immediate, sign-extended.
pub open spec fn branch_words(w: u32) -> int {
    let imm = (w & 0x03FF_FFFFu32) as int;
    if imm >= 0x0200_0000 {
        imm - 0x0400_0000
    } else {
        imm
    }
}

/// Where a `B` at address `addr` goes.
pub open spec fn branch_target(addr: int, w: u32) -> int {
    addr + 4 * branch_words(w)
}

/// The `B` with signed word offset `dw` (which must be in `-2^25..2^25`).
pub open spec fn branch_word(dw: int) -> u32 {
    let imm26 = if dw >= 0 {
        dw
    } else {
        dw + 0x0400_0000
    };
    0x1400_0000u32 | (imm26 as u32)
}

/// The 4 bytes at `i`, of a template that lives at address `template_addr`,
/// are a `B` to `marker`.
pub open spec fn branch_hole_at(bytes: Seq<u8>, i: int, template_addr: int, marker: int) -> bool {
    &&& 0 <= i
    &&& i + 4 <= bytes.len()
    &&& is_branch(read_u32(bytes, i))
    &&& branch_target(template_addr + i, read_u32(bytes, i)) == marker
}

/// Offset of the first 4-aligned `B` to `marker_live_addr` in the bytes of
/// a template that lives at `template_live_addr`.
pub fn find_branch_hole(bytes: &[u8], template_live_addr: usize, marker_live_addr: usize) -> (i:
    usize)
    requires
        exists|j: int|
            j % 4 == 0 && #[trigger] branch_hole_at(
                bytes@,
                j,
                template_live_addr as int,
                marker_live_addr as int,
            ),
    ensures
        i % 4 == 0,
        branch_hole_at(bytes@, i as int, template_live_addr as int, marker_live_addr as int),
        forall|j: int|
            0 <= j < i && j % 4 == 0 ==> !#[trigger] branch_hole_at(
                bytes@,
                j,
                template_live_addr as int,
                marker_live_addr as int,
            ),
{
    match search_branch_hole(bytes, template_live_addr, marker_live_addr) {
        Some(i) => i,
        None => {
            proof {
                let j = choose|j: int|
                    j % 4 == 0 && #[trigger] branch_hole_at(
                        bytes@,
                        j,
                        template_live_addr as int,
                        marker_live_addr as int,
                    );
                assert(branch_hole_at(bytes@, j, template_live_addr as int, marker_live_addr as int));
            }
            0
        },
    }
}

/// The offset of the first 4-aligned `B` to `marker_live_addr`, if any.
pub fn search_branch_hole(bytes: &[u8], template_live_addr: usize, marker_live_addr: usize) -> (res:
    Option<usize>)
    ensures
        res matches Some(i) ==> {
            &&& i % 4 == 0
            &&& branch_hole_at(bytes@, i as int, template_live_addr as int, marker_live_addr as int)
            &&& forall|j: int|
                0 <= j < i && j % 4 == 0 ==> !#[trigger] branch_hole_at(
                    bytes@,
                    j,
                    template_live_addr as int,
                    marker_live_addr as int,
                )
        },
        res is None ==> forall|j: int|
            j % 4 == 0 ==> !#[trigger] branch_hole_at(
                bytes@,
                j,
                template_live_addr as int,
                marker_live_addr as int,
            ),
{
    let ghost ta = template_live_addr as int;
    let ghost ma = marker_live_addr as int;
    let len = bytes.len();
    let mut i: usize = 0;
    while i < len
        invariant
            len == bytes@.len(),
            ta == template_live_addr as int,
            ma == marker_live_addr as int,
            i % 4 == 0,
            forall|j: int| 0 <= j < i && j % 4 == 0 ==> !#[trigger] branch_hole_at(bytes@, j, ta, ma),
        decreases len - i,
    {
        if len - i < 4 {
            return None;
        }
        let word = read_u32_at(bytes, i);
        if word & 0xFC00_0000 == 0x1400_0000 {
            let imm26 = (word & 0x03FF_FFFF) as i128;
            let simm26: i128 = if imm26 >= 0x0200_0000 {
                imm26 - 0x0400_0000
            } else {
                imm26
            };
            let target = template_live_addr as i128 + i as i128 + simm26 * 4;
            assert(simm26 == branch_words(word));
            assert(target == branch_target(ta + i, word));
            if target == marker_live_addr as i128 {
                return Some(i);
            }
        }
        i += 4;
    }
    None
}

proof fn lemma_branch_word_bv(u: u32)
    by (bit_vector)
    requires
        u < 0x0400_0000u32,
    ensures
        ((0x1400_0000u32 | u) & 0xFC00_0000u32) == 0x1400_0000u32,
        ((0x1400_0000u32 | u) & 0x03FF_FFFFu32) == u,
{
}

/// A `B` written for a word offset decodes to that offset: a branch written
/// at `addr` for `target` goes to `target`.
pub proof fn theorem_branch_word(addr: int, target: int)
    requires
        (target - addr) % 4 == 0,
        -0x0200_0000 <= (target - addr) / 4 < 0x0200_0000,
    ensures
        is_branch(branch_word((target - addr) / 4)),
        branch_words(branch_word((target - addr) / 4)) == (target - addr) / 4,
        branch_target(addr, branch_word((target - addr) / 4)) == target,
{
    let dw = (target - addr) / 4;
    let imm26 = if dw >= 0 {
        dw
    } else {
        dw + 0x0400_0000
    };
    lemma_branch_word_bv(imm26 as u32);
}

/// Writes, at `buf[offset..offset + 4]`, a `B` that sits at address
/// `op_base_addr + offset` and goes to `target_addr`.
pub fn apply_branch_hole(buf: &mut Vec<u8>, offset: usize, op_base_addr: usize, target_addr: usize)
    requires
        offset + 4 <= old(buf).len(),
        op_base_addr + offset <= usize::MAX,
        (target_addr - (op_base_addr + offset)) % 4 == 0,
        -0x0200_0000 <= (target_addr - (op_base_addr + offset)) / 4 < 0x0200_0000,
    ensures
        final(buf)@ == overwrite(
            old(buf)@,
            offset as int,
            le4(branch_word((target_addr - (op_base_addr + offset)) / 4)),
        ),
{
    let branch_addr = op_base_addr + offset;
    let ghost dw = (target_addr - branch_addr) / 4;
    let imm26: u32 = if target_addr >= branch_addr {
        ((target_addr - branch_addr) / 4) as u32
    } else {
        (0x0400_0000 - (branch_addr - target_addr) / 4) as u32
    };
    assert(imm26 as int == if dw >= 0 { dw } else { dw + 0x0400_0000 });
    let encoded = 0x1400_0000u32 | imm26;
    write_u32_at(buf, offset, encoded);
}
} // verus!
