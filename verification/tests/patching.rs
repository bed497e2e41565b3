use vm_perf::aarch64::{
    apply_branch_hole, apply_value_hole, chunks_ok, find_branch_hole, find_value_hole, hole_chunk,
    search_branch_hole, search_value_hole, NOP,
};
use vm_perf::le_bytes::{read_u32_at, read_u64_at, write_u32_at};
use vm_perf::template_jit::{HOLE_1, HOLE_2, HOLE_3, HOLE_IMM};

const MOVZ: u32 = 0xD280_0000;
const MOVK_16: u32 = 0xF2A0_0000;
const MOVK_32: u32 = 0xF2C0_0000;
const MOVK_48: u32 = 0xF2E0_0000;
const RET: u32 = 0xD65F_03C0;

/// The `movz`/`movk` chain that materialises `v` into register `x{rd}`.
fn chain(v: u64, rd: u32) -> [u32; 4] {
    [
        MOVZ | ((v & 0xFFFF) as u32) << 5 | rd,
        MOVK_16 | (((v >> 16) & 0xFFFF) as u32) << 5 | rd,
        MOVK_32 | (((v >> 32) & 0xFFFF) as u32) << 5 | rd,
        MOVK_48 | (((v >> 48) & 0xFFFF) as u32) << 5 | rd,
    ]
}

fn bytes_of(words: &[u32]) -> Vec<u8> {
    words.iter().flat_map(|w| w.to_le_bytes()).collect()
}

fn word_at(b: &[u8], i: usize) -> u32 {
    u32::from_le_bytes([b[i], b[i + 1], b[i + 2], b[i + 3]])
}

/// What a `nop` or a 64-bit `movn`/`movz`/`movk` does to its register.
fn run_mov(w: u32, x: u64) -> u64 {
    if w == NOP {
        return x;
    }
    let sh = ((w >> 21) & 3) * 16;
    let imm = ((w >> 5) & 0xFFFF) as u64;
    match (w >> 29) & 3 {
        2 => imm << sh,
        0 => !(imm << sh),
        3 => (x & !(0xFFFFu64 << sh)) | (imm << sh),
        _ => x,
    }
}

fn run_hole(b: &[u8], off: usize, x: u64) -> u64 {
    (0..4).fold(x, |acc, k| run_mov(word_at(b, off + 4 * k), acc))
}

#[test]
fn sentinels_have_no_trivial_chunk() {
    for v in [HOLE_1, HOLE_2, HOLE_3, HOLE_IMM] {
        assert!(chunks_ok(v));
    }
    assert!(!chunks_ok(0x1111_0000_3333_4445));
    assert!(!chunks_ok(0xFFFF_2222_3333_4445));
    assert!(!chunks_ok(0));
    assert!(!chunks_ok(u64::MAX));
}

#[test]
fn chunks_of_a_sentinel() {
    assert_eq!(hole_chunk(HOLE_IMM, 0), 0x1235);
    assert_eq!(hole_chunk(HOLE_IMM, 1), 0xcdef);
    assert_eq!(hole_chunk(HOLE_IMM, 2), 0xeeee);
    assert_eq!(hole_chunk(HOLE_IMM, 3), 0xdddd);
    assert_eq!(hole_chunk(0x0102_0304_0506_0708, 2), 0x0304);
}

#[test]
fn finds_the_first_value_hole() {
    let mut words = vec![NOP];
    words.extend_from_slice(&chain(HOLE_2, 8));
    words.extend_from_slice(&chain(HOLE_1, 9));
    words.extend_from_slice(&chain(HOLE_1, 10));
    words.push(RET);
    let b = bytes_of(&words);
    assert_eq!(find_value_hole(&b, HOLE_1), 20);
    assert_eq!(search_value_hole(&b, HOLE_1), Some(20));
    assert_eq!(find_value_hole(&b, HOLE_2), 4);
    assert_eq!(search_value_hole(&b, HOLE_3), None);
}

#[test]
fn value_hole_search_ignores_misaligned_and_truncated_chains() {
    // A chain that starts off the 4-byte grid is not a hole.
    let mut b = vec![0u8; 2];
    b.extend(bytes_of(&chain(HOLE_1, 9)));
    b.extend([0u8; 2]);
    assert_eq!(search_value_hole(&b, HOLE_1), None);
    // Three instructions of a chain are not a hole.
    let b = bytes_of(&chain(HOLE_1, 9)[..3]);
    assert_eq!(search_value_hole(&b, HOLE_1), None);
    assert_eq!(search_value_hole(&[], HOLE_1), None);
}

#[test]
fn small_value_keeps_movz_and_drops_movks() {
    let mut b = bytes_of(&chain(HOLE_1, 9));
    apply_value_hole(&mut b, 0, 3);
    assert_eq!(word_at(&b, 0), 0xD280_0069);
    assert_eq!(word_at(&b, 4), NOP);
    assert_eq!(word_at(&b, 8), NOP);
    assert_eq!(word_at(&b, 12), NOP);
    assert_eq!(run_hole(&b, 0, 0xdead_beef), 3);
}

#[test]
fn negative_value_switches_to_movn() {
    let mut b = bytes_of(&chain(HOLE_IMM, 10));
    apply_value_hole(&mut b, 0, -1i64 as u64);
    assert_eq!(word_at(&b, 0), 0x9280_000A);
    assert_eq!(word_at(&b, 4), NOP);
    assert_eq!(word_at(&b, 8), NOP);
    assert_eq!(word_at(&b, 12), NOP);
    assert_eq!(run_hole(&b, 0, 0), u64::MAX);

    let mut b = bytes_of(&chain(HOLE_IMM, 10));
    apply_value_hole(&mut b, 0, -100_000i64 as u64);
    assert_eq!(run_hole(&b, 0, 7), -100_000i64 as u64);
    assert_eq!(word_at(&b, 8), NOP);
    assert_eq!(word_at(&b, 12), NOP);
}

#[test]
fn mixed_value_patches_only_the_needed_movks() {
    let mut b = bytes_of(&chain(HOLE_2, 3));
    apply_value_hole(&mut b, 0, 0x0001_0000_0000_0005);
    assert_eq!(word_at(&b, 0), MOVZ | 5 << 5 | 3);
    assert_eq!(word_at(&b, 4), NOP);
    assert_eq!(word_at(&b, 8), NOP);
    assert_eq!(word_at(&b, 12), MOVK_48 | 1 << 5 | 3);
    assert_eq!(run_hole(&b, 0, u64::MAX), 0x0001_0000_0000_0005);
}

#[test]
fn patched_value_holes_materialise_their_value() {
    let values = [
        0u64,
        1,
        255,
        0xFFFF,
        0x1_0000,
        0x8000_0000_0000_0000,
        u64::MAX,
        -2i64 as u64,
        0xFFFF_0000_FFFF_0000,
        0x0000_FFFF_0000_FFFF,
        0x1234_5678_9abc_def0,
        HOLE_3,
    ];
    for v in values {
        for start in [0u64, u64::MAX, 0x5555_5555_5555_5555] {
            let mut b = vec![0xAAu8; 4];
            b.extend(bytes_of(&chain(HOLE_3, 17)));
            b.extend([0xBBu8; 4]);
            apply_value_hole(&mut b, 4, v);
            assert_eq!(run_hole(&b, 4, start), v, "value {v:#x}");
            assert_eq!(&b[..4], &[0xAA; 4]);
            assert_eq!(&b[20..], &[0xBB; 4]);
            for k in 0..4 {
                let w = word_at(&b, 4 + 4 * k);
                assert!(w == NOP || w & 31 == 17);
            }
        }
    }
}

fn branch(from: usize, to: usize) -> u32 {
    let d = (to as i64 - from as i64) / 4;
    0x1400_0000 | (d as u32 & 0x03FF_FFFF)
}

#[test]
fn finds_forward_and_backward_branch_holes() {
    let words = [NOP, RET, branch(0x1008, 0x2000), branch(0x100C, 0x800)];
    let b = bytes_of(&words);
    assert_eq!(word_at(&b, 8), 0x1400_03FE);
    assert_eq!(word_at(&b, 12), 0x17FF_FDFD);
    assert_eq!(find_branch_hole(&b, 0x1000, 0x2000), 8);
    assert_eq!(find_branch_hole(&b, 0x1000, 0x800), 12);
    assert_eq!(search_branch_hole(&b, 0x1000, 0x2004), None);
    // The same bytes loaded elsewhere branch elsewhere.
    assert_eq!(search_branch_hole(&b, 0x2000, 0x2000), None);
    assert_eq!(search_branch_hole(&b, 0x2000, 0x3000), Some(8));
}

#[test]
fn branch_search_ignores_non_branches_and_tails() {
    assert_eq!(search_branch_hole(&[], 0, 0), None);
    // `bl` (opcode 100101) is not a `B`.
    let bl = 0x9400_0001u32;
    let b = bytes_of(&[bl]);
    assert_eq!(search_branch_hole(&b, 0, 4), None);
    let mut b = bytes_of(&[NOP]);
    b.extend([0x01, 0x00, 0x00]);
    assert_eq!(search_branch_hole(&b, 0, 8), None);
}

#[test]
fn writes_branches_both_ways() {
    let mut b = vec![0u8; 8];
    apply_branch_hole(&mut b, 4, 0x100, 0x200);
    assert_eq!(b, vec![0, 0, 0, 0, 0x3F, 0x00, 0x00, 0x14]);
    apply_branch_hole(&mut b, 0, 0x100, 0x80);
    assert_eq!(word_at(&b, 0), 0x17FF_FFE0);
    assert_eq!(find_branch_hole(&b, 0x100, 0x80), 0);
    assert_eq!(find_branch_hole(&b, 0x100, 0x200), 4);
    // A branch to itself.
    apply_branch_hole(&mut b, 4, 0, 4);
    assert_eq!(word_at(&b, 4), 0x1400_0000);
}

#[test]
fn little_endian_words() {
    let b = [0x11u8, 0x22, 0x33, 0x44, 0x55, 0x66, 0x77, 0x88, 0x99];
    assert_eq!(read_u32_at(&b, 0), 0x4433_2211);
    assert_eq!(read_u32_at(&b, 5), 0x9988_7766);
    assert_eq!(read_u64_at(&b, 1), 0x9988_7766_5544_3322);
    let mut v = b.to_vec();
    write_u32_at(&mut v, 2, 0xDEAD_BEEF);
    assert_eq!(v, vec![0x11, 0x22, 0xEF, 0xBE, 0xAD, 0xDE, 0x77, 0x88, 0x99]);
}

#[test]
fn patched_branch_is_the_first_one_found() {
    // Two earlier `B`s that go elsewhere, then a patched one at byte 12.
    let mut b = bytes_of(&[NOP, branch(0x1004, 0x3000), RET, NOP, NOP]);
    apply_branch_hole(&mut b, 12, 0x1000, 0x2000);
    assert_eq!(find_branch_hole(&b, 0x1000, 0x2000), 12);
    assert_eq!(search_branch_hole(&b, 0x1000, 0x2000), Some(12));
    // The earlier branch is still found for its own target.
    assert_eq!(find_branch_hole(&b, 0x1000, 0x3000), 4);
}

#[test]
fn chunks_put_back_together_give_the_value() {
    for v in [HOLE_1, HOLE_2, HOLE_3, HOLE_IMM, 0, u64::MAX, 0x0123_4567_89AB_CDEF] {
        let sum: u64 = (0..4).map(|k| (hole_chunk(v, k) as u64) << (16 * k)).sum();
        assert_eq!(sum, v);
    }
}
