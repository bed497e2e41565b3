use crate::aarch64::{
    branch_hole_at, branch_target, chunk, exec_mov4, imm16, is_branch, is_movz_or_movk, theorem_value_patch_words,
    movz_movk_chain, rd, theorem_value_hole, value_hole_at, value_patch, NOP,
};
use crate::le_bytes::{read_u32, read_u32_at};
use crate::expr::{spec_argmax, Expr};
use crate::register_ir::{lowered_num_regs, lowered_ops, Op};
use crate::text::{dec, dec_int, pad_left};
use crate::template_jit::{
    branch_ok, branch_patch, check_templates_wf, code_len, code_offset, label, label_op, first_branch_hole, theorem_branch_patch, first_value_hole, lemma_read_linked, linkable,
    linked_code, op_linkable, patched_op, TemplateCodes, Templates, HOLE_1, HOLE_2, HOLE_3,
    HOLE_IMM,
};
use vstd::prelude::*;

verus! {

/// The 16 bytes at `h` are the compiler's `movz`/`movk` chain for a 64-bit
/// constant.
pub open spec fn chain_at(b: Seq<u8>, h: int) -> bool {
    movz_movk_chain(read_u32(b, h), read_u32(b, h + 4), read_u32(b, h + 8), read_u32(b, h + 12))
}

/// What the four words at `h` leave in their register, starting from `x`.
pub open spec fn hole_value(b: Seq<u8>, h: int, x: u64) -> u64 {
    exec_mov4(read_u32(b, h), read_u32(b, h + 4), read_u32(b, h + 8), read_u32(b, h + 12), x)
}

/// Each of the four words at `h` is a `nop` or writes register `r`.
pub open spec fn hole_writes(b: Seq<u8>, h: int, r: u32) -> bool {
    &&& (read_u32(b, h) == NOP || rd(read_u32(b, h)) == r)
    &&& (read_u32(b, h + 4) == NOP || rd(read_u32(b, h + 4)) == r)
    &&& (read_u32(b, h + 8) == NOP || rd(read_u32(b, h + 8)) == r)
    &&& (read_u32(b, h + 12) == NOP || rd(read_u32(b, h + 12)) == r)
}

/// The four words at `h` are the same in `a` and `b`.
spec fn same16(a: Seq<u8>, b: Seq<u8>, h: int) -> bool {
    &&& read_u32(a, h) == read_u32(b, h)
    &&& read_u32(a, h + 4) == read_u32(b, h + 4)
    &&& read_u32(a, h + 8) == read_u32(b, h + 8)
    &&& read_u32(a, h + 12) == read_u32(b, h + 12)
}

/// The byte ranges `a..a + n` and `b..b + m` do not overlap.
pub open spec fn apart(a: int, n: int, b: int, m: int) -> bool {
    a + n <= b || b + m <= a
}

/// `b` with the value holes at `offs` patched with `vals`, in order.
pub open spec fn patch_values(b: Seq<u8>, offs: Seq<nat>, vals: Seq<u64>) -> Seq<u8>
    decreases offs.len(),
{
    if offs.len() == 0 {
        b
    } else {
        value_patch(
            patch_values(b, offs.drop_last(), vals.drop_last()),
            offs.last() as int,
            vals.last(),
        )
    }
}

/// The value holes of the template of `op`, in the order `link` patches them.
pub open spec fn value_holes(t: Templates, op: Op) -> Seq<nat> {
    match op {
        Op::LoadImm(..) => seq![t.loadimm.dest as nat, t.loadimm.imm as nat],
        Op::Move(..) => seq![t.mov.dest as nat, t.mov.src as nat],
        Op::Add(..) => seq![t.add.dest as nat, t.add.a as nat, t.add.b as nat],
        Op::AddImm(..) => seq![t.addimm.dest as nat, t.addimm.a as nat, t.addimm.imm as nat],
        Op::JmpZN(..) => seq![t.jmpzn.reg as nat],
        Op::Jmp(..) => seq![],
        Op::Ret(..) => seq![t.ret.reg as nat],
    }
}

/// The operands of `op` that go into its value holes.
pub open spec fn operands(op: Op) -> Seq<u64> {
    match op {
        Op::LoadImm(dest, imm) => seq![dest as u64, imm as u64],
        Op::Move(dest, src) => seq![dest as u64, src as u64],
        Op::Add(dest, a, b) => seq![dest as u64, a as u64, b as u64],
        Op::AddImm(dest, a, imm) => seq![dest as u64, a as u64, imm as u64],
        Op::JmpZN(reg, _) => seq![reg as u64],
        Op::Jmp(..) => seq![],
        Op::Ret(reg) => seq![reg as u64],
    }
}

/// The branch holes of the template of `op`.
pub open spec fn branch_holes(t: Templates, op: Op) -> Seq<nat> {
    match op {
        Op::LoadImm(..) => seq![t.loadimm.next as nat],
        Op::Move(..) => seq![t.mov.next as nat],
        Op::Add(..) => seq![t.add.next as nat],
        Op::AddImm(..) => seq![t.addimm.next as nat],
        Op::JmpZN(..) => seq![t.jmpzn.taken as nat, t.jmpzn.fallthrough as nat],
        Op::Jmp(..) => seq![t.jmp.target as nat],
        Op::Ret(..) => seq![],
    }
}

/// No two holes of the template of `op` overlap.
pub open spec fn holes_apart(t: Templates, op: Op) -> bool {
    let vh = value_holes(t, op);
    let bh = branch_holes(t, op);
    &&& forall|i: int, j: int|
        0 <= i < j < vh.len() ==> apart(#[trigger] vh[i] as int, 16, #[trigger] vh[j] as int, 16)
    &&& forall|i: int, j: int|
        0 <= i < vh.len() && 0 <= j < bh.len() ==> apart(
            #[trigger] bh[j] as int,
            4,
            #[trigger] vh[i] as int,
            16,
        )
}

/// Every value hole of the template of `op` is a `movz`/`movk` chain.
pub open spec fn chains(t: Templates, op: Op) -> bool {
    forall|i: int|
        0 <= i < value_holes(t, op).len() ==> chain_at(
            t.template_of(op),
            #[trigger] value_holes(t, op)[i] as int,
        )
}

proof fn lemma_value_patch_keeps(b: Seq<u8>, off: int, v: u64, h: int)
    requires
        0 <= off,
        off + 16 <= b.len(),
        0 <= h,
        h + 16 <= b.len(),
        apart(off, 16, h, 16),
    ensures
        value_patch(b, off, v).len() == b.len(),
        same16(value_patch(b, off, v), b, h),
{
    theorem_value_patch_words(b, off, v);
    let p = value_patch(b, off, v);
    assert forall|j: int| h <= j < h + 16 implies p[j] == b[j] by {}
    assert(read_u32(p, h) == read_u32(b, h));
    assert(read_u32(p, h + 4) == read_u32(b, h + 4));
    assert(read_u32(p, h + 8) == read_u32(b, h + 8));
    assert(read_u32(p, h + 12) == read_u32(b, h + 12));
}

proof fn lemma_value_patch_own(b: Seq<u8>, h: int, v: u64, x: u64)
    requires
        0 <= h,
        h + 16 <= b.len(),
        chain_at(b, h),
    ensures
        hole_value(value_patch(b, h, v), h, x) == v,
        hole_writes(value_patch(b, h, v), h, rd(read_u32(b, h))),
{
    theorem_value_patch_words(b, h, v);
    theorem_value_hole(
        read_u32(b, h),
        read_u32(b, h + 4),
        read_u32(b, h + 8),
        read_u32(b, h + 12),
        v,
        x,
    );
}

proof fn lemma_branch_patch_keeps(b: Seq<u8>, off: nat, op_base: nat, target: nat, h: int)
    requires
        off + 4 <= b.len(),
        0 <= h,
        h + 16 <= b.len(),
        apart(off as int, 4, h, 16),
    ensures
        branch_patch(b, off, op_base, target).len() == b.len(),
        same16(branch_patch(b, off, op_base, target), b, h),
{
    let p = branch_patch(b, off, op_base, target);
    assert forall|j: int| h <= j < h + 16 implies p[j] == b[j] by {}
    assert(read_u32(p, h) == read_u32(b, h));
    assert(read_u32(p, h + 4) == read_u32(b, h + 4));
    assert(read_u32(p, h + 8) == read_u32(b, h + 8));
    assert(read_u32(p, h + 12) == read_u32(b, h + 12));
}

/// Patching value holes that all lie apart from `h` leaves `h` alone.
proof fn lemma_patch_values_keep(b: Seq<u8>, offs: Seq<nat>, vals: Seq<u64>, h: int)
    requires
        offs.len() == vals.len(),
        forall|j: int| 0 <= j < offs.len() ==> #[trigger] offs[j] + 16 <= b.len(),
        forall|j: int| 0 <= j < offs.len() ==> apart(#[trigger] offs[j] as int, 16, h, 16),
        0 <= h,
        h + 16 <= b.len(),
    ensures
        patch_values(b, offs, vals).len() == b.len(),
        same16(patch_values(b, offs, vals), b, h),
    decreases offs.len(),
{
    if offs.len() > 0 {
        let o2 = offs.drop_last();
        let v2 = vals.drop_last();
        assert(forall|j: int| 0 <= j < o2.len() ==> o2[j] == offs[j]);
        lemma_patch_values_keep(b, o2, v2, h);
        let last = offs.len() - 1;
        assert(offs[last] + 16 <= b.len());
        assert(apart(offs[last] as int, 16, h, 16));
        lemma_value_patch_keeps(patch_values(b, o2, v2), offs.last() as int, vals.last(), h);
    }
}

/// Each value hole, patched in turn, materialises its value, when the holes
/// are chains that do not overlap.
proof fn lemma_patch_values(b: Seq<u8>, offs: Seq<nat>, vals: Seq<u64>, i: int, x: u64)
    requires
        offs.len() == vals.len(),
        0 <= i < offs.len(),
        forall|j: int| 0 <= j < offs.len() ==> #[trigger] offs[j] + 16 <= b.len(),
        forall|j: int, l: int|
            0 <= j < l < offs.len() ==> apart(#[trigger] offs[j] as int, 16, #[trigger] offs[l] as int, 16),
        chain_at(b, offs[i] as int),
    ensures
        patch_values(b, offs, vals).len() == b.len(),
        hole_value(patch_values(b, offs, vals), offs[i] as int, x) == vals[i],
        hole_writes(patch_values(b, offs, vals), offs[i] as int, rd(read_u32(b, offs[i] as int))),
    decreases offs.len(),
{
    let n = offs.len() - 1;
    let o2 = offs.drop_last();
    let v2 = vals.drop_last();
    let p2 = patch_values(b, o2, v2);
    assert(forall|j: int| 0 <= j < o2.len() ==> o2[j] == offs[j]);
    assert(forall|j: int| 0 <= j < v2.len() ==> v2[j] == vals[j]);
    let h = offs[i] as int;
    assert(offs[i] + 16 <= b.len());
    if i == n {
        assert forall|j: int| 0 <= j < o2.len() implies apart(#[trigger] o2[j] as int, 16, h, 16) by {
            assert(apart(offs[j] as int, 16, offs[n] as int, 16));
        }
        lemma_patch_values_keep(b, o2, v2, h);
        lemma_value_patch_own(p2, h, vals[i], x);
    } else {
        lemma_patch_values(b, o2, v2, i, x);
        assert(offs[n] + 16 <= b.len());
        assert(apart(offs[i] as int, 16, offs[n] as int, 16));
        lemma_value_patch_keeps(p2, offs[n] as int, vals[n], h);
    }
}

proof fn lemma_patch_values_one(b: Seq<u8>, a: nat, x: u64)
    ensures
        patch_values(b, seq![a], seq![x]) == value_patch(b, a as int, x),
{
    let o = seq![a];
    let v = seq![x];
    assert(o.drop_last() =~= Seq::<nat>::empty());
    assert(v.drop_last() =~= Seq::<u64>::empty());
    assert(patch_values(b, o.drop_last(), v.drop_last()) == b);
    assert(o.last() == a);
    assert(v.last() == x);
}

proof fn lemma_patch_values_two(b: Seq<u8>, a: nat, c: nat, x: u64, y: u64)
    ensures
        patch_values(b, seq![a, c], seq![x, y]) == value_patch(value_patch(b, a as int, x), c as int, y),
{
    assert(seq![a, c].drop_last() =~= seq![a]);
    assert(seq![x, y].drop_last() =~= seq![x]);
    lemma_patch_values_one(b, a, x);
}

proof fn lemma_patch_values_three(b: Seq<u8>, a: nat, c: nat, d: nat, x: u64, y: u64, z: u64)
    ensures
        patch_values(b, seq![a, c, d], seq![x, y, z]) == value_patch(
            value_patch(value_patch(b, a as int, x), c as int, y),
            d as int,
            z,
        ),
{
    assert(seq![a, c, d].drop_last() =~= seq![a, c]);
    assert(seq![x, y, z].drop_last() =~= seq![x, y]);
    lemma_patch_values_two(b, a, c, x, y);
}

/// The patched template of an instruction that falls through: its value
/// holes patched in turn, then the branch hole to the next instruction.
proof fn lemma_shape_loadimm(ops: Seq<Op>, t: Templates, k: nat, dest: usize, imm: i64)
    requires
        k < ops.len(),
        ops[k as int] == Op::LoadImm(dest, imm),
    ensures
        patched_op(ops, t, k) == branch_patch(
            patch_values(
                t.loadimm.base.bytes@,
                seq![t.loadimm.dest as nat, t.loadimm.imm as nat],
                seq![dest as u64, imm as u64],
            ),
            t.loadimm.next as nat,
            code_offset(ops, t, k),
            code_offset(ops, t, k + 1),
        ),
{
    reveal(patched_op);
    lemma_patch_values_two(t.loadimm.base.bytes@, t.loadimm.dest as nat, t.loadimm.imm as nat, dest as u64, imm as u64);
}

proof fn lemma_shape_move(ops: Seq<Op>, t: Templates, k: nat, dest: usize, src: usize)
    requires
        k < ops.len(),
        ops[k as int] == Op::Move(dest, src),
    ensures
        patched_op(ops, t, k) == branch_patch(
            patch_values(
                t.mov.base.bytes@,
                seq![t.mov.dest as nat, t.mov.src as nat],
                seq![dest as u64, src as u64],
            ),
            t.mov.next as nat,
            code_offset(ops, t, k),
            code_offset(ops, t, k + 1),
        ),
{
    reveal(patched_op);
    lemma_patch_values_two(t.mov.base.bytes@, t.mov.dest as nat, t.mov.src as nat, dest as u64, src as u64);
}

proof fn lemma_shape_add(ops: Seq<Op>, t: Templates, k: nat, dest: usize, a: usize, b: usize)
    requires
        k < ops.len(),
        ops[k as int] == Op::Add(dest, a, b),
    ensures
        patched_op(ops, t, k) == branch_patch(
            patch_values(
                t.add.base.bytes@,
                seq![t.add.dest as nat, t.add.a as nat, t.add.b as nat],
                seq![dest as u64, a as u64, b as u64],
            ),
            t.add.next as nat,
            code_offset(ops, t, k),
            code_offset(ops, t, k + 1),
        ),
{
    reveal(patched_op);
    lemma_patch_values_three(
        t.add.base.bytes@,
        t.add.dest as nat,
        t.add.a as nat,
        t.add.b as nat,
        dest as u64,
        a as u64,
        b as u64,
    );
}

proof fn lemma_shape_addimm(ops: Seq<Op>, t: Templates, k: nat, dest: usize, a: usize, imm: i64)
    requires
        k < ops.len(),
        ops[k as int] == Op::AddImm(dest, a, imm),
    ensures
        patched_op(ops, t, k) == branch_patch(
            patch_values(
                t.addimm.base.bytes@,
                seq![t.addimm.dest as nat, t.addimm.a as nat, t.addimm.imm as nat],
                seq![dest as u64, a as u64, imm as u64],
            ),
            t.addimm.next as nat,
            code_offset(ops, t, k),
            code_offset(ops, t, k + 1),
        ),
{
    reveal(patched_op);
    lemma_patch_values_three(
        t.addimm.base.bytes@,
        t.addimm.dest as nat,
        t.addimm.a as nat,
        t.addimm.imm as nat,
        dest as u64,
        a as u64,
        imm as u64,
    );
}

/// The patched template of a `JmpZN`: its register hole, then its two
/// branch holes.
proof fn lemma_shape_jmpzn(ops: Seq<Op>, t: Templates, k: nat, reg: usize, target: usize)
    requires
        k < ops.len(),
        ops[k as int] == Op::JmpZN(reg, target),
    ensures
        patched_op(ops, t, k) == branch_patch(
            branch_patch(
                patch_values(t.jmpzn.base.bytes@, seq![t.jmpzn.reg as nat], seq![reg as u64]),
                t.jmpzn.taken as nat,
                code_offset(ops, t, k),
                code_offset(ops, t, target as nat),
            ),
            t.jmpzn.fallthrough as nat,
            code_offset(ops, t, k),
            code_offset(ops, t, k + 1),
        ),
{
    reveal(patched_op);
    lemma_patch_values_one(t.jmpzn.base.bytes@, t.jmpzn.reg as nat, reg as u64);
}

/// The patched template of a `Ret`: its register hole.
proof fn lemma_shape_ret(ops: Seq<Op>, t: Templates, k: nat, reg: usize)
    requires
        k < ops.len(),
        ops[k as int] == Op::Ret(reg),
    ensures
        patched_op(ops, t, k) == patch_values(t.ret.base.bytes@, seq![t.ret.reg as nat], seq![reg as u64]),
{
    reveal(patched_op);
    lemma_patch_values_one(t.ret.base.bytes@, t.ret.reg as nat, reg as u64);
}

/// The facts that `lemma_branches_keep_values` gives.
spec fn keeps_values(ops: Seq<Op>, t: Templates, k: nat, i: int) -> bool {
    &&& patched_op(ops, t, k).len() == t.template_of(ops[k as int]).len()
    &&& same16(
        patched_op(ops, t, k),
        patch_values(
            t.template_of(ops[k as int]),
            value_holes(t, ops[k as int]),
            operands(ops[k as int]),
        ),
        value_holes(t, ops[k as int])[i] as int,
    )
}

/// What `lemma_branches_keep_values` needs.
spec fn keep_values_pre(ops: Seq<Op>, t: Templates, k: nat, i: int) -> bool {
    &&& t.wf()
    &&& k < ops.len()
    &&& holes_apart(t, ops[k as int])
    &&& 0 <= i < value_holes(t, ops[k as int]).len()
    &&& patch_values(
        t.template_of(ops[k as int]),
        value_holes(t, ops[k as int]),
        operands(ops[k as int]),
    ).len() == t.template_of(ops[k as int]).len()
}

proof fn lemma_keep_straight(ops: Seq<Op>, t: Templates, k: nat, i: int)
    requires
        keep_values_pre(ops, t, k, i),
        ops[k as int] is LoadImm || ops[k as int] is Move || ops[k as int] is Add
            || ops[k as int] is AddImm,
        patched_op(ops, t, k) == branch_patch(
            patch_values(
                t.template_of(ops[k as int]),
                value_holes(t, ops[k as int]),
                operands(ops[k as int]),
            ),
            branch_holes(t, ops[k as int])[0],
            code_offset(ops, t, k),
            code_offset(ops, t, k + 1),
        ),
    ensures
        keeps_values(ops, t, k, i),
{
    let op = ops[k as int];
    let vh = value_holes(t, op);
    let bh = branch_holes(t, op);
    assert(apart(bh[0] as int, 4, vh[i] as int, 16));
    lemma_branch_patch_keeps(
        patch_values(t.template_of(op), vh, operands(op)),
        bh[0],
        code_offset(ops, t, k),
        code_offset(ops, t, k + 1),
        vh[i] as int,
    );
}

/// Patching the branch holes after the value holes leaves value hole `i`
/// of instruction `k` alone.
proof fn lemma_branches_keep_values(ops: Seq<Op>, t: Templates, k: nat, i: int)
    requires
        keep_values_pre(ops, t, k, i),
    ensures
        keeps_values(ops, t, k, i),
{
    match ops[k as int] {
        Op::LoadImm(dest, imm) => {
            lemma_shape_loadimm(ops, t, k, dest, imm);
            lemma_keep_straight(ops, t, k, i);
        },
        Op::Move(dest, src) => {
            lemma_shape_move(ops, t, k, dest, src);
            lemma_keep_straight(ops, t, k, i);
        },
        Op::Add(dest, a, b) => {
            lemma_shape_add(ops, t, k, dest, a, b);
            lemma_keep_straight(ops, t, k, i);
        },
        Op::AddImm(dest, a, imm) => {
            lemma_shape_addimm(ops, t, k, dest, a, imm);
            lemma_keep_straight(ops, t, k, i);
        },
        Op::JmpZN(reg, target) => {
            lemma_shape_jmpzn(ops, t, k, reg, target);
            lemma_keep_jmpzn(ops, t, k, i, reg, target);
        },
        Op::Jmp(_) => {},
        Op::Ret(reg) => {
            lemma_shape_ret(ops, t, k, reg);
        },
    }
}

proof fn lemma_keep_jmpzn(ops: Seq<Op>, t: Templates, k: nat, i: int, reg: usize, target: usize)
    requires
        keep_values_pre(ops, t, k, i),
        ops[k as int] == Op::JmpZN(reg, target),
        patched_op(ops, t, k) == branch_patch(
            branch_patch(
                patch_values(t.jmpzn.base.bytes@, seq![t.jmpzn.reg as nat], seq![reg as u64]),
                t.jmpzn.taken as nat,
                code_offset(ops, t, k),
                code_offset(ops, t, target as nat),
            ),
            t.jmpzn.fallthrough as nat,
            code_offset(ops, t, k),
            code_offset(ops, t, k + 1),
        ),
    ensures
        keeps_values(ops, t, k, i),
{
    let op = ops[k as int];
    let vh = value_holes(t, op);
    let bh = branch_holes(t, op);
    let h = vh[i] as int;
    let pv = patch_values(t.jmpzn.base.bytes@, seq![t.jmpzn.reg as nat], seq![reg as u64]);
    let start = code_offset(ops, t, k);
    let dest = code_offset(ops, t, target as nat);
    let w = branch_patch(pv, t.jmpzn.taken as nat, start, dest);
    assert(apart(bh[0] as int, 4, vh[i] as int, 16));
    assert(apart(bh[1] as int, 4, vh[i] as int, 16));
    lemma_branch_patch_keeps(pv, t.jmpzn.taken as nat, start, dest, h);
    lemma_branch_patch_keeps(w, t.jmpzn.fallthrough as nat, start, code_offset(ops, t, k + 1), h);
}

/// Linking puts every operand into place: when the value holes of the
/// template of instruction `k` are the compiler's `movz`/`movk` chains and
/// no two holes of that template overlap, each value hole of instruction
/// `k` in the linked code, run from any register value, leaves exactly its
/// operand (register number or immediate), and writes no register but the
/// one that its template's chain writes.
pub proof fn theorem_link_values(ops: Seq<Op>, t: Templates, k: nat, i: int, x: u64)
    requires
        linkable(ops, t),
        k < ops.len(),
        chains(t, ops[k as int]),
        holes_apart(t, ops[k as int]),
        0 <= i < value_holes(t, ops[k as int]).len(),
    ensures
        hole_value(
            linked_code(ops, t),
            (code_offset(ops, t, k) + value_holes(t, ops[k as int])[i]) as int,
            x,
        ) == operands(ops[k as int])[i],
        hole_writes(
            linked_code(ops, t),
            (code_offset(ops, t, k) + value_holes(t, ops[k as int])[i]) as int,
            rd(read_u32(t.template_of(ops[k as int]), value_holes(t, ops[k as int])[i] as int)),
        ),
{
    let op = ops[k as int];
    let tb = t.template_of(op);
    let vh = value_holes(t, op);
    let h = vh[i] as int;
    assert(forall|j: int| 0 <= j < vh.len() ==> #[trigger] vh[j] + 16 <= tb.len());
    assert(chain_at(tb, vh[i] as int));
    lemma_patch_values(tb, vh, operands(op), i, x);
    lemma_branches_keep_values(ops, t, k, i);
    lemma_read_linked(ops, t, k, h as nat);
    lemma_read_linked(ops, t, k, (h + 4) as nat);
    lemma_read_linked(ops, t, k, (h + 8) as nat);
    lemma_read_linked(ops, t, k, (h + 12) as nat);
}

/// Where instruction `k` goes on: the branch hole that continues after it
/// and the instruction that hole goes to (for a `JmpZN`, the one taken when
/// its register is positive); `None` for a `Ret`.
pub open spec fn successor(ops: Seq<Op>, t: Templates, k: nat) -> Option<(nat, nat)> {
    match ops[k as int] {
        Op::LoadImm(..) => Some((t.loadimm.next as nat, k + 1)),
        Op::Move(..) => Some((t.mov.next as nat, k + 1)),
        Op::Add(..) => Some((t.add.next as nat, k + 1)),
        Op::AddImm(..) => Some((t.addimm.next as nat, k + 1)),
        Op::JmpZN(..) => Some((t.jmpzn.fallthrough as nat, k + 1)),
        Op::Jmp(target) => Some((t.jmp.target as nat, target as nat)),
        Op::Ret(_) => None,
    }
}

/// The word at byte `at` of `code` is a `B` that goes to byte `dest`.
pub open spec fn branches_to(code: Seq<u8>, at: nat, dest: nat) -> bool {
    &&& at + 4 <= code.len()
    &&& is_branch(read_u32(code, at as int))
    &&& branch_target(at as int, read_u32(code, at as int)) == dest
}

proof fn lemma_patch_values_len(b: Seq<u8>, offs: Seq<nat>, vals: Seq<u64>)
    ensures
        patch_values(b, offs, vals).len() == b.len(),
    decreases offs.len(),
{
    if offs.len() > 0 {
        lemma_patch_values_len(b, offs.drop_last(), vals.drop_last());
    }
}

proof fn lemma_shape_jmp(ops: Seq<Op>, t: Templates, k: nat, target: usize)
    requires
        k < ops.len(),
        ops[k as int] == Op::Jmp(target),
    ensures
        patched_op(ops, t, k) == branch_patch(
            t.jmp.base.bytes@,
            t.jmp.target as nat,
            code_offset(ops, t, k),
            code_offset(ops, t, target as nat),
        ),
{
    reveal(patched_op);
}

/// The last patch of instruction `k` is a branch hole: it reads, in the
/// linked code, as a `B` to where the patch aimed it.
proof fn lemma_last_branch(ops: Seq<Op>, t: Templates, k: nat, b: Seq<u8>, h: nat, dest: nat)
    requires
        k < ops.len(),
        h + 4 <= b.len(),
        branch_ok(h, code_offset(ops, t, k), dest),
        patched_op(ops, t, k) == branch_patch(b, h, code_offset(ops, t, k), dest),
    ensures
        branches_to(linked_code(ops, t), code_offset(ops, t, k) + h, dest),
{
    theorem_branch_patch(b, h, code_offset(ops, t, k), dest);
    lemma_read_linked(ops, t, k, h);
}

/// Linking wires every instruction to where it goes on: the hole that
/// continues after instruction `k` is a `B` to the instruction that follows
/// it (to its target, for a `Jmp`); and the taken hole of a `JmpZN`, when it
/// does not overlap the other hole of its template, is a `B` to its target.
pub proof fn theorem_link_successors(ops: Seq<Op>, t: Templates, k: nat)
    requires
        linkable(ops, t),
        k < ops.len(),
    ensures
        successor(ops, t, k) matches Some((h, j)) ==> branches_to(
            linked_code(ops, t),
            code_offset(ops, t, k) + h,
            code_offset(ops, t, j),
        ),
        ops[k as int] matches Op::JmpZN(_, target) ==> ((t.jmpzn.taken + 4 <= t.jmpzn.fallthrough
            || t.jmpzn.fallthrough + 4 <= t.jmpzn.taken) ==> branches_to(
            linked_code(ops, t),
            (code_offset(ops, t, k) + t.jmpzn.taken) as nat,
            code_offset(ops, t, target as nat),
        )),
{
    assert(op_linkable(ops, t, k));
    let op = ops[k as int];
    let tb = t.template_of(op);
    let pv = patch_values(tb, value_holes(t, op), operands(op));
    lemma_patch_values_len(tb, value_holes(t, op), operands(op));
    let start = code_offset(ops, t, k);
    let next = code_offset(ops, t, k + 1);
    match op {
        Op::LoadImm(dest, imm) => {
            lemma_shape_loadimm(ops, t, k, dest, imm);
            lemma_last_branch(ops, t, k, pv, t.loadimm.next as nat, next);
        },
        Op::Move(dest, src) => {
            lemma_shape_move(ops, t, k, dest, src);
            lemma_last_branch(ops, t, k, pv, t.mov.next as nat, next);
        },
        Op::Add(dest, a, b) => {
            lemma_shape_add(ops, t, k, dest, a, b);
            lemma_last_branch(ops, t, k, pv, t.add.next as nat, next);
        },
        Op::AddImm(dest, a, imm) => {
            lemma_shape_addimm(ops, t, k, dest, a, imm);
            lemma_last_branch(ops, t, k, pv, t.addimm.next as nat, next);
        },
        Op::JmpZN(reg, target) => {
            lemma_shape_jmpzn(ops, t, k, reg, target);
            let dest = code_offset(ops, t, target as nat);
            let w = branch_patch(pv, t.jmpzn.taken as nat, start, dest);
            lemma_last_branch(ops, t, k, w, t.jmpzn.fallthrough as nat, next);
            if t.jmpzn.taken + 4 <= t.jmpzn.fallthrough || t.jmpzn.fallthrough + 4 <= t.jmpzn.taken {
                let p = patched_op(ops, t, k);
                let h = t.jmpzn.taken as int;
                theorem_branch_patch(pv, t.jmpzn.taken as nat, start, dest);
                assert(p[h] == w[h]);
                assert(p[h + 1] == w[h + 1]);
                assert(p[h + 2] == w[h + 2]);
                assert(p[h + 3] == w[h + 3]);
                assert(read_u32(p, h) == read_u32(w, h));
                lemma_read_linked(ops, t, k, t.jmpzn.taken as nat);
            }
        },
        Op::Jmp(target) => {
            lemma_shape_jmp(ops, t, k, target);
            lemma_last_branch(
                ops,
                t,
                k,
                t.jmp.base.bytes@,
                t.jmp.target as nat,
                code_offset(ops, t, target as nat),
            );
        },
        Op::Ret(_) => {},
    }
}

// ---------------------------------------------------------------------------
// Located holes do not overlap
// ---------------------------------------------------------------------------
/// The chunks of the four sentinels.
proof fn lemma_sentinel_chunks()
    ensures
        chunk(HOLE_1, 0) == 0x4445 && chunk(HOLE_1, 1) == 0x3333 && chunk(HOLE_1, 2) == 0x2222
            && chunk(HOLE_1, 3) == 0x1111,
        chunk(HOLE_2, 0) == 0x8889 && chunk(HOLE_2, 1) == 0x7777 && chunk(HOLE_2, 2) == 0x6666
            && chunk(HOLE_2, 3) == 0x5555,
        chunk(HOLE_3, 0) == 0xcccd && chunk(HOLE_3, 1) == 0xbbbb && chunk(HOLE_3, 2) == 0xaaaa
            && chunk(HOLE_3, 3) == 0x9999,
        chunk(HOLE_IMM, 0) == 0x1235 && chunk(HOLE_IMM, 1) == 0xcdef && chunk(HOLE_IMM, 2)
            == 0xeeee && chunk(HOLE_IMM, 3) == 0xdddd,
{
    assert({
        let a = 0x1111_2222_3333_4445u64;
        let b = 0x5555_6666_7777_8889u64;
        let c = 0x9999_aaaa_bbbb_cccdu64;
        let d = 0xdddd_eeee_cdef_1235u64;
        &&& a as u16 == 0x4445u16 && (a >> 16u64) as u16 == 0x3333u16
        &&& (a >> 32u64) as u16 == 0x2222u16 && (a >> 48u64) as u16 == 0x1111u16
        &&& b as u16 == 0x8889u16 && (b >> 16u64) as u16 == 0x7777u16
        &&& (b >> 32u64) as u16 == 0x6666u16 && (b >> 48u64) as u16 == 0x5555u16
        &&& c as u16 == 0xcccdu16 && (c >> 16u64) as u16 == 0xbbbbu16
        &&& (c >> 32u64) as u16 == 0xaaaau16 && (c >> 48u64) as u16 == 0x9999u16
        &&& d as u16 == 0x1235u16 && (d >> 16u64) as u16 == 0xcdefu16
        &&& (d >> 32u64) as u16 == 0xeeeeu16 && (d >> 48u64) as u16 == 0xddddu16
    }) by (bit_vector);
}

/// No chunk of `s1` is a chunk of `s2`.
pub open spec fn chunks_disjoint(s1: u64, s2: u64) -> bool {
    forall|m: int, n: int| 0 <= m < 4 && 0 <= n < 4 ==> chunk(s1, m) != chunk(s2, n)
}

/// Two 4-aligned value holes of sentinels that share no chunk do not
/// overlap: a word that both cover would carry a chunk of each.
proof fn lemma_value_holes_apart(b: Seq<u8>, i: int, s1: u64, j: int, s2: u64)
    requires
        value_hole_at(b, i, s1),
        value_hole_at(b, j, s2),
        i % 4 == 0,
        j % 4 == 0,
        chunks_disjoint(s1, s2),
    ensures
        apart(i, 16, j, 16),
{
    if !apart(i, 16, j, 16) {
        if i <= j {
            let m = (j - i) / 4;
            assert(i + 4 * m == j + 4 * 0);
            assert(imm16(read_u32(b, i + 4 * m)) == chunk(s1, m) as u32);
            assert(imm16(read_u32(b, j + 4 * 0)) == chunk(s2, 0) as u32);
        } else {
            let m = (i - j) / 4;
            assert(j + 4 * m == i + 4 * 0);
            assert(imm16(read_u32(b, j + 4 * m)) == chunk(s2, m) as u32);
            assert(imm16(read_u32(b, i + 4 * 0)) == chunk(s1, 0) as u32);
        }
    }
}

proof fn lemma_branch_not_mov(w: u32)
    by (bit_vector)
    ensures
        (w & 0xFC00_0000u32) == 0x1400_0000u32 ==> !((w & 0x7F80_0000u32) == 0x5280_0000u32 || (w
            & 0x7F80_0000u32) == 0x7280_0000u32),
{
}

/// A 4-aligned branch hole does not overlap a 4-aligned value hole: a `B`
/// is no `movz` or `movk`.
proof fn lemma_branch_value_apart(b: Seq<u8>, j: int, addr: int, marker: int, i: int, s: u64)
    requires
        branch_hole_at(b, j, addr, marker),
        value_hole_at(b, i, s),
        i % 4 == 0,
        j % 4 == 0,
    ensures
        apart(j, 4, i, 16),
{
    if !apart(j, 4, i, 16) {
        let m = (j - i) / 4;
        assert(i + 4 * m == j);
        lemma_branch_not_mov(read_u32(b, j));
        assert(is_movz_or_movk(read_u32(b, i + 4 * m)));
    }
}

/// The holes that `templates` locates in `c`.
pub open spec fn located(c: TemplateCodes, t: Templates) -> bool {
    &&& t.loadimm.base.bytes@ == c.loadimm.bytes@
    &&& t.mov.base.bytes@ == c.mov.bytes@
    &&& t.add.base.bytes@ == c.add.bytes@
    &&& t.addimm.base.bytes@ == c.addimm.bytes@
    &&& t.jmpzn.base.bytes@ == c.jmpzn.bytes@
    &&& t.jmp.base.bytes@ == c.jmp.bytes@
    &&& t.ret.base.bytes@ == c.ret.bytes@
    &&& first_value_hole(c.loadimm.bytes@, t.loadimm.dest, HOLE_1)
    &&& first_value_hole(c.loadimm.bytes@, t.loadimm.imm, HOLE_IMM)
    &&& first_branch_hole(c.loadimm.bytes@, t.loadimm.next, c.loadimm.live_addr, c.marker_addr)
    &&& first_value_hole(c.mov.bytes@, t.mov.dest, HOLE_1)
    &&& first_value_hole(c.mov.bytes@, t.mov.src, HOLE_2)
    &&& first_branch_hole(c.mov.bytes@, t.mov.next, c.mov.live_addr, c.marker_addr)
    &&& first_value_hole(c.add.bytes@, t.add.dest, HOLE_1)
    &&& first_value_hole(c.add.bytes@, t.add.a, HOLE_2)
    &&& first_value_hole(c.add.bytes@, t.add.b, HOLE_3)
    &&& first_branch_hole(c.add.bytes@, t.add.next, c.add.live_addr, c.marker_addr)
    &&& first_value_hole(c.addimm.bytes@, t.addimm.dest, HOLE_1)
    &&& first_value_hole(c.addimm.bytes@, t.addimm.a, HOLE_2)
    &&& first_value_hole(c.addimm.bytes@, t.addimm.imm, HOLE_IMM)
    &&& first_branch_hole(c.addimm.bytes@, t.addimm.next, c.addimm.live_addr, c.marker_addr)
    &&& first_value_hole(c.jmpzn.bytes@, t.jmpzn.reg, HOLE_1)
    &&& first_branch_hole(c.jmpzn.bytes@, t.jmpzn.taken, c.jmpzn.live_addr, c.marker_addr)
    &&& first_branch_hole(c.jmpzn.bytes@, t.jmpzn.fallthrough, c.jmpzn.live_addr, c.marker2_addr)
    &&& first_branch_hole(c.jmp.bytes@, t.jmp.target, c.jmp.live_addr, c.marker_addr)
    &&& first_value_hole(c.ret.bytes@, t.ret.reg, HOLE_1)
}

/// The holes that `templates` locates never overlap: the sentinels share no
/// chunk, and a `B` is no `movz` or `movk`.
pub proof fn theorem_located_holes_apart(c: TemplateCodes, t: Templates, op: Op)
    requires
        located(c, t),
    ensures
        holes_apart(t, op),
{
    lemma_sentinel_chunks();
    assert(chunks_disjoint(HOLE_1, HOLE_IMM));
    assert(chunks_disjoint(HOLE_1, HOLE_2));
    assert(chunks_disjoint(HOLE_1, HOLE_3));
    assert(chunks_disjoint(HOLE_2, HOLE_3));
    assert(chunks_disjoint(HOLE_2, HOLE_IMM));
    let vh = value_holes(t, op);
    let bh = branch_holes(t, op);
    match op {
        Op::LoadImm(..) => {
            let b = c.loadimm.bytes@;
            let a = c.loadimm.live_addr as int;
            let m = c.marker_addr as int;
            lemma_value_holes_apart(b, t.loadimm.dest as int, HOLE_1, t.loadimm.imm as int, HOLE_IMM);
            lemma_branch_value_apart(b, t.loadimm.next as int, a, m, t.loadimm.dest as int, HOLE_1);
            lemma_branch_value_apart(b, t.loadimm.next as int, a, m, t.loadimm.imm as int, HOLE_IMM);
        },
        Op::Move(..) => {
            let b = c.mov.bytes@;
            let a = c.mov.live_addr as int;
            let m = c.marker_addr as int;
            lemma_value_holes_apart(b, t.mov.dest as int, HOLE_1, t.mov.src as int, HOLE_2);
            lemma_branch_value_apart(b, t.mov.next as int, a, m, t.mov.dest as int, HOLE_1);
            lemma_branch_value_apart(b, t.mov.next as int, a, m, t.mov.src as int, HOLE_2);
        },
        Op::Add(..) => {
            let b = c.add.bytes@;
            let a = c.add.live_addr as int;
            let m = c.marker_addr as int;
            lemma_value_holes_apart(b, t.add.dest as int, HOLE_1, t.add.a as int, HOLE_2);
            lemma_value_holes_apart(b, t.add.dest as int, HOLE_1, t.add.b as int, HOLE_3);
            lemma_value_holes_apart(b, t.add.a as int, HOLE_2, t.add.b as int, HOLE_3);
            lemma_branch_value_apart(b, t.add.next as int, a, m, t.add.dest as int, HOLE_1);
            lemma_branch_value_apart(b, t.add.next as int, a, m, t.add.a as int, HOLE_2);
            lemma_branch_value_apart(b, t.add.next as int, a, m, t.add.b as int, HOLE_3);
        },
        Op::AddImm(..) => {
            let b = c.addimm.bytes@;
            let a = c.addimm.live_addr as int;
            let m = c.marker_addr as int;
            lemma_value_holes_apart(b, t.addimm.dest as int, HOLE_1, t.addimm.a as int, HOLE_2);
            lemma_value_holes_apart(b, t.addimm.dest as int, HOLE_1, t.addimm.imm as int, HOLE_IMM);
            lemma_value_holes_apart(b, t.addimm.a as int, HOLE_2, t.addimm.imm as int, HOLE_IMM);
            lemma_branch_value_apart(b, t.addimm.next as int, a, m, t.addimm.dest as int, HOLE_1);
            lemma_branch_value_apart(b, t.addimm.next as int, a, m, t.addimm.a as int, HOLE_2);
            lemma_branch_value_apart(b, t.addimm.next as int, a, m, t.addimm.imm as int, HOLE_IMM);
        },
        Op::JmpZN(..) => {
            let b = c.jmpzn.bytes@;
            let a = c.jmpzn.live_addr as int;
            lemma_branch_value_apart(
                b,
                t.jmpzn.taken as int,
                a,
                c.marker_addr as int,
                t.jmpzn.reg as int,
                HOLE_1,
            );
            lemma_branch_value_apart(
                b,
                t.jmpzn.fallthrough as int,
                a,
                c.marker2_addr as int,
                t.jmpzn.reg as int,
                HOLE_1,
            );
        },
        Op::Jmp(..) => {},
        Op::Ret(..) => {},
    }
    assert forall|i: int, j: int| 0 <= i < j < vh.len() implies apart(
        #[trigger] vh[i] as int,
        16,
        #[trigger] vh[j] as int,
        16,
    ) by {}
    assert forall|i: int, j: int| 0 <= i < vh.len() && 0 <= j < bh.len() implies apart(
        #[trigger] bh[j] as int,
        4,
        #[trigger] vh[i] as int,
        16,
    ) by {}
}


// ---------------------------------------------------------------------------
// Checking the shape of the value holes
// ---------------------------------------------------------------------------
/// Whether the 16 bytes at `h` are a `movz`/`movk` chain on one register.
fn chain_at_exec(b: &Vec<u8>, h: usize) -> (ok: bool)
    requires
        h + 16 <= b@.len(),
    ensures
        ok == chain_at(b@, h as int),
{
    let _n = b.len();
    let w0 = read_u32_at(b.as_slice(), h);
    let w1 = read_u32_at(b.as_slice(), h + 4);
    let w2 = read_u32_at(b.as_slice(), h + 8);
    let w3 = read_u32_at(b.as_slice(), h + 12);
    (w0 & 0xFFE0_0000) == 0xD280_0000 && (w1 & 0xFFE0_0000) == 0xF2A0_0000 && (w2 & 0xFFE0_0000)
        == 0xF2C0_0000 && (w3 & 0xFFE0_0000) == 0xF2E0_0000 && (w1 & 31) == (w0 & 31) && (w2 & 31)
        == (w0 & 31) && (w3 & 31) == (w0 & 31)
}

/// Every value hole of every template is a chain.
pub open spec fn all_chains(t: Templates) -> bool {
    &&& chains(t, Op::LoadImm(0, 0))
    &&& chains(t, Op::Move(0, 0))
    &&& chains(t, Op::Add(0, 0, 0))
    &&& chains(t, Op::AddImm(0, 0, 0))
    &&& chains(t, Op::JmpZN(0, 0))
    &&& chains(t, Op::Ret(0))
}

/// `all_chains` covers every instruction.
pub proof fn lemma_all_chains(t: Templates, op: Op)
    requires
        all_chains(t),
    ensures
        chains(t, op),
{
    match op {
        Op::LoadImm(..) => assert(value_holes(t, op) == value_holes(t, Op::LoadImm(0, 0))),
        Op::Move(..) => assert(value_holes(t, op) == value_holes(t, Op::Move(0, 0))),
        Op::Add(..) => assert(value_holes(t, op) == value_holes(t, Op::Add(0, 0, 0))),
        Op::AddImm(..) => assert(value_holes(t, op) == value_holes(t, Op::AddImm(0, 0, 0))),
        Op::JmpZN(..) => assert(value_holes(t, op) == value_holes(t, Op::JmpZN(0, 0))),
        Op::Jmp(..) => {},
        Op::Ret(..) => assert(value_holes(t, op) == value_holes(t, Op::Ret(0))),
    }
}

/// `all_chains`, hole by hole.
proof fn lemma_all_chains_unfold(t: Templates)
    ensures
        all_chains(t) == (chain_at(t.loadimm.base.bytes@, t.loadimm.dest as int) && chain_at(
            t.loadimm.base.bytes@,
            t.loadimm.imm as int,
        ) && chain_at(t.mov.base.bytes@, t.mov.dest as int) && chain_at(t.mov.base.bytes@, t.mov.src as int)
            && chain_at(t.add.base.bytes@, t.add.dest as int) && chain_at(t.add.base.bytes@, t.add.a as int)
            && chain_at(t.add.base.bytes@, t.add.b as int) && chain_at(
            t.addimm.base.bytes@,
            t.addimm.dest as int,
        ) && chain_at(t.addimm.base.bytes@, t.addimm.a as int) && chain_at(
            t.addimm.base.bytes@,
            t.addimm.imm as int,
        ) && chain_at(t.jmpzn.base.bytes@, t.jmpzn.reg as int) && chain_at(
            t.ret.base.bytes@,
            t.ret.reg as int,
        )),
{
    let t0 = t;
        assert(value_holes(t0, Op::LoadImm(0, 0)) =~= seq![t0.loadimm.dest as nat, t0.loadimm.imm as nat]);
        assert(value_holes(t0, Op::Add(0, 0, 0)) =~= seq![t0.add.dest as nat, t0.add.a as nat, t0.add.b as nat]);
        assert(chains(t0, Op::LoadImm(0, 0)) == (chain_at(t0.loadimm.base.bytes@, t0.loadimm.dest as int)
            && chain_at(t0.loadimm.base.bytes@, t0.loadimm.imm as int))) by {
            let vh = value_holes(t0, Op::LoadImm(0, 0));
            assert(vh[0] == t0.loadimm.dest && vh[1] == t0.loadimm.imm);
        }
        assert(chains(t0, Op::Move(0, 0)) == (chain_at(t0.mov.base.bytes@, t0.mov.dest as int)
            && chain_at(t0.mov.base.bytes@, t0.mov.src as int))) by {
            let vh = value_holes(t0, Op::Move(0, 0));
            assert(vh[0] == t0.mov.dest && vh[1] == t0.mov.src);
        }
        assert(chains(t0, Op::Add(0, 0, 0)) == (chain_at(t0.add.base.bytes@, t0.add.dest as int)
            && chain_at(t0.add.base.bytes@, t0.add.a as int) && chain_at(t0.add.base.bytes@, t0.add.b as int))) by {
            let vh = value_holes(t0, Op::Add(0, 0, 0));
            assert(vh[0] == t0.add.dest && vh[1] == t0.add.a && vh[2] == t0.add.b);
        }
        assert(chains(t0, Op::AddImm(0, 0, 0)) == (chain_at(t0.addimm.base.bytes@, t0.addimm.dest as int)
            && chain_at(t0.addimm.base.bytes@, t0.addimm.a as int) && chain_at(
            t0.addimm.base.bytes@,
            t0.addimm.imm as int,
        ))) by {
            let vh = value_holes(t0, Op::AddImm(0, 0, 0));
            assert(vh[0] == t0.addimm.dest && vh[1] == t0.addimm.a && vh[2] == t0.addimm.imm);
        }
        assert(chains(t0, Op::JmpZN(0, 0)) == chain_at(t0.jmpzn.base.bytes@, t0.jmpzn.reg as int)) by {
            let vh = value_holes(t0, Op::JmpZN(0, 0));
            assert(vh[0] == t0.jmpzn.reg);
        }
        assert(chains(t0, Op::Ret(0)) == chain_at(t0.ret.base.bytes@, t0.ret.reg as int)) by {
            let vh = value_holes(t0, Op::Ret(0));
            assert(vh[0] == t0.ret.reg);
        }
    }

/// Whether the holes lie inside their templates and every value hole is the
/// compiler's `movz`/`movk` chain on one register, the premise of
/// `theorem_link_values`.
pub fn check_chains(t: &Templates) -> (ok: bool)
    ensures
        ok == (t.wf() && all_chains(*t)),
{
    if !check_templates_wf(t) {
        return false;
    }
    let ok = chain_at_exec(&t.loadimm.base.bytes, t.loadimm.dest) && chain_at_exec(
        &t.loadimm.base.bytes,
        t.loadimm.imm,
    ) && chain_at_exec(&t.mov.base.bytes, t.mov.dest) && chain_at_exec(&t.mov.base.bytes, t.mov.src)
        && chain_at_exec(&t.add.base.bytes, t.add.dest) && chain_at_exec(&t.add.base.bytes, t.add.a)
        && chain_at_exec(&t.add.base.bytes, t.add.b) && chain_at_exec(
        &t.addimm.base.bytes,
        t.addimm.dest,
    ) && chain_at_exec(&t.addimm.base.bytes, t.addimm.a) && chain_at_exec(
        &t.addimm.base.bytes,
        t.addimm.imm,
    ) && chain_at_exec(&t.jmpzn.base.bytes, t.jmpzn.reg) && chain_at_exec(
        &t.ret.base.bytes,
        t.ret.reg,
    );
    proof {
        lemma_all_chains_unfold(*t);
    }
    ok
}

// ---------------------------------------------------------------------------
// Patching a branch hole, then searching for it
// ---------------------------------------------------------------------------
/// Patching, then searching: when no 4-aligned `B` before `offset` goes to
/// `target` from where it sits, the branch that `apply_branch_hole` writes
/// at a 4-aligned `offset` is the first that `find_branch_hole` and
/// `search_branch_hole` find for that target.
pub proof fn theorem_patch_then_find(bytes: Seq<u8>, offset: nat, op_base: nat, target: nat)
    requires
        offset % 4 == 0,
        offset + 4 <= bytes.len(),
        branch_ok(offset, op_base, target),
        forall|j: int|
            0 <= j < offset && j % 4 == 0 ==> !#[trigger] branch_hole_at(
                bytes,
                j,
                op_base as int,
                target as int,
            ),
    ensures
        ({
            let p = branch_patch(bytes, offset, op_base, target);
            &&& branch_hole_at(p, offset as int, op_base as int, target as int)
            &&& forall|j: int|
                0 <= j < offset && j % 4 == 0 ==> !#[trigger] branch_hole_at(
                    p,
                    j,
                    op_base as int,
                    target as int,
                )
            &&& forall|i: int|
                #![trigger branch_hole_at(p, i, op_base as int, target as int)]
                0 <= i && i % 4 == 0 && branch_hole_at(p, i, op_base as int, target as int) && (
                forall|j: int|
                    0 <= j < i && j % 4 == 0 ==> !#[trigger] branch_hole_at(
                        p,
                        j,
                        op_base as int,
                        target as int,
                    )) ==> i == offset
        }),
{
    let p = branch_patch(bytes, offset, op_base, target);
    theorem_branch_patch(bytes, offset, op_base, target);
    assert forall|j: int| 0 <= j < offset && j % 4 == 0 implies !#[trigger] branch_hole_at(
        p,
        j,
        op_base as int,
        target as int,
    ) by {
        assert(j + 4 <= offset);
        assert(p.len() == bytes.len());
        assert(p[j] == bytes[j]);
        assert(p[j + 1] == bytes[j + 1]);
        assert(p[j + 2] == bytes[j + 2]);
        assert(p[j + 3] == bytes[j + 3]);
        assert(read_u32(p, j) == read_u32(bytes, j));
        assert(!branch_hole_at(bytes, j, op_base as int, target as int));
    }
    assert forall|i: int|
        #![trigger branch_hole_at(p, i, op_base as int, target as int)]
        0 <= i && i % 4 == 0 && branch_hole_at(p, i, op_base as int, target as int) && (forall|
            j: int,
        |
            0 <= j < i && j % 4 == 0 ==> !#[trigger] branch_hole_at(
                p,
                j,
                op_base as int,
                target as int,
            )) implies i == offset by {
        if i > offset {
            assert(branch_hole_at(p, offset as int, op_base as int, target as int));
        }
    }
}


/// What the label of instruction `k` begins with: `i`, the index `k` in at
/// least three digits, and `_`.
pub open spec fn label_head(k: nat) -> Seq<char> {
    "i"@ + pad_left(dec(k), 3, '0') + "_"@
}

proof fn lemma_label_head(op: Op, k: nat)
    ensures
        label_op(op, k).len() > label_head(k).len(),
        label_op(op, k).subrange(0, label_head(k).len() as int) =~= label_head(k),
{
    reveal_strlit("_");
    let head = "i"@ + pad_left(dec(k), 3, '0');
    let lit = match op {
        Op::LoadImm(..) => {
            reveal_strlit("_loadimm_r");
            "_loadimm_r"@
        },
        Op::Move(..) => {
            reveal_strlit("_move_r");
            "_move_r"@
        },
        Op::Add(..) => {
            reveal_strlit("_add_r");
            "_add_r"@
        },
        Op::AddImm(..) => {
            reveal_strlit("_addimm_r");
            "_addimm_r"@
        },
        Op::JmpZN(..) => {
            reveal_strlit("_jmpzn_r");
            "_jmpzn_r"@
        },
        Op::Jmp(..) => {
            reveal_strlit("_jmp_to_i");
            "_jmp_to_i"@
        },
        Op::Ret(..) => {
            reveal_strlit("_ret_r");
            "_ret_r"@
        },
    };
    let rest = label_op(op, k).subrange((head.len() + lit.len()) as int, label_op(op, k).len() as int);
    assert(label_op(op, k) =~= head + lit + rest);
    assert(lit[0] == '_');
}

proof fn lemma_code_offset_grows(ops: Seq<Op>, t: Templates, j: nat, k: nat)
    requires
        t.wf(),
        j < k <= ops.len(),
    ensures
        code_offset(ops, t, j) < code_offset(ops, t, k),
    decreases k,
{
    assert(t.template_of(ops[k - 1]).len() > 0);
    if j + 1 < k {
        lemma_code_offset_grows(ops, t, j, (k - 1) as nat);
    }
}

/// The labels of a compiled native program: the first instruction starts at
/// byte 0, each one starts after the one before it and inside the code,
/// every label begins with `i`, its index in three digits and `_`, and the
/// register file holds the arguments and at least one register.
pub proof fn theorem_label_shape(e: Expr, t: Templates)
    requires
        linkable(lowered_ops(e), t),
    ensures
        code_offset(lowered_ops(e), t, 0) == 0,
        forall|j: nat, k: nat|
            j < k < lowered_ops(e).len() ==> #[trigger] code_offset(lowered_ops(e), t, j)
                < #[trigger] code_offset(lowered_ops(e), t, k),
        forall|k: nat|
            k < lowered_ops(e).len() ==> #[trigger] code_offset(lowered_ops(e), t, k) < code_len(
                lowered_ops(e),
                t,
            ),
        forall|k: nat|
            k < lowered_ops(e).len() ==> (#[trigger] label(lowered_ops(e), k)).subrange(
                0,
                label_head(k).len() as int,
            ) == label_head(k),
        lowered_num_regs(e) >= 1,
        lowered_num_regs(e) >= spec_argmax(e),
{
    let ops = lowered_ops(e);
    assert forall|j: nat, k: nat| j < k < ops.len() implies #[trigger] code_offset(ops, t, j)
        < #[trigger] code_offset(ops, t, k) by {
        lemma_code_offset_grows(ops, t, j, k);
    }
    assert forall|k: nat| k < ops.len() implies #[trigger] code_offset(ops, t, k) < code_len(
        ops,
        t,
    ) by {
        lemma_code_offset_grows(ops, t, k, ops.len());
    }
    assert forall|k: nat| k < ops.len() implies (#[trigger] label(ops, k)).subrange(
        0,
        label_head(k).len() as int,
    ) == label_head(k) by {
        lemma_label_head(ops[k as int], k);
    }
}

/// The label of instruction `op` at index `k` names it with its fields in
/// order: `i`, the index in at least three digits, `_`, the mnemonic, then
/// the destination (or tested) register, the source registers `a` and `b`
/// in that order, the immediate in decimal, and for a jump the index of its
/// target in at least three digits.
pub proof fn theorem_label_text(op: Op, k: nat)
    ensures
        op matches Op::LoadImm(d, x) ==> label_op(op, k) == "i"@ + pad_left(dec(k), 3, '0')
            + "_loadimm_r"@ + dec(d as nat) + "_"@ + dec_int(x as int),
        op matches Op::Move(d, src) ==> label_op(op, k) == "i"@ + pad_left(dec(k), 3, '0')
            + "_move_r"@ + dec(d as nat) + "_r"@ + dec(src as nat),
        op matches Op::Add(d, a, b) ==> label_op(op, k) == "i"@ + pad_left(dec(k), 3, '0')
            + "_add_r"@ + dec(d as nat) + "_r"@ + dec(a as nat) + "_r"@ + dec(b as nat),
        op matches Op::AddImm(d, a, x) ==> label_op(op, k) == "i"@ + pad_left(dec(k), 3, '0')
            + "_addimm_r"@ + dec(d as nat) + "_r"@ + dec(a as nat) + "_"@ + dec_int(x as int),
        op matches Op::JmpZN(r, t) ==> label_op(op, k) == "i"@ + pad_left(dec(k), 3, '0')
            + "_jmpzn_r"@ + dec(r as nat) + "_to_i"@ + pad_left(dec(t as nat), 3, '0'),
        op matches Op::Jmp(t) ==> label_op(op, k) == "i"@ + pad_left(dec(k), 3, '0')
            + "_jmp_to_i"@ + pad_left(dec(t as nat), 3, '0'),
        op matches Op::Ret(r) ==> label_op(op, k) == "i"@ + pad_left(dec(k), 3, '0') + "_ret_r"@
            + dec(r as nat),
{
}

} // verus!
