use crate::expr::{spec_argmax, Expr};
use crate::text::{dec, dec_int, dec_signed, pad_left, pad_right, push_dec, push_dec_right, push_i64, push_int_left, push_signed};
use vstd::string::StringExecFns;
use crate::le_bytes::{le4, le8, read_u32, read_u32_at, read_u64, read_u64_at};
use crate::register_ir::{is_lowerable, load_registers, lower, lowerable, lowered_num_regs, lowered_ops, Op};
use vstd::prelude::*;

verus! {

/// A register virtual machine whose program is a compact byte code, run by
/// one handler per opcode that passes control on to the next handler.
pub struct BytecodeRegister;

pub const OP_LOADIMM: u8 = 0;
pub const OP_MOVE: u8 = 1;
pub const OP_ADD: u8 = 2;
pub const OP_ADDIMM: u8 = 3;
pub const OP_JMPZN: u8 = 4;
pub const OP_JMP: u8 = 5;
pub const OP_RET: u8 = 6;

pub const LOADIMM_SIZE: usize = 1 + 1 + 8;
pub const MOVE_SIZE: usize = 1 + 1 + 1;
pub const ADD_SIZE: usize = 1 + 1 + 1 + 1;
pub const ADDIMM_SIZE: usize = 1 + 1 + 1 + 8;
pub const JMPZN_SIZE: usize = 1 + 1 + 4;
pub const JMP_SIZE: usize = 1 + 4;
pub const RET_SIZE: usize = 1 + 1;

/// A compiled program: the byte code, the size of the register file and
/// the number of arguments that are preloaded into registers `0..n_args`.
///
/// Byte code layout, one instruction after the other (registers are one
/// byte, immediates eight bytes and jump offsets four bytes, little-endian;
/// a jump offset counts from the first byte of the jump instruction):
/// `0 dest imm`, `1 dest src`, `2 dest a b`, `3 dest a imm`, `4 reg offset`,
/// `5 offset`, `6 reg`.
///
/// Multi-byte fields are little-endian on every host, not in the host's own
/// byte order: the same instructions always give the same bytes. On the
/// hosts this crate runs on (AArch64, whose machine code the template JIT
/// patches, and x86-64) the two orders are the same.
pub struct Program {
    code: Vec<u8>,
    num_regs: usize,
    n_args: usize,
}

impl Program {
    #[verifier::type_invariant]
    spec fn wf(self) -> bool {
        &&& self.n_args <= self.num_regs
        &&& listing(self.code@, 0) is Some
    }

    pub closed spec fn code(&self) -> Seq<u8> {
        self.code@
    }

    pub closed spec fn num_regs(&self) -> nat {
        self.num_regs as nat
    }

    pub closed spec fn n_args(&self) -> nat {
        self.n_args as nat
    }
}

// ---------------------------------------------------------------------------
// Encoding
// ---------------------------------------------------------------------------
/// Size in bytes of the encoding of `op`.
pub open spec fn op_size(op: Op) -> nat {
    match op {
        Op::LoadImm(..) => 10,
        Op::Move(..) => 3,
        Op::Add(..) => 4,
        Op::AddImm(..) => 11,
        Op::JmpZN(..) => 6,
        Op::Jmp(..) => 5,
        Op::Ret(..) => 2,
    }
}

/// Byte offset of instruction `k`: the sizes of the instructions before it.
pub open spec fn offset(ops: Seq<Op>, k: nat) -> nat
    decreases k,
{
    if k == 0 || k > ops.len() {
        0
    } else {
        offset(ops, (k - 1) as nat) + op_size(ops[k - 1])
    }
}

/// Size in bytes of the whole encoded program.
pub open spec fn code_size(ops: Seq<Op>) -> nat {
    offset(ops, ops.len())
}

/// The jump offset, in bytes, from instruction `k` to instruction `t`.
pub open spec fn jump_offset(ops: Seq<Op>, k: nat, t: nat) -> int {
    offset(ops, t) - offset(ops, k)
}

/// The bytes of instruction `k`.
pub open spec fn encode_op(ops: Seq<Op>, k: nat) -> Seq<u8> {
    match ops[k as int] {
        Op::LoadImm(d, x) => seq![OP_LOADIMM, d as u8] + le8(x as u64),
        Op::Move(d, s) => seq![OP_MOVE, d as u8, s as u8],
        Op::Add(d, a, b) => seq![OP_ADD, d as u8, a as u8, b as u8],
        Op::AddImm(d, a, x) => seq![OP_ADDIMM, d as u8, a as u8] + le8(x as u64),
        Op::JmpZN(r, t) => seq![OP_JMPZN, r as u8] + le4(
            (jump_offset(ops, k, t as nat) as i32) as u32,
        ),
        Op::Jmp(t) => seq![OP_JMP] + le4((jump_offset(ops, k, t as nat) as i32) as u32),
        Op::Ret(r) => seq![OP_RET, r as u8],
    }
}

/// The bytes of the first `n` instructions.
pub open spec fn encode_prefix(ops: Seq<Op>, n: nat) -> Seq<u8>
    decreases n,
{
    if n == 0 || n > ops.len() {
        Seq::empty()
    } else {
        encode_prefix(ops, (n - 1) as nat) + encode_op(ops, (n - 1) as nat)
    }
}

/// The byte code of a whole instruction list.
pub open spec fn encode(ops: Seq<Op>) -> Seq<u8> {
    encode_prefix(ops, ops.len())
}

/// Every register an instruction names fits in a byte.
pub open spec fn regs_fit(op: Op) -> bool {
    match op {
        Op::LoadImm(d, _) => d <= 255,
        Op::Move(d, s) => d <= 255 && s <= 255,
        Op::Add(d, a, b) => d <= 255 && a <= 255 && b <= 255,
        Op::AddImm(d, a, _) => d <= 255 && a <= 255,
        Op::JmpZN(r, _) => r <= 255,
        Op::Jmp(_) => true,
        Op::Ret(r) => r <= 255,
    }
}

/// A jump of instruction `k` lands on an instruction and its byte offset
/// fits in an `i32`.
pub open spec fn jump_fits(ops: Seq<Op>, k: nat) -> bool {
    match ops[k as int] {
        Op::JmpZN(_, t) => t < ops.len() && i32::MIN <= jump_offset(ops, k, t as nat) <= i32::MAX,
        Op::Jmp(t) => t < ops.len() && i32::MIN <= jump_offset(ops, k, t as nat) <= i32::MAX,
        _ => true,
    }
}

/// The instruction list can be put into byte code.
pub open spec fn encodable(ops: Seq<Op>) -> bool {
    &&& forall|k: nat| k < ops.len() ==> #[trigger] regs_fit(ops[k as int]) && jump_fits(ops, k)
    &&& code_size(ops) <= usize::MAX
}

proof fn lemma_offset_monotone(ops: Seq<Op>, j: nat, k: nat)
    requires
        j <= k <= ops.len(),
    ensures
        offset(ops, j) <= offset(ops, k),
    decreases k,
{
    if j < k {
        lemma_offset_monotone(ops, j, (k - 1) as nat);
    }
}

proof fn lemma_encode_prefix_len(ops: Seq<Op>, n: nat)
    requires
        n <= ops.len(),
    ensures
        encode_prefix(ops, n).len() == offset(ops, n),
    decreases n,
{
    if n > 0 {
        lemma_encode_prefix_len(ops, (n - 1) as nat);
    }
}

fn op_size_of(op: &Op) -> (n: usize)
    ensures
        n as nat == op_size(*op),
{
    match op {
        Op::LoadImm(..) => LOADIMM_SIZE,
        Op::Move(..) => MOVE_SIZE,
        Op::Add(..) => ADD_SIZE,
        Op::AddImm(..) => ADDIMM_SIZE,
        Op::JmpZN(..) => JMPZN_SIZE,
        Op::Jmp(..) => JMP_SIZE,
        Op::Ret(..) => RET_SIZE,
    }
}

/// A register number as one byte.
fn reg(r: usize) -> (b: u8)
    requires
        r <= 255,
    ensures
        b == r as u8,
        b as usize == r,
{
    r as u8
}

fn push_le4(code: &mut Vec<u8>, x: u32)
    ensures
        final(code)@ == old(code)@ + le4(x),
{
    code.push(x as u8);
    code.push((x >> 8u32) as u8);
    code.push((x >> 16u32) as u8);
    code.push((x >> 24u32) as u8);
}

fn push_le8(code: &mut Vec<u8>, x: u64)
    ensures
        final(code)@ == old(code)@ + le8(x),
{
    code.push(x as u8);
    code.push((x >> 8u64) as u8);
    code.push((x >> 16u64) as u8);
    code.push((x >> 24u64) as u8);
    code.push((x >> 32u64) as u8);
    code.push((x >> 40u64) as u8);
    code.push((x >> 48u64) as u8);
    code.push((x >> 56u64) as u8);
}

/// The byte offset of every instruction.
fn byte_offsets(ops: &Vec<Op>) -> (res: Vec<usize>)
    requires
        code_size(ops@) <= usize::MAX,
    ensures
        res@.len() == ops@.len(),
        forall|k: int| 0 <= k < ops@.len() ==> res@[k] as nat == offset(ops@, k as nat),
{
    let mut byte_offset: Vec<usize> = Vec::new();
    let mut cursor: usize = 0;
    let mut i: usize = 0;
    while i < ops.len()
        invariant
            i <= ops@.len(),
            byte_offset@.len() == i,
            cursor as nat == offset(ops@, i as nat),
            code_size(ops@) <= usize::MAX,
            forall|k: int| 0 <= k < i ==> byte_offset@[k] as nat == offset(ops@, k as nat),
        decreases ops@.len() - i,
    {
        byte_offset.push(cursor);
        proof {
            lemma_offset_monotone(ops@, (i + 1) as nat, ops@.len());
        }
        cursor = cursor + op_size_of(&ops[i]);
        i = i + 1;
    }
    byte_offset
}

/// The jump offset between two byte offsets, as an `i32`.
fn rel_offset(from: usize, to: usize) -> (d: i32)
    requires
        i32::MIN <= to - from <= i32::MAX,
    ensures
        d == to - from,
{
    if to >= from {
        (to - from) as i32
    } else {
        (0i64 - ((from - to) as i64)) as i32
    }
}

/// Whether `to - from` fits in an `i32`.
fn fits_i32(from: usize, to: usize) -> (b: bool)
    ensures
        b == (i32::MIN <= to - from <= i32::MAX),
{
    if to >= from {
        to - from <= 0x7FFF_FFFF
    } else {
        from - to <= 0x8000_0000
    }
}

/// Whether `encode_ops` can take `ops`.
pub fn check_encodable(ops: &Vec<Op>) -> (b: bool)
    ensures
        b == encodable(ops@),
{
    let mut cursor: usize = 0;
    let mut i: usize = 0;
    while i < ops.len()
        invariant
            i <= ops@.len(),
            cursor as nat == offset(ops@, i as nat),
        decreases ops@.len() - i,
    {
        let n = op_size_of(&ops[i]);
        if cursor > usize::MAX - n {
            proof {
                lemma_offset_monotone(ops@, (i + 1) as nat, ops@.len());
            }
            return false;
        }
        cursor = cursor + n;
        i = i + 1;
    }
    let offs = byte_offsets(ops);
    let mut k: usize = 0;
    while k < ops.len()
        invariant
            k <= ops@.len(),
            code_size(ops@) <= usize::MAX,
            offs@.len() == ops@.len(),
            forall|j: int| 0 <= j < ops@.len() ==> offs@[j] as nat == offset(ops@, j as nat),
            forall|j: int| 0 <= j < k ==> #[trigger] regs_fit(ops@[j]) && jump_fits(ops@, j as nat),
        decreases ops@.len() - k,
    {
        let ok = match ops[k] {
            Op::LoadImm(d, _) => d <= 255,
            Op::Move(d, s) => d <= 255 && s <= 255,
            Op::Add(d, a, b) => d <= 255 && a <= 255 && b <= 255,
            Op::AddImm(d, a, _) => d <= 255 && a <= 255,
            Op::JmpZN(r, t) => r <= 255 && t < ops.len() && fits_i32(offs[k], offs[t]),
            Op::Jmp(t) => t < ops.len() && fits_i32(offs[k], offs[t]),
            Op::Ret(r) => r <= 255,
        };
        assert(ok == (regs_fit(ops@[k as int]) && jump_fits(ops@, k as nat)));
        if !ok {
            return false;
        }
        assert forall|j: int| 0 <= j < k + 1 implies #[trigger] regs_fit(ops@[j]) && jump_fits(
            ops@,
            j as nat,
        ) by {
            if j == k {
                assert(regs_fit(ops@[k as int]) && jump_fits(ops@, k as nat));
            }
        }
        k = k + 1;
    }
    assert forall|j: nat| j < ops@.len() implies #[trigger] regs_fit(ops@[j as int]) && jump_fits(
        ops@,
        j,
    ) by {
        assert(regs_fit(ops@[j as int]) && jump_fits(ops@, (j as int) as nat));
    }
    true
}

/// Encodes an instruction list into byte code.
pub fn encode_ops(ops: &Vec<Op>) -> (code: Vec<u8>)
    requires
        encodable(ops@),
    ensures
        code@ == encode(ops@),
{
    let byte_offset = byte_offsets(ops);
    let mut code: Vec<u8> = Vec::new();
    let mut i: usize = 0;
    while i < ops.len()
        invariant
            i <= ops@.len(),
            encodable(ops@),
            byte_offset@.len() == ops@.len(),
            forall|k: int| 0 <= k < ops@.len() ==> byte_offset@[k] as nat == offset(ops@, k as nat),
            code@ == encode_prefix(ops@, i as nat),
        decreases ops@.len() - i,
    {
        assert(regs_fit(ops@[i as int]) && jump_fits(ops@, i as nat));
        match ops[i] {
            Op::LoadImm(dest, x) => {
                code.push(OP_LOADIMM);
                code.push(reg(dest));
                push_le8(&mut code, x as u64);
            },
            Op::Move(dest, src) => {
                code.push(OP_MOVE);
                code.push(reg(dest));
                code.push(reg(src));
            },
            Op::Add(dest, a, b) => {
                code.push(OP_ADD);
                code.push(reg(dest));
                code.push(reg(a));
                code.push(reg(b));
            },
            Op::AddImm(dest, a, imm) => {
                code.push(OP_ADDIMM);
                code.push(reg(dest));
                code.push(reg(a));
                push_le8(&mut code, imm as u64);
            },
            Op::JmpZN(r, target) => {
                code.push(OP_JMPZN);
                code.push(reg(r));
                let off = rel_offset(byte_offset[i], byte_offset[target]);
                push_le4(&mut code, off as u32);
            },
            Op::Jmp(target) => {
                code.push(OP_JMP);
                let off = rel_offset(byte_offset[i], byte_offset[target]);
                push_le4(&mut code, off as u32);
            },
            Op::Ret(r) => {
                code.push(OP_RET);
                code.push(reg(r));
            },
        }
        proof {
            assert(code@ =~= encode_prefix(ops@, i as nat) + encode_op(ops@, i as nat));
        }
        i = i + 1;
    }
    code
}

impl BytecodeRegister {
    /// Compiles `expr`: the lowered instructions of `expr`, put into byte code.
    pub fn compile(expr: &Expr) -> (prog: Program)
        requires
            lowerable(*expr),
            encodable(lowered_ops(*expr)),
        ensures
            prog.code() == encode(lowered_ops(*expr)),
            prog.num_regs() == lowered_num_regs(*expr),
            prog.n_args() == spec_argmax(*expr),
    {
        let lowered = lower(expr);
        let code = encode_ops(&lowered.ops);
        proof {
            crate::bytecode_register_become_laws::theorem_listing(lowered.ops@);
        }
        Program { code, num_regs: lowered.num_regs, n_args: lowered.n_args }
    }
}


impl BytecodeRegister {
    /// `compile`, or `None` when `lower` cannot take `expr` or its
    /// instructions cannot be put into byte code (a register above 255, a
    /// jump beyond the range of an `i32`).
    pub fn try_compile(expr: &Expr) -> (res: Option<Program>)
        ensures
            res is Some <==> lowerable(*expr) && encodable(lowered_ops(*expr)),
            res matches Some(prog) ==> {
                &&& prog.code() == encode(lowered_ops(*expr))
                &&& prog.num_regs() == lowered_num_regs(*expr)
                &&& prog.n_args() == spec_argmax(*expr)
            },
    {
        if !is_lowerable(expr) {
            return None;
        }
        let lowered = lower(expr);
        if check_encodable(&lowered.ops) {
            Some(Self::compile(expr))
        } else {
            None
        }
    }
}

// ---------------------------------------------------------------------------
// Decoding and the byte code machine
// ---------------------------------------------------------------------------
/// A decoded instruction: registers are bytes, jumps are byte offsets.
#[derive(Debug, Clone, Copy, PartialEq, Eq, Structural)]
pub enum Insn {
    LoadImm(u8, i64),
    Move(u8, u8),
    Add(u8, u8, u8),
    AddImm(u8, u8, i64),
    JmpZN(u8, i32),
    Jmp(i32),
    Ret(u8),
}

pub open spec fn insn_size(insn: Insn) -> nat {
    match insn {
        Insn::LoadImm(..) => 10,
        Insn::Move(..) => 3,
        Insn::Add(..) => 4,
        Insn::AddImm(..) => 11,
        Insn::JmpZN(..) => 6,
        Insn::Jmp(..) => 5,
        Insn::Ret(..) => 2,
    }
}

/// The instruction whose first byte is `code[i]`; `None` for an unknown
/// opcode or an instruction that runs past the end.
pub open spec fn decode(code: Seq<u8>, i: int) -> Option<Insn> {
    if 0 <= i < code.len() {
        let op = code[i];
        let insn = if op == OP_LOADIMM {
            Some(Insn::LoadImm(code[i + 1], read_u64(code, i + 2) as i64))
        } else if op == OP_MOVE {
            Some(Insn::Move(code[i + 1], code[i + 2]))
        } else if op == OP_ADD {
            Some(Insn::Add(code[i + 1], code[i + 2], code[i + 3]))
        } else if op == OP_ADDIMM {
            Some(Insn::AddImm(code[i + 1], code[i + 2], read_u64(code, i + 3) as i64))
        } else if op == OP_JMPZN {
            Some(Insn::JmpZN(code[i + 1], read_u32(code, i + 2) as i32))
        } else if op == OP_JMP {
            Some(Insn::Jmp(read_u32(code, i + 1) as i32))
        } else if op == OP_RET {
            Some(Insn::Ret(code[i + 1]))
        } else {
            None
        };
        match insn {
            Some(ins) => if i + insn_size(ins) <= code.len() {
                Some(ins)
            } else {
                None
            },
            None => None,
        }
    } else {
        None
    }
}

/// State of the byte code machine: byte offset of the next instruction and
/// the registers.
pub struct BState {
    pub ip: int,
    pub regs: Seq<i64>,
}

pub enum BStep {
    Next(BState),
    Halt(i64),
    Stuck,
}

/// Executes the instruction at byte `s.ip`; stuck on an undecodable
/// instruction, a register outside the file or an overflowing addition.
pub open spec fn bstep(code: Seq<u8>, s: BState) -> BStep {
    let n = s.regs.len();
    match decode(code, s.ip) {
        None => BStep::Stuck,
        Some(insn) => {
            let next = s.ip + insn_size(insn);
            match insn {
                Insn::LoadImm(d, x) => if d < n {
                    BStep::Next(BState { ip: next, regs: s.regs.update(d as int, x) })
                } else {
                    BStep::Stuck
                },
                Insn::Move(d, src) => if d < n && src < n {
                    BStep::Next(BState { ip: next, regs: s.regs.update(d as int, s.regs[src as int]) })
                } else {
                    BStep::Stuck
                },
                Insn::Add(d, a, b) => if d < n && a < n && b < n && crate::expr::add_fits(
                    s.regs[a as int],
                    s.regs[b as int],
                ) {
                    BStep::Next(
                        BState {
                            ip: next,
                            regs: s.regs.update(
                                d as int,
                                (s.regs[a as int] + s.regs[b as int]) as i64,
                            ),
                        },
                    )
                } else {
                    BStep::Stuck
                },
                Insn::AddImm(d, a, x) => if d < n && a < n && crate::expr::add_fits(
                    s.regs[a as int],
                    x,
                ) {
                    BStep::Next(
                        BState { ip: next, regs: s.regs.update(d as int, (s.regs[a as int] + x) as i64) },
                    )
                } else {
                    BStep::Stuck
                },
                Insn::JmpZN(r, off) => if r < n {
                    if s.regs[r as int] <= 0 {
                        BStep::Next(BState { ip: s.ip + off, regs: s.regs })
                    } else {
                        BStep::Next(BState { ip: next, regs: s.regs })
                    }
                } else {
                    BStep::Stuck
                },
                Insn::Jmp(off) => BStep::Next(BState { ip: s.ip + off, regs: s.regs }),
                Insn::Ret(r) => if r < n {
                    BStep::Halt(s.regs[r as int])
                } else {
                    BStep::Stuck
                },
            }
        },
    }
}

/// Runs at most `fuel` instructions of byte code from `s`.
pub open spec fn brun(code: Seq<u8>, s: BState, fuel: nat) -> Option<i64>
    decreases fuel,
{
    if fuel == 0 {
        None
    } else {
        match bstep(code, s) {
            BStep::Next(s2) => brun(code, s2, (fuel - 1) as nat),
            BStep::Halt(v) => Some(v),
            BStep::Stuck => None,
        }
    }
}

/// The byte code machine is deterministic.
pub proof fn lemma_brun_unique(code: Seq<u8>, s: BState, f1: nat, f2: nat)
    requires
        brun(code, s, f1) is Some,
        brun(code, s, f2) is Some,
    ensures
        brun(code, s, f1) == brun(code, s, f2),
    decreases f1,
{
    if f1 > 0 && f2 > 0 {
        if let BStep::Next(s2) = bstep(code, s) {
            lemma_brun_unique(code, s2, (f1 - 1) as nat, (f2 - 1) as nat);
        }
    }
}

/// The byte code handlers: each executes the instruction at `ip`, which has
/// its opcode, and gives the byte offset of the next instruction.
fn op_loadimm(regs: &mut Vec<i64>, code: &[u8], ip: usize) -> (next: usize)
    requires
        code@.len() <= usize::MAX,
        code@[ip as int] == OP_LOADIMM,
        bstep(code@, BState { ip: ip as int, regs: old(regs)@ }) is Next,
    ensures
        bstep(code@, BState { ip: ip as int, regs: old(regs)@ }) == BStep::Next(
            BState { ip: next as int, regs: final(regs)@ },
        ),
{
    let dest = code[ip + 1];
    let imm = read_u64_at(code, ip + 2) as i64;
    regs.set(dest as usize, imm);
    ip + LOADIMM_SIZE
}

fn op_move(regs: &mut Vec<i64>, code: &[u8], ip: usize) -> (next: usize)
    requires
        code@.len() <= usize::MAX,
        code@[ip as int] == OP_MOVE,
        bstep(code@, BState { ip: ip as int, regs: old(regs)@ }) is Next,
    ensures
        bstep(code@, BState { ip: ip as int, regs: old(regs)@ }) == BStep::Next(
            BState { ip: next as int, regs: final(regs)@ },
        ),
{
    let dest = code[ip + 1];
    let src = code[ip + 2];
    let v = regs[src as usize];
    regs.set(dest as usize, v);
    ip + MOVE_SIZE
}

fn op_add(regs: &mut Vec<i64>, code: &[u8], ip: usize) -> (next: usize)
    requires
        code@.len() <= usize::MAX,
        code@[ip as int] == OP_ADD,
        bstep(code@, BState { ip: ip as int, regs: old(regs)@ }) is Next,
    ensures
        bstep(code@, BState { ip: ip as int, regs: old(regs)@ }) == BStep::Next(
            BState { ip: next as int, regs: final(regs)@ },
        ),
{
    let dest = code[ip + 1];
    let a = code[ip + 2];
    let b = code[ip + 3];
    let av = regs[a as usize];
    let bv = regs[b as usize];
    regs.set(dest as usize, av + bv);
    ip + ADD_SIZE
}

fn op_addimm(regs: &mut Vec<i64>, code: &[u8], ip: usize) -> (next: usize)
    requires
        code@.len() <= usize::MAX,
        code@[ip as int] == OP_ADDIMM,
        bstep(code@, BState { ip: ip as int, regs: old(regs)@ }) is Next,
    ensures
        bstep(code@, BState { ip: ip as int, regs: old(regs)@ }) == BStep::Next(
            BState { ip: next as int, regs: final(regs)@ },
        ),
{
    let dest = code[ip + 1];
    let a = code[ip + 2];
    let imm = read_u64_at(code, ip + 3) as i64;
    let av = regs[a as usize];
    regs.set(dest as usize, av + imm);
    ip + ADDIMM_SIZE
}

/// `ip + offset`, for a target that lies in the code.
fn jump_target(ip: usize, offset: i32, len: usize) -> (t: usize)
    requires
        0 <= ip + offset < len,
    ensures
        t == ip + offset,
{
    if offset >= 0 {
        ip + (offset as usize)
    } else {
        ip - ((0i64 - offset as i64) as usize)
    }
}

fn op_jmpzn(regs: &mut Vec<i64>, code: &[u8], ip: usize) -> (next: usize)
    requires
        code@.len() <= usize::MAX,
        code@[ip as int] == OP_JMPZN,
        bstep(code@, BState { ip: ip as int, regs: old(regs)@ }) is Next,
        0 <= bstep(code@, BState { ip: ip as int, regs: old(regs)@ })->Next_0.ip < code@.len(),
    ensures
        bstep(code@, BState { ip: ip as int, regs: old(regs)@ }) == BStep::Next(
            BState { ip: next as int, regs: final(regs)@ },
        ),
{
    let reg = code[ip + 1];
    let offset = read_u32_at(code, ip + 2) as i32;
    let cond = regs[reg as usize];
    if cond <= 0 {
        jump_target(ip, offset, code.len())
    } else {
        ip + JMPZN_SIZE
    }
}

fn op_jmp(regs: &mut Vec<i64>, code: &[u8], ip: usize) -> (next: usize)
    requires
        code@.len() <= usize::MAX,
        code@[ip as int] == OP_JMP,
        bstep(code@, BState { ip: ip as int, regs: old(regs)@ }) is Next,
        0 <= bstep(code@, BState { ip: ip as int, regs: old(regs)@ })->Next_0.ip < code@.len(),
    ensures
        bstep(code@, BState { ip: ip as int, regs: old(regs)@ }) == BStep::Next(
            BState { ip: next as int, regs: final(regs)@ },
        ),
{
    let offset = read_u32_at(code, ip + 1) as i32;
    jump_target(ip, offset, code.len())
}

fn op_ret(regs: &Vec<i64>, code: &[u8], ip: usize) -> (v: i64)
    requires
        code@.len() <= usize::MAX,
        code@[ip as int] == OP_RET,
        bstep(code@, BState { ip: ip as int, regs: regs@ }) is Halt,
    ensures
        bstep(code@, BState { ip: ip as int, regs: regs@ }) == BStep::Halt(v),
{
    let reg = code[ip + 1];
    regs[reg as usize]
}

/// Runs byte code from byte `ip` until a `Ret`, handler after handler.
fn dispatch(regs: &mut Vec<i64>, code: &[u8], ip: usize) -> (result: i64)
    requires
        exists|fuel: nat| #[trigger] brun(code@, BState { ip: ip as int, regs: old(regs)@ }, fuel) is Some,
    ensures
        forall|fuel: nat| #[trigger]
            brun(code@, BState { ip: ip as int, regs: old(regs)@ }, fuel) is Some ==> brun(
                code@,
                BState { ip: ip as int, regs: old(regs)@ },
                fuel,
            ) == Some(result),
{
    let ghost s0 = BState { ip: ip as int, regs: regs@ };
    let ghost fuel0 = choose|fuel: nat| #[trigger] brun(code@, s0, fuel) is Some;
    let ghost answer = brun(code@, s0, fuel0).unwrap();
    let ghost mut fuel = fuel0;
    let code_len = code.len();
    let mut ip = ip;
    let mut result: i64 = 0;
    loop
        invariant_except_break
            code_len == code@.len(),
            brun(code@, BState { ip: ip as int, regs: regs@ }, fuel) == Some(answer),
        ensures
            result == answer,
        decreases fuel,
    {
        let ghost s = BState { ip: ip as int, regs: regs@ };
        proof {
            if let BStep::Next(s2) = bstep(code@, s) {
                assert(brun(code@, s2, (fuel - 1) as nat) is Some);
                assert(decode(code@, s2.ip) is Some);
            }
        }
        let opcode = code[ip];
        if opcode == OP_LOADIMM {
            ip = op_loadimm(regs, code, ip);
        } else if opcode == OP_MOVE {
            ip = op_move(regs, code, ip);
        } else if opcode == OP_ADD {
            ip = op_add(regs, code, ip);
        } else if opcode == OP_ADDIMM {
            ip = op_addimm(regs, code, ip);
        } else if opcode == OP_JMPZN {
            ip = op_jmpzn(regs, code, ip);
        } else if opcode == OP_JMP {
            ip = op_jmp(regs, code, ip);
        } else {
            result = op_ret(regs, code, ip);
            break ;
        }
        proof {
            fuel = (fuel - 1) as nat;
        }
    }
    proof {
        assert forall|f: nat| #[trigger] brun(code@, s0, f) is Some implies brun(code@, s0, f)
            == Some(result) by {
            lemma_brun_unique(code@, s0, f, fuel0);
        }
    }
    result
}

/// The registers an execution starts with: the first `n_args` arguments,
/// then zeros.
pub open spec fn initial_regs(num_regs: nat, n_args: nat, args: Seq<i64>) -> Seq<i64> {
    crate::register_ir::initial_regs(num_regs, n_args, args)
}

/// The byte code of `prog` stops with a value when run from its first byte
/// with these arguments.
pub open spec fn halts(prog: Program, args: Seq<i64>) -> bool {
    exists|fuel: nat|
        #[trigger] brun(
            prog.code(),
            BState { ip: 0, regs: initial_regs(prog.num_regs(), prog.n_args(), args) },
            fuel,
        ) is Some
}

impl BytecodeRegister {
    /// Runs `prog` on `args`: the arguments are copied into the first
    /// registers, the rest are 0, and the byte code runs from its first byte
    /// until a `Ret`.
    pub fn execute(prog: &Program, args: &[i64]) -> (result: i64)
        requires
            args@.len() >= prog.n_args(),
            halts(*prog, args@),
        ensures
            forall|fuel: nat|
                #[trigger] brun(
                    prog.code(),
                    BState { ip: 0, regs: initial_regs(prog.num_regs(), prog.n_args(), args@) },
                    fuel,
                ) is Some ==> brun(
                    prog.code(),
                    BState { ip: 0, regs: initial_regs(prog.num_regs(), prog.n_args(), args@) },
                    fuel,
                ) == Some(result),
    {
        proof {
            use_type_invariant(prog);
        }
        let mut regs = load_registers(prog.num_regs, prog.n_args, args);
        dispatch(&mut regs, prog.code.as_slice(), 0)
    }
}

// ---------------------------------------------------------------------------
// Disassembly
// ---------------------------------------------------------------------------
/// Decodes the instruction at byte `i`.
pub fn decode_at(code: &[u8], i: usize) -> (res: Option<Insn>)
    ensures
        res == decode(code@, i as int),
{
    let len = code.len();
    if i >= len {
        return None;
    }
    let op = code[i];
    let rest = len - i;
    if op == OP_LOADIMM {
        if rest < LOADIMM_SIZE {
            return None;
        }
        Some(Insn::LoadImm(code[i + 1], read_u64_at(code, i + 2) as i64))
    } else if op == OP_MOVE {
        if rest < MOVE_SIZE {
            return None;
        }
        Some(Insn::Move(code[i + 1], code[i + 2]))
    } else if op == OP_ADD {
        if rest < ADD_SIZE {
            return None;
        }
        Some(Insn::Add(code[i + 1], code[i + 2], code[i + 3]))
    } else if op == OP_ADDIMM {
        if rest < ADDIMM_SIZE {
            return None;
        }
        Some(Insn::AddImm(code[i + 1], code[i + 2], read_u64_at(code, i + 3) as i64))
    } else if op == OP_JMPZN {
        if rest < JMPZN_SIZE {
            return None;
        }
        Some(Insn::JmpZN(code[i + 1], read_u32_at(code, i + 2) as i32))
    } else if op == OP_JMP {
        if rest < JMP_SIZE {
            return None;
        }
        Some(Insn::Jmp(read_u32_at(code, i + 1) as i32))
    } else if op == OP_RET {
        if rest < RET_SIZE {
            return None;
        }
        Some(Insn::Ret(code[i + 1]))
    } else {
        None
    }
}

/// One line of the disassembly: the byte offset, right-aligned in four
/// columns, the mnemonic and the operands; a jump shows its target byte and
/// its offset.
pub open spec fn insn_text(i: nat, insn: Insn) -> Seq<char> {
    pad_left(dec(i), 4, ' ') + ": "@ + match insn {
        Insn::LoadImm(d, x) => "loadimm  r"@ + dec(d as nat) + ", "@ + dec_int(x as int) + "\n"@,
        Insn::Move(d, s) => "move     r"@ + dec(d as nat) + ", r"@ + dec(s as nat) + "\n"@,
        Insn::Add(d, a, b) => "add      r"@ + dec(d as nat) + ", r"@ + dec(a as nat) + ", r"@ + dec(
            b as nat,
        ) + "\n"@,
        Insn::AddImm(d, a, x) => "addimm   r"@ + dec(d as nat) + ", r"@ + dec(a as nat) + ", "@
            + dec_int(x as int) + "\n"@,
        Insn::JmpZN(r, off) => "jmpzn    r"@ + dec(r as nat) + ", "@ + pad_right(
            dec_int(i + off),
            4,
        ) + " ; offset "@ + dec_signed(off as int) + "\n"@,
        Insn::Jmp(off) => "jmp      "@ + pad_right(dec_int(i + off), 4) + " ; offset "@ + dec_signed(
            off as int,
        ) + "\n"@,
        Insn::Ret(r) => "ret      r"@ + dec(r as nat) + "\n"@,
    }
}

/// The disassembly of the code from byte `i` on; `None` when some
/// instruction on the way does not decode.
pub open spec fn listing(code: Seq<u8>, i: nat) -> Option<Seq<char>>
    decreases code.len() - i,
{
    if i >= code.len() {
        Some(Seq::empty())
    } else {
        match decode(code, i as int) {
            None => None,
            Some(insn) => if i + insn_size(insn) > code.len() {
                None
            } else {
                match listing(code, i + insn_size(insn)) {
                    Some(rest) => Some(insn_text(i, insn) + rest),
                    None => None,
                }
            },
        }
    }
}

/// The first line of the disassembly.
pub open spec fn listing_header(num_regs: nat, n_args: nat) -> Seq<char> {
    "; num_regs = "@ + dec(num_regs) + ", n_args = "@ + dec(n_args) + "\n"@
}

fn insn_size_of(insn: &Insn) -> (n: usize)
    ensures
        n as nat == insn_size(*insn),
{
    match insn {
        Insn::LoadImm(..) => LOADIMM_SIZE,
        Insn::Move(..) => MOVE_SIZE,
        Insn::Add(..) => ADD_SIZE,
        Insn::AddImm(..) => ADDIMM_SIZE,
        Insn::JmpZN(..) => JMPZN_SIZE,
        Insn::Jmp(..) => JMP_SIZE,
        Insn::Ret(..) => RET_SIZE,
    }
}

/// Appends the disassembly line of `insn` at byte `i`.
#[verifier::rlimit(30)]
#[verifier::spinoff_prover]
fn push_insn_text(s: &mut String, i: usize, insn: &Insn)
    ensures
        final(s)@ == old(s)@ + insn_text(i as nat, *insn),
{
    push_dec_right(s, i as u128, 4);
    s.append(": ");
    match *insn {
        Insn::LoadImm(d, x) => {
            s.append("loadimm  r");
            push_dec(s, d as u128);
            s.append(", ");
            push_i64(s, x);
        },
        Insn::Move(d, src) => {
            s.append("move     r");
            push_dec(s, d as u128);
            s.append(", r");
            push_dec(s, src as u128);
        },
        Insn::Add(d, a, b) => {
            s.append("add      r");
            push_dec(s, d as u128);
            s.append(", r");
            push_dec(s, a as u128);
            s.append(", r");
            push_dec(s, b as u128);
        },
        Insn::AddImm(d, a, x) => {
            s.append("addimm   r");
            push_dec(s, d as u128);
            s.append(", r");
            push_dec(s, a as u128);
            s.append(", ");
            push_i64(s, x);
        },
        Insn::JmpZN(r, off) => {
            s.append("jmpzn    r");
            push_dec(s, r as u128);
            s.append(", ");
            push_int_left(s, i as i128 + off as i128, 4);
            s.append(" ; offset ");
            push_signed(s, off as i64);
        },
        Insn::Jmp(off) => {
            s.append("jmp      ");
            push_int_left(s, i as i128 + off as i128, 4);
            s.append(" ; offset ");
            push_signed(s, off as i64);
        },
        Insn::Ret(r) => {
            s.append("ret      r");
            push_dec(s, r as u128);
        },
    }
    s.append("\n");
    assert(final(s)@ =~= old(s)@ + insn_text(i as nat, *insn));
}

impl Program {
    /// Number of arguments that go into registers `0..n_args` before the code runs.
    pub fn n_args_of(&self) -> (n: usize)
        ensures
            n as nat == self.n_args(),
    {
        self.n_args
    }

    /// The disassembly: a header with the register file size and the number
    /// of arguments, then one line per instruction.
    pub fn to_text(&self) -> (s: String)
        ensures
            listing(self.code(), 0) is Some,
            s@ == listing_header(self.num_regs(), self.n_args()) + listing(self.code(), 0).unwrap(),
    {
        proof {
            use_type_invariant(self);
        }
        let mut s = String::from_str("; num_regs = ");
        push_dec(&mut s, self.num_regs as u128);
        s.append(", n_args = ");
        push_dec(&mut s, self.n_args as u128);
        s.append("\n");
        let ghost header = listing_header(self.num_regs(), self.n_args());
        assert(s@ =~= header);
        let code = self.code.as_slice();
        let mut i: usize = 0;
        while i < code.len()
            invariant
                code@ == self.code(),
                listing(code@, i as nat) is Some,
                s@ + listing(code@, i as nat).unwrap() == header + listing(code@, 0).unwrap(),
            decreases code@.len() - i,
        {
            let insn = decode_at(code, i).unwrap();
            push_insn_text(&mut s, i, &insn);
            let ghost rest = listing(code@, (i + insn_size(insn)) as nat);
            assert(listing(code@, i as nat) == Some(insn_text(i as nat, insn) + rest.unwrap()));
            assert(s@ + rest.unwrap() =~= header + listing(code@, 0).unwrap());
            i = i + insn_size_of(&insn);
        }
        assert(listing(code@, i as nat) == Some(Seq::<char>::empty()));
        assert(s@ =~= header + listing(code@, 0).unwrap());
        s
    }
}
} // verus!
