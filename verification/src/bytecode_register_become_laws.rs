use crate::bytecode_register_become::{
    brun, decode, encodable, encode, encode_op, encode_prefix, jump_fits, jump_offset, offset,
    op_size, regs_fit, BState, Insn, insn_size, insn_text, listing,
};
use crate::bytecode_register_become::{initial_regs, listing_header};
use crate::text::{dec, dec_int, dec_signed, pad_left, pad_right};
use crate::le_bytes::{le4, le8, lemma_i32_u32, lemma_i64_u64, lemma_le4_read, lemma_le8_read, read_u32, read_u64};
use crate::expr::{eval, spec_argmax, well_formed, Expr};
use crate::register_ir::{
    initial, lowerable, lowered_num_regs, lowered_ops, run, step, Op, State, Step,
};
use crate::register_ir_laws::{
    op_in_bounds, theorem_lower_correct, theorem_lower_halts_iff, theorem_lowered_in_bounds,
};
use vstd::prelude::*;

verus! {

/// The instruction that instruction `k` of `ops` becomes in byte code.
pub open spec fn insn_of(ops: Seq<Op>, k: nat) -> Insn {
    match ops[k as int] {
        Op::LoadImm(d, x) => Insn::LoadImm(d as u8, x),
        Op::Move(d, s) => Insn::Move(d as u8, s as u8),
        Op::Add(d, a, b) => Insn::Add(d as u8, a as u8, b as u8),
        Op::AddImm(d, a, x) => Insn::AddImm(d as u8, a as u8, x),
        Op::JmpZN(r, t) => Insn::JmpZN(r as u8, jump_offset(ops, k, t as nat) as i32),
        Op::Jmp(t) => Insn::Jmp(jump_offset(ops, k, t as nat) as i32),
        Op::Ret(r) => Insn::Ret(r as u8),
    }
}

/// The bytes of instruction `k` stand at its offset in every longer prefix.
proof fn lemma_prefix_holds_op(ops: Seq<Op>, k: nat, n: nat)
    requires
        k < n <= ops.len(),
    ensures
        encode_prefix(ops, n).len() == offset(ops, n),
        encode_op(ops, k).len() == op_size(ops[k as int]),
        forall|j: int|
            0 <= j < op_size(ops[k as int]) ==> #[trigger] encode_prefix(ops, n)[offset(ops, k) + j]
                == encode_op(ops, k)[j],
    decreases n,
{
    lemma_prefix_len(ops, n);
    lemma_prefix_len(ops, (n - 1) as nat);
    if n == k + 1 {
    } else {
        lemma_prefix_holds_op(ops, k, (n - 1) as nat);
        lemma_offset_mono(ops, k + 1, (n - 1) as nat);
    }
}

proof fn lemma_prefix_len(ops: Seq<Op>, n: nat)
    requires
        n <= ops.len(),
    ensures
        encode_prefix(ops, n).len() == offset(ops, n),
    decreases n,
{
    if n > 0 {
        lemma_prefix_len(ops, (n - 1) as nat);
    }
}

proof fn lemma_offset_mono(ops: Seq<Op>, j: nat, k: nat)
    requires
        j <= k <= ops.len(),
    ensures
        offset(ops, j) <= offset(ops, k),
    decreases k,
{
    if j < k {
        lemma_offset_mono(ops, j, (k - 1) as nat);
    }
}

/// Decoding the byte code at the offset of instruction `k` gives back
/// instruction `k`.
pub proof fn theorem_decode_encode(ops: Seq<Op>, k: nat)
    requires
        encodable(ops),
        k < ops.len(),
    ensures
        decode(encode(ops), offset(ops, k) as int) == Some(insn_of(ops, k)),
{
    let code = encode(ops);
    let o = offset(ops, k) as int;
    let e = encode_op(ops, k);
    lemma_prefix_holds_op(ops, k, ops.len());
    lemma_offset_mono(ops, k + 1, ops.len());
    assert(regs_fit(ops[k as int]) && jump_fits(ops, k));
    assert(code[o + 0] == e[0]);
    match ops[k as int] {
        Op::LoadImm(d, x) => {
            assert forall|j: int| #![trigger le8(x as u64)[j]] 0 <= j < 8 implies code[o + 2 + j] == le8(x as u64)[j] by {
                assert(code[o + (2 + j)] == e[2 + j]);
            }
            assert(code[o + 1] == e[1]);
            assert(read_u64(code, o + 2) == read_u64(le8(x as u64), 0));
            lemma_le8_read(x as u64);
            lemma_i64_u64(x);
        },
        Op::Move(d, s) => {
            assert(code[o + 1] == e[1]);
            assert(code[o + 2] == e[2]);
        },
        Op::Add(d, a, b) => {
            assert(code[o + 1] == e[1]);
            assert(code[o + 2] == e[2]);
            assert(code[o + 3] == e[3]);
        },
        Op::AddImm(d, a, x) => {
            assert forall|j: int| #![trigger le8(x as u64)[j]] 0 <= j < 8 implies code[o + 3 + j] == le8(x as u64)[j] by {
                assert(code[o + (3 + j)] == e[3 + j]);
            }
            assert(code[o + 1] == e[1]);
            assert(code[o + 2] == e[2]);
            assert(read_u64(code, o + 3) == read_u64(le8(x as u64), 0));
            lemma_le8_read(x as u64);
            lemma_i64_u64(x);
        },
        Op::JmpZN(r, t) => {
            let off = jump_offset(ops, k, t as nat) as i32;
            assert forall|j: int| #![trigger le4(off as u32)[j]] 0 <= j < 4 implies code[o + 2 + j] == le4(off as u32)[j] by {
                assert(code[o + (2 + j)] == e[2 + j]);
            }
            assert(code[o + 1] == e[1]);
            assert(read_u32(code, o + 2) == read_u32(le4(off as u32), 0));
            lemma_le4_read(off as u32);
            lemma_i32_u32(off);
        },
        Op::Jmp(t) => {
            let off = jump_offset(ops, k, t as nat) as i32;
            assert forall|j: int| #![trigger le4(off as u32)[j]] 0 <= j < 4 implies code[o + 1 + j] == le4(off as u32)[j] by {
                assert(code[o + (1 + j)] == e[1 + j]);
            }
            assert(read_u32(code, o + 1) == read_u32(le4(off as u32), 0));
            lemma_le4_read(off as u32);
            lemma_i32_u32(off);
        },
        Op::Ret(r) => {
            assert(code[o + 1] == e[1]);
        },
    }
}

/// Byte code and instruction list run in lock step: instruction `k` of the
/// list corresponds to byte `offset(ops, k)` of the code.
proof fn lemma_lockstep(ops: Seq<Op>, k: nat, regs: Seq<i64>, fuel: nat)
    requires
        encodable(ops),
        k <= ops.len(),
    ensures
        run(ops, State { ip: k, regs }, fuel) == brun(
            encode(ops),
            BState { ip: offset(ops, k) as int, regs },
            fuel,
        ),
    decreases fuel,
{
    let code = encode(ops);
    let s = State { ip: k, regs };
    let bs = BState { ip: offset(ops, k) as int, regs };
    lemma_prefix_len(ops, ops.len());
    if fuel > 0 {
        if k == ops.len() {
            assert(decode(code, bs.ip) is None);
        } else {
            theorem_decode_encode(ops, k);
            lemma_offset_mono(ops, k + 1, ops.len());
            assert(regs_fit(ops[k as int]) && jump_fits(ops, k));
            assert(offset(ops, k + 1) == offset(ops, k) + op_size(ops[k as int]));
            match step(ops, s) {
                Step::Next(s2) => {
                    lemma_lockstep(ops, s2.ip, s2.regs, (fuel - 1) as nat);
                },
                _ => {},
            }
        }
    }
}

/// Putting an instruction list into byte code keeps its meaning: from the
/// same registers, the byte code run from its first byte gives what the
/// instruction list run from its first instruction gives, for every budget
/// of steps.
pub proof fn theorem_encode_preserves_run(ops: Seq<Op>, regs: Seq<i64>, fuel: nat)
    requires
        encodable(ops),
    ensures
        run(ops, State { ip: 0, regs }, fuel) == brun(encode(ops), BState { ip: 0, regs }, fuel),
{
    lemma_lockstep(ops, 0, regs, fuel);
}


proof fn lemma_len_le_offset(ops: Seq<Op>, k: nat)
    requires
        k <= ops.len(),
    ensures
        k <= offset(ops, k),
    decreases k,
{
    if k > 0 {
        lemma_len_le_offset(ops, (k - 1) as nat);
    }
}

/// The threaded byte code machine computes what the expression means: when
/// a well-formed expression evaluates to `v`, the byte code that
/// `BytecodeRegister::compile` makes of it, run with the arguments preloaded,
/// stops, and stops with `v`, so `BytecodeRegister::execute` returns `v`.
pub proof fn theorem_compile_correct(e: Expr, args: Seq<i64>, fuel: nat)
    requires
        well_formed(e, 0, true),
        lowerable(e),
        encodable(lowered_ops(e)),
        lowered_num_regs(e) <= usize::MAX,
        args.len() >= spec_argmax(e),
        eval(e, args, Seq::empty(), fuel) is Some,
    ensures
        exists|f: nat|
            #[trigger] brun(
                encode(lowered_ops(e)),
                BState { ip: 0, regs: initial_regs(lowered_num_regs(e), spec_argmax(e), args) },
                f,
            ) is Some,
        forall|f: nat|
            #[trigger] brun(
                encode(lowered_ops(e)),
                BState { ip: 0, regs: initial_regs(lowered_num_regs(e), spec_argmax(e), args) },
                f,
            ) is Some ==> brun(
                encode(lowered_ops(e)),
                BState { ip: 0, regs: initial_regs(lowered_num_regs(e), spec_argmax(e), args) },
                f,
            ) == Some(eval(e, args, Seq::empty(), fuel).unwrap().0),
{
    let ops = lowered_ops(e);
    let regs = initial_regs(lowered_num_regs(e), spec_argmax(e), args);
    lemma_len_le_offset(ops, ops.len());
    theorem_lower_correct(e, args, fuel);
    let f0 = choose|f: nat| #[trigger] run(ops, initial(lowered_num_regs(e), spec_argmax(e), args), f) is Some;
    theorem_encode_preserves_run(ops, regs, f0);
    assert(brun(encode(ops), BState { ip: 0, regs }, f0) is Some);
    assert forall|f: nat| #[trigger] brun(encode(ops), BState { ip: 0, regs }, f) is Some implies brun(
        encode(ops),
        BState { ip: 0, regs },
        f,
    ) == Some(eval(e, args, Seq::empty(), fuel).unwrap().0) by {
        theorem_encode_preserves_run(ops, regs, f);
    }
}

/// The disassembly lines of instructions `k..` of `ops`, each at its byte
/// offset.
pub open spec fn ops_listing(ops: Seq<Op>, k: nat) -> Seq<char>
    decreases ops.len() - k,
{
    if k >= ops.len() {
        Seq::empty()
    } else {
        insn_text(offset(ops, k), insn_of(ops, k)) + ops_listing(ops, k + 1)
    }
}

proof fn lemma_listing_from(ops: Seq<Op>, k: nat)
    requires
        encodable(ops),
        k <= ops.len(),
    ensures
        listing(encode(ops), offset(ops, k)) == Some(ops_listing(ops, k)),
    decreases ops.len() - k,
{
    lemma_prefix_len(ops, ops.len());
    if k < ops.len() {
        theorem_decode_encode(ops, k);
        lemma_offset_mono(ops, k + 1, ops.len());
        assert(insn_size(insn_of(ops, k)) == op_size(ops[k as int]));
        lemma_listing_from(ops, k + 1);
    }
}

/// The disassembly of compiled byte code lists exactly the compiled
/// instructions, each at its byte offset.
pub proof fn theorem_listing(ops: Seq<Op>)
    requires
        encodable(ops),
    ensures
        listing(encode(ops), 0) == Some(ops_listing(ops, 0)),
{
    lemma_listing_from(ops, 0);
}
/// The threaded byte code machine keeps termination: the byte code that
/// `BytecodeRegister::compile` makes of a well-formed expression, run with
/// the arguments preloaded, stops exactly when the evaluation of the
/// expression ends, and then with its value.
pub proof fn theorem_compile_halts_iff(e: Expr, args: Seq<i64>)
    requires
        well_formed(e, 0, true),
        lowerable(e),
        encodable(lowered_ops(e)),
        lowered_num_regs(e) <= usize::MAX,
        args.len() >= spec_argmax(e),
    ensures
        (exists|f: nat|
            #[trigger] brun(
                encode(lowered_ops(e)),
                BState { ip: 0, regs: initial_regs(lowered_num_regs(e), spec_argmax(e), args) },
                f,
            ) is Some) <==> (exists|fuel: nat| #[trigger] eval(e, args, Seq::empty(), fuel) is Some),
        forall|f: nat, fuel: nat|
            #[trigger] brun(
                encode(lowered_ops(e)),
                BState { ip: 0, regs: initial_regs(lowered_num_regs(e), spec_argmax(e), args) },
                f,
            ) is Some && #[trigger] eval(e, args, Seq::empty(), fuel) is Some ==> brun(
                encode(lowered_ops(e)),
                BState { ip: 0, regs: initial_regs(lowered_num_regs(e), spec_argmax(e), args) },
                f,
            ) == Some(eval(e, args, Seq::empty(), fuel).unwrap().0),
{
    let ops = lowered_ops(e);
    let regs = initial_regs(lowered_num_regs(e), spec_argmax(e), args);
    lemma_len_le_offset(ops, ops.len());
    theorem_lower_halts_iff(e, args);
    assert forall|f: nat| #[trigger] brun(encode(ops), BState { ip: 0, regs }, f) == run(
        ops,
        initial(lowered_num_regs(e), spec_argmax(e), args),
        f,
    ) by {
        theorem_encode_preserves_run(ops, regs, f);
    }
    if exists|f: nat| #[trigger] brun(encode(ops), BState { ip: 0, regs }, f) is Some {
        let f = choose|f: nat| #[trigger] brun(encode(ops), BState { ip: 0, regs }, f) is Some;
        assert(run(ops, initial(lowered_num_regs(e), spec_argmax(e), args), f) is Some);
    }
    if exists|fuel: nat| #[trigger] eval(e, args, Seq::empty(), fuel) is Some {
        let f = choose|f: nat|
            #[trigger] run(ops, initial(lowered_num_regs(e), spec_argmax(e), args), f) is Some;
        assert(brun(encode(ops), BState { ip: 0, regs }, f) is Some);
    }
}

/// The two register machines agree: on a well-formed expression, the
/// instruction list that `bytecode_register` compiles and the byte code that
/// `bytecode_register_become` compiles both stop or both run forever, and
/// when they stop, they stop with the same value.
pub proof fn theorem_machines_agree(e: Expr, args: Seq<i64>)
    requires
        well_formed(e, 0, true),
        crate::bytecode_register::compiled_ops(e).len() <= usize::MAX,
        crate::bytecode_register::compiled_num_regs(e) <= usize::MAX,
        lowerable(e),
        encodable(lowered_ops(e)),
        lowered_num_regs(e) <= usize::MAX,
        args.len() >= spec_argmax(e),
    ensures
        crate::bytecode_register::halts(
            crate::bytecode_register::compiled_ops(e),
            crate::bytecode_register::compiled_num_regs(e),
            args,
        ) <==> exists|f: nat|
            #[trigger] brun(
                encode(lowered_ops(e)),
                BState { ip: 0, regs: initial_regs(lowered_num_regs(e), spec_argmax(e), args) },
                f,
            ) is Some,
        forall|f1: nat, f2: nat|
            #[trigger] crate::bytecode_register::run(
                crate::bytecode_register::compiled_ops(e),
                args,
                crate::bytecode_register::initial(crate::bytecode_register::compiled_num_regs(e)),
                f1,
            ) is Some && #[trigger] brun(
                encode(lowered_ops(e)),
                BState { ip: 0, regs: initial_regs(lowered_num_regs(e), spec_argmax(e), args) },
                f2,
            ) is Some ==> crate::bytecode_register::run(
                crate::bytecode_register::compiled_ops(e),
                args,
                crate::bytecode_register::initial(crate::bytecode_register::compiled_num_regs(e)),
                f1,
            ) == brun(
                encode(lowered_ops(e)),
                BState { ip: 0, regs: initial_regs(lowered_num_regs(e), spec_argmax(e), args) },
                f2,
            ),
{
    crate::bytecode_register_laws::theorem_compile_halts_iff(e, args);
    theorem_compile_halts_iff(e, args);
    let regs = initial_regs(lowered_num_regs(e), spec_argmax(e), args);
    let p1 = crate::bytecode_register::compiled_ops(e);
    let s1 = crate::bytecode_register::initial(crate::bytecode_register::compiled_num_regs(e));
    assert forall|f1: nat, f2: nat|
        #[trigger] crate::bytecode_register::run(p1, args, s1, f1) is Some && #[trigger] brun(
            encode(lowered_ops(e)),
            BState { ip: 0, regs },
            f2,
        ) is Some implies crate::bytecode_register::run(p1, args, s1, f1) == brun(
        encode(lowered_ops(e)),
        BState { ip: 0, regs },
        f2,
    ) by {
        let fuel = choose|fuel: nat| #[trigger] eval(e, args, Seq::empty(), fuel) is Some;
        assert(eval(e, args, Seq::empty(), fuel) is Some);
    }
}


/// Every register that `insn` names is below `n`.
pub open spec fn insn_regs_below(insn: Insn, n: nat) -> bool {
    match insn {
        Insn::LoadImm(d, _) => d < n,
        Insn::Move(d, s) => d < n && s < n,
        Insn::Add(d, a, b) => d < n && a < n && b < n,
        Insn::AddImm(d, a, _) => d < n && a < n,
        Insn::JmpZN(r, _) => r < n,
        Insn::Jmp(_) => true,
        Insn::Ret(r) => r < n,
    }
}

/// The jump of `insn`, which starts at byte `at`, goes to the start of
/// instruction `t` of `ops`; an instruction that does not jump goes
/// anywhere.
pub open spec fn jumps_to(ops: Seq<Op>, insn: Insn, at: nat, t: nat) -> bool {
    match insn {
        Insn::JmpZN(_, o) => at + o == offset(ops, t),
        Insn::Jmp(o) => at + o == offset(ops, t),
        _ => true,
    }
}

/// Offsets of instructions strictly increase.
proof fn lemma_offset_strict(ops: Seq<Op>, j: nat, k: nat)
    requires
        j < k <= ops.len(),
    ensures
        offset(ops, j) < offset(ops, k),
{
    lemma_offset_mono(ops, j + 1, k);
}

/// The instruction that instruction `k` becomes in byte code names the same
/// registers, and its jump goes to the start of the same instruction.
proof fn lemma_insn_of_shape(ops: Seq<Op>, k: nat, n: nat)
    requires
        encodable(ops),
        k < ops.len(),
    ensures
        jump_fits(ops, k),
        insn_size(insn_of(ops, k)) == op_size(ops[k as int]),
        op_in_bounds(ops[k as int], n, ops.len()) ==> insn_regs_below(insn_of(ops, k), n),
        match ops[k as int] {
            Op::JmpZN(_, t) => jumps_to(ops, insn_of(ops, k), offset(ops, k), t as nat),
            Op::Jmp(t) => jumps_to(ops, insn_of(ops, k), offset(ops, k), t as nat),
            _ => true,
        },
{
    assert(regs_fit(ops[k as int]) && jump_fits(ops, k));
}

/// Compiled byte code splits into whole instructions: the first starts at
/// byte 0, each one starts where the one before it ends, the last one is a
/// `Ret` that ends exactly at the end of the code, and every jump lands on
/// the start of one of them. For a well-formed expression, every register
/// they name also lies inside the register file.
pub proof fn theorem_code_shape(e: Expr)
    requires
        encodable(lowered_ops(e)),
    ensures
        lowered_ops(e).len() >= 1,
        offset(lowered_ops(e), 0) == 0,
        encode(lowered_ops(e)).len() == offset(lowered_ops(e), lowered_ops(e).len()),
        forall|k: nat|
            k < lowered_ops(e).len() ==> {
                &&& #[trigger] decode(
                    encode(lowered_ops(e)),
                    offset(lowered_ops(e), k) as int,
                ) matches Some(insn)
                &&& offset(lowered_ops(e), k) + insn_size(insn) == offset(lowered_ops(e), k + 1)
                &&& well_formed(e, 0, true) ==> insn_regs_below(insn, lowered_num_regs(e))
                &&& exists|t: nat|
                    t < lowered_ops(e).len() && #[trigger] jumps_to(
                        lowered_ops(e),
                        insn,
                        offset(lowered_ops(e), k),
                        t,
                    )
            },
        decode(
            encode(lowered_ops(e)),
            offset(lowered_ops(e), (lowered_ops(e).len() - 1) as nat) as int,
        ) matches Some(Insn::Ret(_)),
{
    let ops = lowered_ops(e);
    let n = lowered_num_regs(e);
    if well_formed(e, 0, true) {
        theorem_lowered_in_bounds(e);
    }
    lemma_prefix_len(ops, ops.len());
    assert forall|k: nat| k < ops.len() implies {
        &&& #[trigger] decode(encode(ops), offset(ops, k) as int) matches Some(insn)
        &&& offset(ops, k) + insn_size(insn) == offset(ops, k + 1)
        &&& well_formed(e, 0, true) ==> insn_regs_below(insn, n)
        &&& exists|t: nat| t < ops.len() && #[trigger] jumps_to(ops, insn, offset(ops, k), t)
    } by {
        theorem_decode_encode(ops, k);
        if well_formed(e, 0, true) {
            assert(op_in_bounds(ops[k as int], n, ops.len()));
        }
        lemma_insn_of_shape(ops, k, n);
        let insn = insn_of(ops, k);
        match ops[k as int] {
            Op::JmpZN(_, t) => {
                assert(jumps_to(ops, insn, offset(ops, k), t as nat));
            },
            Op::Jmp(t) => {
                assert(jumps_to(ops, insn, offset(ops, k), t as nat));
            },
            _ => {
                assert(jumps_to(ops, insn, offset(ops, k), 0));
            },
        }
    }
    theorem_decode_encode(ops, (ops.len() - 1) as nat);
}

/// The operation that byte code instruction `insn` performs, its jump going
/// to instruction `t`.
pub open spec fn op_of_insn(insn: Insn, t: nat) -> Op {
    match insn {
        Insn::LoadImm(d, x) => Op::LoadImm(d as usize, x),
        Insn::Move(d, s) => Op::Move(d as usize, s as usize),
        Insn::Add(d, a, b) => Op::Add(d as usize, a as usize, b as usize),
        Insn::AddImm(d, a, x) => Op::AddImm(d as usize, a as usize, x),
        Insn::JmpZN(r, _) => Op::JmpZN(r as usize, t as usize),
        Insn::Jmp(_) => Op::Jmp(t as usize),
        Insn::Ret(r) => Op::Ret(r as usize),
    }
}

/// The native program and the byte code of an expression hold the same
/// instructions: the byte code instruction at the start of instruction `k`,
/// its jump taken to the instruction that starts where it lands, is the
/// operation that the `k`-th label of `TemplateJit::compile` names.
pub proof fn theorem_labels_match_code(e: Expr, k: nat, t: nat)
    requires
        encodable(lowered_ops(e)),
        k < lowered_ops(e).len(),
        t < lowered_ops(e).len(),
        decode(encode(lowered_ops(e)), offset(lowered_ops(e), k) as int) matches Some(insn)
            && jumps_to(lowered_ops(e), insn, offset(lowered_ops(e), k), t),
    ensures
        decode(encode(lowered_ops(e)), offset(lowered_ops(e), k) as int) matches Some(insn)
            && crate::template_jit::label(lowered_ops(e), k) == crate::template_jit::label_op(
            op_of_insn(insn, t),
            k,
        ),
{
    let ops = lowered_ops(e);
    theorem_decode_encode(ops, k);
    lemma_insn_of_shape(ops, k, lowered_num_regs(e));
    assert(regs_fit(ops[k as int]) && jump_fits(ops, k));
    match ops[k as int] {
        Op::JmpZN(_, u) => {
            assert(offset(ops, u as nat) == offset(ops, t));
            if u as nat != t {
                if u < t {
                    lemma_offset_strict(ops, u as nat, t);
                } else {
                    lemma_offset_strict(ops, t, u as nat);
                }
            }
        },
        Op::Jmp(u) => {
            assert(offset(ops, u as nat) == offset(ops, t));
            if u as nat != t {
                if u < t {
                    lemma_offset_strict(ops, u as nat, t);
                } else {
                    lemma_offset_strict(ops, t, u as nat);
                }
            }
        },
        _ => {},
    }
    assert(op_of_insn(insn_of(ops, k), t) == ops[k as int]);
}

/// Each line of a disassembly names the decoded instruction with its fields
/// in order: the byte offset right-aligned in four columns, `: `, the
/// mnemonic padded to nine columns, then the destination (or tested)
/// register, the source registers `a` and `b` in that order, the immediate
/// in decimal, and for a jump its target (offset plus the jump's own byte
/// offset, left-aligned in four columns) and its signed offset.
pub proof fn theorem_insn_text(i: nat, insn: Insn)
    ensures
        insn matches Insn::LoadImm(d, x) ==> insn_text(i, insn) == pad_left(dec(i), 4, ' ')
            + ": "@ + ("loadimm  r"@ + dec(d as nat) + ", "@ + dec_int(x as int) + "\n"@),
        insn matches Insn::Move(d, src) ==> insn_text(i, insn) == pad_left(dec(i), 4, ' ')
            + ": "@ + ("move     r"@ + dec(d as nat) + ", r"@ + dec(src as nat) + "\n"@),
        insn matches Insn::Add(d, a, b) ==> insn_text(i, insn) == pad_left(dec(i), 4, ' ')
            + ": "@ + ("add      r"@ + dec(d as nat) + ", r"@ + dec(a as nat) + ", r"@ + dec(
            b as nat,
        ) + "\n"@),
        insn matches Insn::AddImm(d, a, x) ==> insn_text(i, insn) == pad_left(dec(i), 4, ' ')
            + ": "@ + ("addimm   r"@ + dec(d as nat) + ", r"@ + dec(a as nat) + ", "@ + dec_int(
            x as int,
        ) + "\n"@),
        insn matches Insn::JmpZN(r, off) ==> insn_text(i, insn) == pad_left(dec(i), 4, ' ')
            + ": "@ + ("jmpzn    r"@ + dec(r as nat) + ", "@ + pad_right(dec_int(i + off), 4)
            + " ; offset "@ + dec_signed(off as int) + "\n"@),
        insn matches Insn::Jmp(off) ==> insn_text(i, insn) == pad_left(dec(i), 4, ' ')
            + ": "@ + ("jmp      "@ + pad_right(dec_int(i + off), 4) + " ; offset "@ + dec_signed(
            off as int,
        ) + "\n"@),
        insn matches Insn::Ret(r) ==> insn_text(i, insn) == pad_left(dec(i), 4, ' ')
            + ": "@ + ("ret      r"@ + dec(r as nat) + "\n"@),
{
}

/// The first line of a disassembly gives the register file size, then the
/// number of arguments.
pub proof fn theorem_listing_header(num_regs: nat, n_args: nat)
    ensures
        listing_header(num_regs, n_args) == "; num_regs = "@ + dec(num_regs) + ", n_args = "@ + dec(
            n_args,
        ) + "\n"@,
{
}

} // verus!
