use crate::bytecode_register::{
    compiled_num_regs, compiled_ops, gen, halts, initial, lemma_run_unique, local_reg, run, step,
    Op, State, Step,
};
use crate::expr::{
    add_fits, assigns, eval, lemma_assigns_push, pure_expr, size, spec_argmax, well_formed, Expr,
};
use vstd::prelude::*;

verus! {

/// Exactly `k` instructions from `s`, none of which stops or gets stuck.
pub open spec fn exec_n(ops: Seq<Op>, args: Seq<i64>, s: State, k: nat) -> Option<State>
    decreases k,
{
    if k == 0 {
        Some(s)
    } else {
        match step(ops, args, s) {
            Step::Next(s2) => exec_n(ops, args, s2, (k - 1) as nat),
            _ => None,
        }
    }
}

/// `seg` stands in `prog` from index `pc` on.
pub open spec fn code_at<T>(prog: Seq<T>, pc: nat, seg: Seq<T>) -> bool {
    &&& pc + seg.len() <= prog.len()
    &&& forall|i: int| #![trigger seg[i]] 0 <= i < seg.len() ==> prog[pc + i] == seg[i]
}

proof fn lemma_exec_n_compose(ops: Seq<Op>, args: Seq<i64>, s: State, a: nat, b: nat)
    requires
        exec_n(ops, args, s, a) is Some,
    ensures
        exec_n(ops, args, s, a + b) == exec_n(ops, args, exec_n(ops, args, s, a).unwrap(), b),
    decreases a,
{
    if a > 0 {
        if let Step::Next(s2) = step(ops, args, s) {
            lemma_exec_n_compose(ops, args, s2, (a - 1) as nat, b);
            assert((a - 1) as nat + b == (a + b - 1) as nat);
        }
    }
}

proof fn lemma_exec_n_run(ops: Seq<Op>, args: Seq<i64>, s: State, k: nat, f: nat)
    requires
        exec_n(ops, args, s, k) is Some,
    ensures
        run(ops, args, s, k + f) == run(ops, args, exec_n(ops, args, s, k).unwrap(), f),
    decreases k,
{
    if k > 0 {
        if let Step::Next(s2) = step(ops, args, s) {
            lemma_exec_n_run(ops, args, s2, (k - 1) as nat, f);
            assert((k - 1) as nat + f == (k + f - 1) as nat);
        }
    }
}

pub proof fn lemma_code_split<T>(prog: Seq<T>, pc: nat, a: Seq<T>, b: Seq<T>)
    requires
        code_at(prog, pc, a + b),
    ensures
        code_at(prog, pc, a),
        code_at(prog, pc + a.len(), b),
{
    assert forall|i: int| #![trigger a[i]] 0 <= i < a.len() implies prog[pc + i] == a[i] by {
        assert((a + b)[i] == a[i]);
    }
    assert forall|i: int| #![trigger b[i]] 0 <= i < b.len() implies prog[(pc + a.len()) + i]
        == b[i] by {
        assert((a + b)[a.len() + i] == b[i]);
        assert(pc + (a.len() + i) == (pc + a.len()) + i);
    }
}

pub proof fn lemma_code_one<T>(prog: Seq<T>, pc: nat, op: T)
    requires
        code_at(prog, pc, seq![op]),
    ensures
        pc < prog.len(),
        prog[pc as int] == op,
{
    assert(seq![op][0] == op);
}

/// One instruction that is not a jump, a `Ret` or stuck.
proof fn lemma_exec_one(ops: Seq<Op>, args: Seq<i64>, s: State)
    requires
        step(ops, args, s) is Next,
    ensures
        exec_n(ops, args, s, 1) == Some(step(ops, args, s)->Next_0),
{
    assert(exec_n(ops, args, step(ops, args, s)->Next_0, 0) == Some(step(ops, args, s)->Next_0));
}

/// The locals live in registers `locals` (strictly increasing, from `lo`
/// on, below `next`), which hold `env`; `next` is inside the register file.
pub open spec fn frame(regs: Seq<i64>, locals: Seq<nat>, env: Seq<i64>, lo: nat, next: nat) -> bool {
    &&& locals.len() == env.len()
    &&& next <= regs.len()
    &&& forall|i: int| 0 <= i < locals.len() ==> lo <= #[trigger] locals[i] < next
    &&& forall|i: int, j: int|
        0 <= i < j < locals.len() ==> #[trigger] locals[i] < #[trigger] locals[j]
    &&& forall|i: int| 0 <= i < locals.len() ==> regs[#[trigger] locals[i] as int] == env[i]
}

/// `r` and `regs` agree below `n`, except on the registers of locals.
pub open spec fn keeps(r: Seq<i64>, regs: Seq<i64>, locals: Seq<nat>, n: nat) -> bool {
    forall|i: int| 0 <= i < n && !locals.contains(i as nat) ==> #[trigger] r[i] == regs[i]
}

proof fn lemma_not_local(locals: Seq<nat>, i: nat, next: nat)
    requires
        forall|j: int| 0 <= j < locals.len() ==> #[trigger] locals[j] < next,
        next <= i,
    ensures
        !locals.contains(i),
{
    if locals.contains(i) {
        let j = choose|j: int| 0 <= j < locals.len() && locals[j] == i;
        assert(locals[j] < next);
    }
}

/// A well-formed expression runs to the end of its code, leaves the locals
/// as `eval` leaves them and every other register below `next` alone, and,
/// when its value is used, leaves that value in its result register; a pure
/// one leaves every register below `next` alone.
#[verifier::rlimit(60)]
proof fn lemma_expr(
    prog: Seq<Op>,
    args: Seq<i64>,
    e: Expr,
    locals: Seq<nat>,
    next: nat,
    pc: nat,
    env: Seq<i64>,
    regs: Seq<i64>,
    fuel: nat,
    value: bool,
) -> (res: (nat, Seq<i64>))
    requires
        well_formed(e, env.len(), value),
        frame(regs, locals, env, 0, next),
        code_at(prog, pc, gen(e, locals, next, pc).ops),
        prog.len() <= usize::MAX,
        gen(e, locals, next, pc).top <= regs.len(),
        regs.len() <= usize::MAX,
        eval(e, args, env, fuel) is Some,
    ensures
        exec_n(prog, args, State { ip: pc, regs }, res.0) == Some(
            State { ip: pc + gen(e, locals, next, pc).ops.len(), regs: res.1 },
        ),
        res.1.len() == regs.len(),
        eval(e, args, env, fuel).unwrap().1.len() == env.len(),
        frame(res.1, locals, eval(e, args, env, fuel).unwrap().1, 0, next),
        keeps(res.1, regs, locals, next),
        pure_expr(e) ==> eval(e, args, env, fuel).unwrap().1 == env,
        pure_expr(e) ==> forall|i: int| 0 <= i < next ==> #[trigger] res.1[i] == regs[i],
        forall|i: int|
            0 <= i < next && !assigns(e, locals, 0, i as nat) ==> #[trigger] res.1[i] == regs[i],
        value ==> gen(e, locals, next, pc).reg < regs.len(),
        value ==> res.1[gen(e, locals, next, pc).reg as int] == eval(e, args, env, fuel).unwrap().0,
    decreases fuel, size(e),
{
    let s = State { ip: pc, regs };
    let g = gen(e, locals, next, pc);
    match e {
        Expr::Litr(x) => {
            lemma_code_one(prog, pc, Op::LoadImm(next as usize, x));
            lemma_exec_one(prog, args, s);
            lemma_not_local(locals, next, next);
            assert forall|i: int| 0 <= i < next implies #[trigger] regs.update(next as int, x)[i]
                == regs[i] by {}
            (1, regs.update(next as int, x))
        },
        Expr::Arg(i) => {
            lemma_code_one(prog, pc, Op::LoadArg(next as usize, i));
            lemma_exec_one(prog, args, s);
            lemma_not_local(locals, next, next);
            assert forall|j: int| 0 <= j < next implies #[trigger] regs.update(
                next as int,
                args[i as int],
            )[j] == regs[j] by {}
            (1, regs.update(next as int, args[i as int]))
        },
        Expr::Get(l) => {
            let k = locals.len() - 1 - l;
            assert(regs[locals[k] as int] == env[k]);
            (0, regs)
        },
        Expr::Add(x, y) => {
            let gx = gen(*x, locals, next, pc);
            let copy = gx.reg < next && assigns(*y, locals, 0, gx.reg);
            let mv = if copy {
                seq![Op::Move(next as usize, gx.reg as usize)]
            } else {
                seq![]
            };
            let xr = if copy {
                next
            } else {
                gx.reg
            };
            let y_next = if xr >= next {
                xr + 1
            } else {
                next
            };
            let pc_y = pc + gx.ops.len() + mv.len();
            let gy = gen(*y, locals, y_next, pc_y);
            let op = Op::Add(next as usize, xr as usize, gy.reg as usize);
            lemma_code_split(prog, pc, gx.ops + mv + gy.ops, seq![op]);
            lemma_code_split(prog, pc, gx.ops + mv, gy.ops);
            lemma_code_split(prog, pc, gx.ops, mv);
            let (kx, r1) = lemma_expr(prog, args, *x, locals, next, pc, env, regs, fuel, true);
            let (vx, env1) = eval(*x, args, env, fuel).unwrap();
            let s1 = State { ip: pc + gx.ops.len(), regs: r1 };
            let (km, r1m) = if copy {
                lemma_code_one(prog, pc + gx.ops.len(), Op::Move(next as usize, gx.reg as usize));
                lemma_exec_one(prog, args, s1);
                lemma_not_local(locals, next, next);
                (1nat, r1.update(next as int, vx))
            } else {
                (0nat, r1)
            };
            lemma_exec_n_compose(prog, args, s, kx, km);
            assert(r1m[xr as int] == vx);
            assert(frame(r1m, locals, env1, 0, y_next));
            let (ky, r2) = lemma_expr(prog, args, *y, locals, y_next, pc_y, env1, r1m, fuel, true);
            let (vy, env2) = eval(*y, args, env1, fuel).unwrap();
            assert(xr < y_next || !assigns(*y, locals, 0, xr));
            if xr >= next {
                lemma_not_local(locals, xr, next);
            }
            assert(r2[xr as int] == vx);
            let s2 = State { ip: pc_y + gy.ops.len(), regs: r2 };
            lemma_code_one(prog, pc_y + gy.ops.len(), op);
            assert(add_fits(vx, vy));
            lemma_exec_one(prog, args, s2);
            lemma_exec_n_compose(prog, args, s, kx + km, ky);
            lemma_exec_n_compose(prog, args, s, kx + km + ky, 1);
            lemma_not_local(locals, next, next);
            let r3 = r2.update(next as int, (vx + vy) as i64);
            assert(keeps(r3, regs, locals, next)) by {
                assert forall|i: int| 0 <= i < next && !locals.contains(i as nat) implies #[trigger] r3[i]
                    == regs[i] by {
                    assert(r2[i] == r1m[i]);
                    assert(r1[i] == regs[i]);
                }
            }
            if pure_expr(e) {
                assert forall|i: int| 0 <= i < next implies #[trigger] r3[i] == regs[i] by {
                    assert(r2[i] == r1m[i]);
                    assert(r1[i] == regs[i]);
                }
            }
            assert forall|i: int| 0 <= i < next && !assigns(e, locals, 0, i as nat) implies #[trigger] r3[i]
                == regs[i] by {
                assert(r2[i] == r1m[i]);
                assert(r1[i] == regs[i]);
            }
            (kx + km + ky + 1, r3)
        },
        Expr::Let(rhs, body) => {
            let gr = gen(*rhs, locals, next, pc);
            let mv = if gr.reg != next {
                seq![Op::Move(next as usize, gr.reg as usize)]
            } else {
                seq![]
            };
            let pc_b = pc + gr.ops.len() + mv.len();
            let lb = locals.push(next);
            let gb = gen(*body, lb, next + 1, pc_b);
            lemma_code_split(prog, pc, gr.ops + mv, gb.ops);
            lemma_code_split(prog, pc, gr.ops, mv);
            let (kr, r1) = lemma_expr(prog, args, *rhs, locals, next, pc, env, regs, fuel, true);
            let (v, env1) = eval(*rhs, args, env, fuel).unwrap();
            let s1 = State { ip: pc + gr.ops.len(), regs: r1 };
            lemma_not_local(locals, next, next);
            let (km, r2) = if gr.reg != next {
                lemma_code_one(prog, pc + gr.ops.len(), Op::Move(next as usize, gr.reg as usize));
                lemma_exec_one(prog, args, s1);
                (1nat, r1.update(next as int, v))
            } else {
                (0nat, r1)
            };
            lemma_exec_n_compose(prog, args, s, kr, km);
            let env_b = env1.push(v);
            assert(frame(r2, lb, env_b, 0, next + 1)) by {
                assert forall|i: int| 0 <= i < lb.len() implies r2[#[trigger] lb[i] as int] == env_b[i] by {
                    if i < locals.len() {
                        assert(lb[i] == locals[i]);
                    }
                }
            }
            let (kb, r3) = lemma_expr(prog, args, *body, lb, next + 1, pc_b, env_b, r2, fuel, value);
            let env3 = eval(*body, args, env_b, fuel).unwrap().1;
            assert(frame(r3, locals, env3.drop_last(), 0, next)) by {
                assert forall|i: int| 0 <= i < locals.len() implies r3[#[trigger] locals[i] as int]
                    == env3.drop_last()[i] by {
                    assert(lb[i] == locals[i]);
                }
            }
            assert(keeps(r3, regs, locals, next)) by {
                assert forall|i: int| 0 <= i < next && !locals.contains(i as nat) implies #[trigger] r3[i]
                    == regs[i] by {
                    if lb.contains(i as nat) {
                        let j = choose|j: int| 0 <= j < lb.len() && lb[j] == i as nat;
                        if j < locals.len() {
                            assert(locals[j] == lb[j]);
                        }
                    }
                    assert(r3[i] == r2[i]);
                    assert(r1[i] == regs[i]);
                }
            }
            assert forall|i: int| 0 <= i < next && !assigns(e, locals, 0, i as nat) implies #[trigger] r3[i]
                == regs[i] by {
                lemma_assigns_push(*body, locals, next, 0, i as nat);
                assert(r3[i] == r2[i]);
                assert(r1[i] == regs[i]);
            }
            lemma_exec_n_compose(prog, args, s, kr + km, kb);
            (kr + km + kb, r3)
        },
        Expr::SetLocal(l, rhs) => {
            let target = local_reg(locals, l as nat);
            let idx = locals.len() - 1 - l;
            let gr = gen(*rhs, locals, next, pc);
            let mv = if gr.reg != target {
                seq![Op::Move(target as usize, gr.reg as usize)]
            } else {
                seq![]
            };
            lemma_code_split(prog, pc, gr.ops, mv);
            let (kr, r1) = lemma_expr(prog, args, *rhs, locals, next, pc, env, regs, fuel, true);
            let (v, env1) = eval(*rhs, args, env, fuel).unwrap();
            let s1 = State { ip: pc + gr.ops.len(), regs: r1 };
            let env2 = env1.update(idx, v);
            let r2 = if gr.reg != target {
                lemma_code_one(prog, pc + gr.ops.len(), Op::Move(target as usize, gr.reg as usize));
                lemma_exec_one(prog, args, s1);
                lemma_exec_n_compose(prog, args, s, kr, 1);
                r1.update(target as int, v)
            } else {
                r1
            };
            assert(frame(r2, locals, env2, 0, next)) by {
                assert forall|i: int| 0 <= i < locals.len() implies r2[#[trigger] locals[i] as int]
                    == env2[i] by {
                    if i != idx {
                        if i < idx {
                            assert(locals[i] < locals[idx]);
                        } else {
                            assert(locals[idx] < locals[i]);
                        }
                    }
                }
            }
            assert(keeps(r2, regs, locals, next)) by {
                assert forall|i: int| 0 <= i < next && !locals.contains(i as nat) implies #[trigger] r2[i]
                    == regs[i] by {
                    assert(locals[idx] == target);
                    assert(r1[i] == regs[i]);
                }
            }
            assert forall|i: int| 0 <= i < next && !assigns(e, locals, 0, i as nat) implies #[trigger] r2[i]
                == regs[i] by {
                assert(i != target);
                assert(r1[i] == regs[i]);
            }
            if gr.reg != target {
                (kr + 1, r2)
            } else {
                (kr, r2)
            }
        },
        Expr::While(p, b) => {
            let gp = gen(*p, locals, next, pc);
            let gb = gen(*b, locals, next, pc + gp.ops.len() + 1);
            let end = pc + gp.ops.len() + 1 + gb.ops.len() + 1;
            let jz = Op::JmpZN(gp.reg as usize, end as usize);
            let jmp = Op::Jmp(pc as usize);
            lemma_code_split(prog, pc, gp.ops + seq![jz] + gb.ops, seq![jmp]);
            lemma_code_split(prog, pc, gp.ops + seq![jz], gb.ops);
            lemma_code_split(prog, pc, gp.ops, seq![jz]);
            let (kp, r1) = lemma_expr(prog, args, *p, locals, next, pc, env, regs, fuel, true);
            let (vp, env1) = eval(*p, args, env, fuel).unwrap();
            let s1 = State { ip: pc + gp.ops.len(), regs: r1 };
            lemma_code_one(prog, pc + gp.ops.len(), jz);
            lemma_exec_one(prog, args, s1);
            lemma_exec_n_compose(prog, args, s, kp, 1);
            if vp <= 0 {
                assert forall|i: int| 0 <= i < next && !assigns(e, locals, 0, i as nat) implies #[trigger] r1[i]
                    == regs[i] by {}
                (kp + 1, r1)
            } else {
                let (kb, r2) = lemma_expr(
                    prog,
                    args,
                    *b,
                    locals,
                    next,
                    pc + gp.ops.len() + 1,
                    env1,
                    r1,
                    fuel,
                    false,
                );
                let env2 = eval(*b, args, env1, fuel).unwrap().1;
                let s2 = State { ip: pc + gp.ops.len() + 1 + gb.ops.len(), regs: r2 };
                lemma_code_one(prog, pc + gp.ops.len() + 1 + gb.ops.len(), jmp);
                lemma_exec_one(prog, args, s2);
                lemma_exec_n_compose(prog, args, s, kp + 1, kb);
                lemma_exec_n_compose(prog, args, s, kp + 1 + kb, 1);
                let (kw, r3) = lemma_expr(
                    prog,
                    args,
                    e,
                    locals,
                    next,
                    pc,
                    env2,
                    r2,
                    (fuel - 1) as nat,
                    value,
                );
                lemma_exec_n_compose(prog, args, s, kp + 1 + kb + 1, kw);
                assert forall|i: int| 0 <= i < next && !assigns(e, locals, 0, i as nat) implies #[trigger] r3[i]
                    == regs[i] by {
                    assert(r3[i] == r2[i]);
                    assert(r2[i] == r1[i]);
                    assert(r1[i] == regs[i]);
                }
                (kp + 1 + kb + 1 + kw, r3)
            }
        },
        Expr::Then(a, b) => {
            let ga = gen(*a, locals, next, pc);
            let gb = gen(*b, locals, next, pc + ga.ops.len());
            lemma_code_split(prog, pc, ga.ops, gb.ops);
            let (ka, r1) = lemma_expr(prog, args, *a, locals, next, pc, env, regs, fuel, false);
            let env1 = eval(*a, args, env, fuel).unwrap().1;
            let (kb, r2) = lemma_expr(
                prog,
                args,
                *b,
                locals,
                next,
                pc + ga.ops.len(),
                env1,
                r1,
                fuel,
                value,
            );
            lemma_exec_n_compose(prog, args, s, ka, kb);
            assert forall|i: int| 0 <= i < next && !assigns(e, locals, 0, i as nat) implies #[trigger] r2[i]
                == regs[i] by {
                assert(r2[i] == r1[i]);
            }
            (ka + kb, r2)
        },
    }
}

/// The register machine computes what the expression means: when a
/// well-formed expression evaluates to `v`, the program that
/// `BytecodeRegister::compile` makes of it stops, and stops with `v`, so
/// `BytecodeRegister::execute` returns `v`.
pub proof fn theorem_compile_correct(e: Expr, args: Seq<i64>, fuel: nat)
    requires
        well_formed(e, 0, true),
        compiled_ops(e).len() <= usize::MAX,
        compiled_num_regs(e) <= usize::MAX,
        eval(e, args, Seq::empty(), fuel) is Some,
    ensures
        halts(compiled_ops(e), compiled_num_regs(e), args),
        forall|f: nat|
            #[trigger] run(compiled_ops(e), args, initial(compiled_num_regs(e)), f) is Some ==> run(
                compiled_ops(e),
                args,
                initial(compiled_num_regs(e)),
                f,
            ) == Some(eval(e, args, Seq::empty(), fuel).unwrap().0),
{
    let l0 = Seq::<nat>::empty();
    let g = gen(e, l0, 0, 0);
    let prog = compiled_ops(e);
    let n = compiled_num_regs(e);
    let s0 = initial(n);
    assert(code_at(prog, 0, g.ops)) by {
        assert forall|i: int| #![trigger g.ops[i]] 0 <= i < g.ops.len() implies prog[0 + i]
            == g.ops[i] by {}
    }
    let (k, r) = lemma_expr(prog, args, e, l0, 0, 0, Seq::empty(), s0.regs, fuel, true);
    let v = eval(e, args, Seq::empty(), fuel).unwrap().0;
    let s1 = State { ip: g.ops.len(), regs: r };
    assert(prog[g.ops.len() as int] == Op::Ret(g.reg as usize));
    assert(step(prog, args, s1) == Step::Halt(v));
    lemma_exec_n_run(prog, args, s0, k, 1);
    assert(run(prog, args, s1, 1) == Some(v));
    assert(run(prog, args, s0, k + 1) is Some);
    assert forall|f: nat| #[trigger] run(prog, args, s0, f) is Some implies run(prog, args, s0, f)
        == Some(v) by {
        lemma_run_unique(prog, args, s0, f, k + 1);
    }
}


// ---------------------------------------------------------------------------
// Programs whose evaluation does not end do not stop
// ---------------------------------------------------------------------------
/// Within `k` instructions from `s`, the machine reaches no `Ret`.
pub open spec fn no_halt(ops: Seq<Op>, args: Seq<i64>, s: State, k: nat) -> bool {
    forall|j: nat|
        j <= k ==> (#[trigger] exec_n(ops, args, s, j) matches Some(t) ==> !(step(ops, args, t) is Halt))
}

proof fn lemma_exec_n_steps(ops: Seq<Op>, args: Seq<i64>, s: State, k: nat, j: nat)
    requires
        exec_n(ops, args, s, k) is Some,
        j < k,
    ensures
        exec_n(ops, args, s, j) is Some,
        step(ops, args, exec_n(ops, args, s, j).unwrap()) is Next,
    decreases j,
{
    if j > 0 {
        let s2 = step(ops, args, s)->Next_0;
        lemma_exec_n_steps(ops, args, s2, (k - 1) as nat, (j - 1) as nat);
    }
}

proof fn lemma_no_halt_seq(ops: Seq<Op>, args: Seq<i64>, s: State, k: nat, f: nat)
    requires
        exec_n(ops, args, s, k) is Some,
        no_halt(ops, args, exec_n(ops, args, s, k).unwrap(), f),
    ensures
        no_halt(ops, args, s, k + f),
{
    assert forall|j: nat| j <= k + f implies (#[trigger] exec_n(ops, args, s, j) matches Some(t)
        ==> !(step(ops, args, t) is Halt)) by {
        if j < k {
            lemma_exec_n_steps(ops, args, s, k, j);
        } else {
            lemma_exec_n_compose(ops, args, s, k, (j - k) as nat);
            assert(k + (j - k) as nat == j);
        }
    }
}

proof fn lemma_no_halt_stuck(ops: Seq<Op>, args: Seq<i64>, s: State, k: nat, f: nat)
    requires
        exec_n(ops, args, s, k) is Some,
        step(ops, args, exec_n(ops, args, s, k).unwrap()) is Stuck,
    ensures
        no_halt(ops, args, s, f),
{
    let t = exec_n(ops, args, s, k).unwrap();
    assert(no_halt(ops, args, t, f)) by {
        assert forall|j: nat| j <= f implies (#[trigger] exec_n(ops, args, t, j) matches Some(u)
            ==> !(step(ops, args, u) is Halt)) by {
            if j > 0 {
                assert(exec_n(ops, args, t, j) is None);
            }
        }
    }
    lemma_no_halt_seq(ops, args, s, k, f);
}

/// When the evaluation of a well-formed expression fails with this fuel (an
/// argument is missing, an addition overflows or a loop runs out of fuel),
/// its code reaches no `Ret` within `fuel` instructions: every loop round
/// takes at least one.
#[verifier::rlimit(80)]
proof fn lemma_expr_diverge(
    prog: Seq<Op>,
    args: Seq<i64>,
    e: Expr,
    locals: Seq<nat>,
    next: nat,
    pc: nat,
    env: Seq<i64>,
    regs: Seq<i64>,
    fuel: nat,
)
    requires
        well_formed(e, env.len(), false) || well_formed(e, env.len(), true),
        frame(regs, locals, env, 0, next),
        code_at(prog, pc, gen(e, locals, next, pc).ops),
        prog.len() <= usize::MAX,
        gen(e, locals, next, pc).top <= regs.len(),
        regs.len() <= usize::MAX,
        eval(e, args, env, fuel) is None,
    ensures
        no_halt(prog, args, State { ip: pc, regs }, fuel),
    decreases fuel, size(e),
{
    let s = State { ip: pc, regs };
    match e {
        Expr::Litr(_) => {},
        Expr::Arg(i) => {
            lemma_code_one(prog, pc, Op::LoadArg(next as usize, i));
            assert(exec_n(prog, args, s, 0) == Some(s));
            lemma_no_halt_stuck(prog, args, s, 0, fuel);
        },
        Expr::Get(_) => {},
        Expr::Add(x, y) => {
            let gx = gen(*x, locals, next, pc);
            let copy = gx.reg < next && assigns(*y, locals, 0, gx.reg);
            let mv = if copy {
                seq![Op::Move(next as usize, gx.reg as usize)]
            } else {
                seq![]
            };
            let xr = if copy {
                next
            } else {
                gx.reg
            };
            let y_next = if xr >= next {
                xr + 1
            } else {
                next
            };
            let pc_y = pc + gx.ops.len() + mv.len();
            let gy = gen(*y, locals, y_next, pc_y);
            let op = Op::Add(next as usize, xr as usize, gy.reg as usize);
            lemma_code_split(prog, pc, gx.ops + mv + gy.ops, seq![op]);
            lemma_code_split(prog, pc, gx.ops + mv, gy.ops);
            lemma_code_split(prog, pc, gx.ops, mv);
            if eval(*x, args, env, fuel) is None {
                lemma_expr_diverge(prog, args, *x, locals, next, pc, env, regs, fuel);
            } else {
                let (kx, r1) = lemma_expr(prog, args, *x, locals, next, pc, env, regs, fuel, true);
                let (vx, env1) = eval(*x, args, env, fuel).unwrap();
                let s1 = State { ip: pc + gx.ops.len(), regs: r1 };
                lemma_not_local(locals, next, next);
                let (km, r1m) = if copy {
                    lemma_code_one(prog, pc + gx.ops.len(), Op::Move(next as usize, gx.reg as usize));
                    lemma_exec_one(prog, args, s1);
                    (1nat, r1.update(next as int, vx))
                } else {
                    (0nat, r1)
                };
                lemma_exec_n_compose(prog, args, s, kx, km);
                assert(frame(r1m, locals, env1, 0, y_next));
                if eval(*y, args, env1, fuel) is None {
                    lemma_expr_diverge(prog, args, *y, locals, y_next, pc_y, env1, r1m, fuel);
                    lemma_no_halt_seq(prog, args, s, kx + km, fuel);
                } else {
                    let (ky, r2) = lemma_expr(prog, args, *y, locals, y_next, pc_y, env1, r1m, fuel, true);
                    lemma_code_one(prog, pc_y + gy.ops.len(), op);
                    lemma_exec_n_compose(prog, args, s, kx + km, ky);
                    if xr >= next {
                        lemma_not_local(locals, xr, next);
                    }
                    assert(r2[xr as int] == vx);
                    lemma_no_halt_stuck(prog, args, s, kx + km + ky, fuel);
                }
            }
        },
        Expr::Let(rhs, body) => {
            let gr = gen(*rhs, locals, next, pc);
            let mv = if gr.reg != next {
                seq![Op::Move(next as usize, gr.reg as usize)]
            } else {
                seq![]
            };
            let pc_b = pc + gr.ops.len() + mv.len();
            let lb = locals.push(next);
            let gb = gen(*body, lb, next + 1, pc_b);
            lemma_code_split(prog, pc, gr.ops + mv, gb.ops);
            lemma_code_split(prog, pc, gr.ops, mv);
            if eval(*rhs, args, env, fuel) is None {
                lemma_expr_diverge(prog, args, *rhs, locals, next, pc, env, regs, fuel);
            } else {
                let (kr, r1) = lemma_expr(prog, args, *rhs, locals, next, pc, env, regs, fuel, true);
                let (v, env1) = eval(*rhs, args, env, fuel).unwrap();
                let s1 = State { ip: pc + gr.ops.len(), regs: r1 };
                lemma_not_local(locals, next, next);
                let (km, r2) = if gr.reg != next {
                    lemma_code_one(prog, pc + gr.ops.len(), Op::Move(next as usize, gr.reg as usize));
                    lemma_exec_one(prog, args, s1);
                    (1nat, r1.update(next as int, v))
                } else {
                    (0nat, r1)
                };
                lemma_exec_n_compose(prog, args, s, kr, km);
                let env_b = env1.push(v);
                assert(frame(r2, lb, env_b, 0, next + 1)) by {
                    assert forall|i: int| 0 <= i < lb.len() implies r2[#[trigger] lb[i] as int]
                        == env_b[i] by {
                        if i < locals.len() {
                            assert(lb[i] == locals[i]);
                        }
                    }
                }
                lemma_expr_diverge(prog, args, *body, lb, next + 1, pc_b, env_b, r2, fuel);
                lemma_no_halt_seq(prog, args, s, kr + km, fuel);
            }
        },
        Expr::SetLocal(l, rhs) => {
            let target = local_reg(locals, l as nat);
            let gr = gen(*rhs, locals, next, pc);
            let mv = if gr.reg != target {
                seq![Op::Move(target as usize, gr.reg as usize)]
            } else {
                seq![]
            };
            lemma_code_split(prog, pc, gr.ops, mv);
            if eval(*rhs, args, env, fuel) is Some {
                lemma_expr(prog, args, *rhs, locals, next, pc, env, regs, fuel, true);
                assert(false);
            }
            lemma_expr_diverge(prog, args, *rhs, locals, next, pc, env, regs, fuel);
        },
        Expr::While(p, b) => {
            let gp = gen(*p, locals, next, pc);
            let gb = gen(*b, locals, next, pc + gp.ops.len() + 1);
            let end = pc + gp.ops.len() + 1 + gb.ops.len() + 1;
            let jz = Op::JmpZN(gp.reg as usize, end as usize);
            let jmp = Op::Jmp(pc as usize);
            lemma_code_split(prog, pc, gp.ops + seq![jz] + gb.ops, seq![jmp]);
            lemma_code_split(prog, pc, gp.ops + seq![jz], gb.ops);
            lemma_code_split(prog, pc, gp.ops, seq![jz]);
            if eval(*p, args, env, fuel) is None {
                lemma_expr_diverge(prog, args, *p, locals, next, pc, env, regs, fuel);
            } else {
                let (kp, r1) = lemma_expr(prog, args, *p, locals, next, pc, env, regs, fuel, true);
                let (vp, env1) = eval(*p, args, env, fuel).unwrap();
                let s1 = State { ip: pc + gp.ops.len(), regs: r1 };
                lemma_code_one(prog, pc + gp.ops.len(), jz);
                lemma_exec_one(prog, args, s1);
                lemma_exec_n_compose(prog, args, s, kp, 1);
                if eval(*b, args, env1, fuel) is None {
                    lemma_expr_diverge(prog, args, *b, locals, next, pc + gp.ops.len() + 1, env1, r1, fuel);
                    lemma_no_halt_seq(prog, args, s, kp + 1, fuel);
                } else {
                    let (kb, r2) = lemma_expr(
                        prog,
                        args,
                        *b,
                        locals,
                        next,
                        pc + gp.ops.len() + 1,
                        env1,
                        r1,
                        fuel,
                        false,
                    );
                    let env2 = eval(*b, args, env1, fuel).unwrap().1;
                    let s2 = State { ip: pc + gp.ops.len() + 1 + gb.ops.len(), regs: r2 };
                    lemma_code_one(prog, pc + gp.ops.len() + 1 + gb.ops.len(), jmp);
                    lemma_exec_one(prog, args, s2);
                    lemma_exec_n_compose(prog, args, s, kp + 1, kb);
                    lemma_exec_n_compose(prog, args, s, kp + 1 + kb, 1);
                    let k = kp + 1 + kb + 1;
                    if fuel == 0 {
                        assert(no_halt(prog, args, s, 0)) by {
                            assert forall|j: nat| j <= 0 implies (#[trigger] exec_n(prog, args, s, j) matches Some(
                                t,
                            ) ==> !(step(prog, args, t) is Halt)) by {
                                lemma_exec_n_steps(prog, args, s, k, 0);
                            }
                        }
                    } else {
                        lemma_expr_diverge(prog, args, e, locals, next, pc, env2, r2, (fuel - 1) as nat);
                        lemma_no_halt_seq(prog, args, s, k, (fuel - 1) as nat);
                    }
                }
            }
        },
        Expr::Then(a, b) => {
            let ga = gen(*a, locals, next, pc);
            let gb = gen(*b, locals, next, pc + ga.ops.len());
            lemma_code_split(prog, pc, ga.ops, gb.ops);
            if eval(*a, args, env, fuel) is None {
                lemma_expr_diverge(prog, args, *a, locals, next, pc, env, regs, fuel);
            } else {
                let (ka, r1) = lemma_expr(prog, args, *a, locals, next, pc, env, regs, fuel, false);
                let env1 = eval(*a, args, env, fuel).unwrap().1;
                lemma_expr_diverge(prog, args, *b, locals, next, pc + ga.ops.len(), env1, r1, fuel);
                lemma_no_halt_seq(prog, args, s, ka, fuel);
            }
        },
    }
}

proof fn lemma_run_halts_at(ops: Seq<Op>, args: Seq<i64>, s: State, f: nat) -> (j: nat)
    requires
        run(ops, args, s, f) is Some,
    ensures
        j < f,
        exec_n(ops, args, s, j) is Some,
        step(ops, args, exec_n(ops, args, s, j).unwrap()) is Halt,
    decreases f,
{
    match step(ops, args, s) {
        Step::Next(s2) => {
            let j2 = lemma_run_halts_at(ops, args, s2, (f - 1) as nat);
            j2 + 1
        },
        _ => 0,
    }
}

/// The register machine keeps termination: the program that
/// `BytecodeRegister::compile` makes of a well-formed expression stops
/// exactly when the evaluation of the expression ends, and then with its
/// value.
pub proof fn theorem_compile_halts_iff(e: Expr, args: Seq<i64>)
    requires
        well_formed(e, 0, true),
        compiled_ops(e).len() <= usize::MAX,
        compiled_num_regs(e) <= usize::MAX,
    ensures
        halts(compiled_ops(e), compiled_num_regs(e), args) <==> (exists|fuel: nat|
            #[trigger] eval(e, args, Seq::empty(), fuel) is Some),
        forall|f: nat, fuel: nat|
            #[trigger] run(compiled_ops(e), args, initial(compiled_num_regs(e)), f) is Some
                && #[trigger] eval(e, args, Seq::empty(), fuel) is Some ==> run(
                compiled_ops(e),
                args,
                initial(compiled_num_regs(e)),
                f,
            ) == Some(eval(e, args, Seq::empty(), fuel).unwrap().0),
{
    let prog = compiled_ops(e);
    let s0 = initial(compiled_num_regs(e));
    assert forall|f: nat, fuel: nat|
        #[trigger] run(prog, args, s0, f) is Some && #[trigger] eval(e, args, Seq::empty(), fuel)
            is Some implies run(prog, args, s0, f) == Some(
        eval(e, args, Seq::empty(), fuel).unwrap().0,
    ) by {
        theorem_compile_correct(e, args, fuel);
    }
    if exists|fuel: nat| #[trigger] eval(e, args, Seq::empty(), fuel) is Some {
        let fuel = choose|fuel: nat| #[trigger] eval(e, args, Seq::empty(), fuel) is Some;
        theorem_compile_correct(e, args, fuel);
    }
    if halts(prog, compiled_num_regs(e), args) {
        let f = choose|f: nat| #[trigger] run(prog, args, s0, f) is Some;
        if eval(e, args, Seq::empty(), f) is None {
            let l0 = Seq::<nat>::empty();
            let g = gen(e, l0, 0, 0);
            assert(code_at(prog, 0, g.ops)) by {
                assert forall|i: int| #![trigger g.ops[i]] 0 <= i < g.ops.len() implies prog[0 + i]
                    == g.ops[i] by {}
            }
            lemma_expr_diverge(prog, args, e, l0, 0, 0, Seq::empty(), s0.regs, f);
            let j = lemma_run_halts_at(prog, args, s0, f);
            assert(exec_n(prog, args, s0, j) matches Some(t) ==> !(step(prog, args, t) is Halt));
        }
        assert(eval(e, args, Seq::empty(), f) is Some);
    }
}


// ---------------------------------------------------------------------------
// Compiled code stays inside its register file and its instruction list
// ---------------------------------------------------------------------------
/// Every register that `op` names is below `n`, every argument it loads is
/// below `na`, and its jump goes to an instruction below `len`.
pub open spec fn op_in_bounds(op: Op, n: nat, len: nat, na: nat) -> bool {
    match op {
        Op::LoadImm(d, _) => d < n,
        Op::LoadArg(d, i) => d < n && i < na,
        Op::Move(d, s) => d < n && s < n,
        Op::Add(d, a, b) => d < n && a < n && b < n,
        Op::JmpZN(r, t) => r < n && t < len,
        Op::Jmp(t) => t < len,
        Op::Ret(r) => r < n,
    }
}

/// Every instruction of `seg` stays inside `n` registers, `na` arguments and
/// `len` instructions.
pub open spec fn seg_in_bounds(seg: Seq<Op>, n: nat, len: nat, na: nat) -> bool {
    forall|i: int| 0 <= i < seg.len() ==> op_in_bounds(#[trigger] seg[i], n, len, na)
}

proof fn lemma_seg_concat(a: Seq<Op>, b: Seq<Op>, n: nat, len: nat, na: nat)
    requires
        seg_in_bounds(a, n, len, na),
        seg_in_bounds(b, n, len, na),
    ensures
        seg_in_bounds(a + b, n, len, na),
{
    assert forall|i: int| 0 <= i < (a + b).len() implies op_in_bounds(#[trigger] (a + b)[i], n, len, na) by {
        if i < a.len() {
            assert((a + b)[i] == a[i]);
        } else {
            assert((a + b)[i] == b[i - a.len()]);
        }
    }
}

/// The code of a well-formed expression names only registers below the
/// register file size `n` and jumps only inside the code; when its value is
/// used, its result register is below `n` too.
proof fn lemma_in_bounds(
    e: Expr,
    locals: Seq<nat>,
    next: nat,
    pc: nat,
    n: nat,
    len: nat,
    na: nat,
    value: bool,
)
    requires
        well_formed(e, locals.len(), value),
        spec_argmax(e) <= na,
        forall|i: int| 0 <= i < locals.len() ==> #[trigger] locals[i] < next,
        next <= n,
        gen(e, locals, next, pc).top <= n,
        pc + gen(e, locals, next, pc).ops.len() < len,
    ensures
        seg_in_bounds(gen(e, locals, next, pc).ops, n, len, na),
        value ==> gen(e, locals, next, pc).reg < n,
    decreases e,
{
    match e {
        Expr::Litr(_) => {},
        Expr::Arg(_) => {},
        Expr::Get(l) => {
            assert(locals[locals.len() - 1 - l] < next);
        },
        Expr::Add(x, y) => {
            let gx = gen(*x, locals, next, pc);
            let copy = gx.reg < next && assigns(*y, locals, 0, gx.reg);
            let mv = if copy {
                seq![Op::Move(next as usize, gx.reg as usize)]
            } else {
                seq![]
            };
            let xr = if copy {
                next
            } else {
                gx.reg
            };
            let y_next = if xr >= next {
                xr + 1
            } else {
                next
            };
            let gy = gen(*y, locals, y_next, pc + gx.ops.len() + mv.len());
            lemma_in_bounds(*x, locals, next, pc, n, len, na, true);
            lemma_in_bounds(*y, locals, y_next, pc + gx.ops.len() + mv.len(), n, len, na, true);
            let op = Op::Add(next as usize, xr as usize, gy.reg as usize);
            lemma_seg_concat(gx.ops, mv, n, len, na);
            lemma_seg_concat(gx.ops + mv, gy.ops, n, len, na);
            lemma_seg_concat(gx.ops + mv + gy.ops, seq![op], n, len, na);
        },
        Expr::Let(rhs, body) => {
            let gr = gen(*rhs, locals, next, pc);
            let mv = if gr.reg != next {
                seq![Op::Move(next as usize, gr.reg as usize)]
            } else {
                seq![]
            };
            let lb = locals.push(next);
            let pc_b = pc + gr.ops.len() + mv.len();
            lemma_in_bounds(*rhs, locals, next, pc, n, len, na, true);
            assert forall|i: int| 0 <= i < lb.len() implies #[trigger] lb[i] < next + 1 by {
                if i < locals.len() {
                    assert(lb[i] == locals[i]);
                }
            }
            lemma_in_bounds(*body, lb, next + 1, pc_b, n, len, na, value);
            lemma_seg_concat(gr.ops, mv, n, len, na);
            lemma_seg_concat(gr.ops + mv, gen(*body, lb, next + 1, pc_b).ops, n, len, na);
        },
        Expr::SetLocal(l, rhs) => {
            let target = local_reg(locals, l as nat);
            assert(target < next);
            let gr = gen(*rhs, locals, next, pc);
            let mv = if gr.reg != target {
                seq![Op::Move(target as usize, gr.reg as usize)]
            } else {
                seq![]
            };
            lemma_in_bounds(*rhs, locals, next, pc, n, len, na, true);
            lemma_seg_concat(gr.ops, mv, n, len, na);
        },
        Expr::While(p, b) => {
            let gp = gen(*p, locals, next, pc);
            let gb = gen(*b, locals, next, pc + gp.ops.len() + 1);
            let end = pc + gp.ops.len() + 1 + gb.ops.len() + 1;
            let jz = Op::JmpZN(gp.reg as usize, end as usize);
            let jmp = Op::Jmp(pc as usize);
            lemma_in_bounds(*p, locals, next, pc, n, len, na, true);
            lemma_in_bounds(*b, locals, next, pc + gp.ops.len() + 1, n, len, na, false);
            lemma_seg_concat(gp.ops, seq![jz], n, len, na);
            lemma_seg_concat(gp.ops + seq![jz], gb.ops, n, len, na);
            lemma_seg_concat(gp.ops + seq![jz] + gb.ops, seq![jmp], n, len, na);
        },
        Expr::Then(a, b) => {
            let ga = gen(*a, locals, next, pc);
            lemma_in_bounds(*a, locals, next, pc, n, len, na, false);
            lemma_in_bounds(*b, locals, next, pc + ga.ops.len(), n, len, na, value);
            lemma_seg_concat(ga.ops, gen(*b, locals, next, pc + ga.ops.len()).ops, n, len, na);
        },
    }
}

/// Compiled code stays inside its register file and its instruction list:
/// every register that an instruction of a well-formed expression's program
/// names is below `compiled_num_regs`, every argument it loads is below the
/// number of arguments the expression names, every jump goes to one of its
/// instructions, and the last instruction is the `Ret`.
pub proof fn theorem_compiled_in_bounds(e: Expr)
    requires
        well_formed(e, 0, true),
    ensures
        seg_in_bounds(
            compiled_ops(e),
            compiled_num_regs(e),
            compiled_ops(e).len(),
            spec_argmax(e),
        ),
        compiled_ops(e).last() is Ret,
{
    let na = spec_argmax(e);
    let l0 = Seq::<nat>::empty();
    let g = gen(e, l0, 0, 0);
    let n = compiled_num_regs(e);
    let len = compiled_ops(e).len();
    lemma_in_bounds(e, l0, 0, 0, n, len, na, true);
    lemma_seg_concat(g.ops, seq![Op::Ret(g.reg as usize)], n, len, na);
}

} // verus!
