use crate::bytecode_register_laws::{code_at, lemma_code_one, lemma_code_split};
use crate::expr::{
    add_fits, assigns, eval, lemma_assigns_push, max, pure_expr, size, spec_argmax, well_formed,
    Expr,
};
use crate::register_ir::{
    gen, gen_add, initial, lemma_run_unique, local_reg, lowerable, lowered_num_regs, lowered_ops,
    run, step, Op, State, Step,
};
use vstd::prelude::*;

verus! {

/// Exactly `k` instructions from `s`, none of which stops or gets stuck.
pub open spec fn exec_n(ops: Seq<Op>, s: State, k: nat) -> Option<State>
    decreases k,
{
    if k == 0 {
        Some(s)
    } else {
        match step(ops, s) {
            Step::Next(s2) => exec_n(ops, s2, (k - 1) as nat),
            _ => None,
        }
    }
}

proof fn lemma_exec_n_compose(ops: Seq<Op>, s: State, a: nat, b: nat)
    requires
        exec_n(ops, s, a) is Some,
    ensures
        exec_n(ops, s, a + b) == exec_n(ops, exec_n(ops, s, a).unwrap(), b),
    decreases a,
{
    if a > 0 {
        if let Step::Next(s2) = step(ops, s) {
            lemma_exec_n_compose(ops, s2, (a - 1) as nat, b);
            assert((a - 1) as nat + b == (a + b - 1) as nat);
        }
    }
}

proof fn lemma_exec_n_run(ops: Seq<Op>, s: State, k: nat, f: nat)
    requires
        exec_n(ops, s, k) is Some,
    ensures
        run(ops, s, k + f) == run(ops, exec_n(ops, s, k).unwrap(), f),
    decreases k,
{
    if k > 0 {
        if let Step::Next(s2) = step(ops, s) {
            lemma_exec_n_run(ops, s2, (k - 1) as nat, f);
            assert((k - 1) as nat + f == (k + f - 1) as nat);
        }
    }
}

proof fn lemma_exec_one(ops: Seq<Op>, s: State)
    requires
        step(ops, s) is Next,
    ensures
        exec_n(ops, s, 1) == Some(step(ops, s)->Next_0),
{
    assert(exec_n(ops, step(ops, s)->Next_0, 0) == Some(step(ops, s)->Next_0));
}

/// Registers `0..n_args` hold the arguments, and the locals live in
/// registers `locals` (strictly increasing, from `n_args` on, below `next`),
/// which hold `env`; `next` is inside the register file.
pub open spec fn frame(
    regs: Seq<i64>,
    n_args: nat,
    args: Seq<i64>,
    locals: Seq<nat>,
    env: Seq<i64>,
    next: nat,
) -> bool {
    &&& n_args <= args.len()
    &&& n_args <= next <= regs.len()
    &&& forall|i: int| 0 <= i < n_args ==> #[trigger] regs[i] == args[i]
    &&& locals.len() == env.len()
    &&& forall|i: int| 0 <= i < locals.len() ==> n_args <= #[trigger] locals[i] < next
    &&& forall|i: int, j: int|
        0 <= i < j < locals.len() ==> #[trigger] locals[i] < #[trigger] locals[j]
    &&& forall|i: int| 0 <= i < locals.len() ==> regs[#[trigger] locals[i] as int] == env[i]
}

/// `r` and `regs` agree below `n`, except on the registers of locals.
pub open spec fn keeps(r: Seq<i64>, regs: Seq<i64>, locals: Seq<nat>, n: nat) -> bool {
    forall|i: int| 0 <= i < n && !locals.contains(i as nat) ==> #[trigger] r[i] == regs[i]
}

proof fn lemma_not_local(locals: Seq<nat>, i: nat, next: nat)
    requires
        forall|j: int| 0 <= j < locals.len() ==> #[trigger] locals[j] < next,
        next <= i,
    ensures
        !locals.contains(i),
{
    if locals.contains(i) {
        let j = choose|j: int| 0 <= j < locals.len() && locals[j] == i;
        assert(locals[j] < next);
    }
}

/// What `lemma_expr` and `lemma_add` need.
pub open spec fn setting(
    prog: Seq<Op>,
    n_args: nat,
    args: Seq<i64>,
    locals: Seq<nat>,
    env: Seq<i64>,
    next: nat,
    regs: Seq<i64>,
) -> bool {
    &&& frame(regs, n_args, args, locals, env, next)
    &&& prog.len() <= usize::MAX
    &&& regs.len() <= usize::MAX
}

/// `x + y` into `dest`: leaves the locals as `eval` leaves them (except a
/// local in `dest`) and every other register below `next` but `dest` alone.
#[verifier::rlimit(60)]
proof fn lemma_add(
    prog: Seq<Op>,
    x: Expr,
    y: Expr,
    n_args: nat,
    locals: Seq<nat>,
    next: nat,
    dest: nat,
    pc: nat,
    args: Seq<i64>,
    env: Seq<i64>,
    regs: Seq<i64>,
    fuel: nat,
) -> (res: (nat, Seq<i64>))
    requires
        well_formed(x, env.len(), true),
        well_formed(y, env.len(), true),
        spec_argmax(x) <= n_args,
        spec_argmax(y) <= n_args,
        setting(prog, n_args, args, locals, env, next, regs),
        n_args <= dest <= next,
        code_at(prog, pc, gen_add(x, y, locals, next, dest, pc).ops),
        gen_add(x, y, locals, next, dest, pc).top <= regs.len(),
        eval(Expr::Add(Box::new(x), Box::new(y)), args, env, fuel) is Some,
    ensures
        ({
            let (v, env2) = eval(Expr::Add(Box::new(x), Box::new(y)), args, env, fuel).unwrap();
            &&& exec_n(prog, State { ip: pc, regs }, res.0) == Some(
                State { ip: pc + gen_add(x, y, locals, next, dest, pc).ops.len(), regs: res.1 },
            )
            &&& res.1.len() == regs.len()
            &&& env2.len() == env.len()
            &&& dest < regs.len()
            &&& res.1[dest as int] == v
            &&& forall|i: int|
                0 <= i < locals.len() && locals[i] != dest ==> res.1[#[trigger] locals[i] as int]
                    == env2[i]
            &&& forall|i: int|
                0 <= i < n_args ==> #[trigger] res.1[i] == args[i]
            &&& forall|i: int|
                0 <= i < next && i != dest && !locals.contains(i as nat) ==> #[trigger] res.1[i]
                    == regs[i]
            &&& pure_expr(x) && pure_expr(y) ==> env2 == env
            &&& pure_expr(x) && pure_expr(y) ==> forall|i: int|
                0 <= i < next && i != dest ==> #[trigger] res.1[i] == regs[i]
            &&& forall|i: int|
                0 <= i < next && i != dest && !assigns(x, locals, 0, i as nat) && !assigns(
                    y,
                    locals,
                    0,
                    i as nat,
                ) ==> #[trigger] res.1[i] == regs[i]
        }),
    decreases fuel, size(x) + size(y) + 1, 0nat,
{
    let s = State { ip: pc, regs };
    let gx = gen(x, locals, next, pc);
    if let Expr::Litr(imm) = y {
        let op = Op::AddImm(dest as usize, gx.reg as usize, imm);
        lemma_code_split(prog, pc, gx.ops, seq![op]);
        let (kx, r1) = lemma_expr(prog, x, n_args, locals, next, pc, args, env, regs, fuel, true);
        let (vx, env1) = eval(x, args, env, fuel).unwrap();
        lemma_code_one(prog, pc + gx.ops.len(), op);
        let s1 = State { ip: pc + gx.ops.len(), regs: r1 };
        assert(add_fits(vx, imm));
        lemma_exec_one(prog, s1);
        lemma_exec_n_compose(prog, s, kx, 1);
        let r2 = r1.update(dest as int, (vx + imm) as i64);
        assert(eval(y, args, env1, fuel) == Some((imm, env1)));
        assert forall|i: int|
            0 <= i < next && i != dest && !assigns(x, locals, 0, i as nat) implies #[trigger] r2[i]
            == regs[i] by {
            assert(r1[i] == regs[i]);
        }
        (kx + 1, r2)
    } else {
        let copy = gx.reg < next && assigns(y, locals, 0, gx.reg);
        let mv = if copy {
            seq![Op::Move(next as usize, gx.reg as usize)]
        } else {
            seq![]
        };
        let xr = if copy {
            next
        } else {
            gx.reg
        };
        let y_next = if xr >= next {
            xr + 1
        } else {
            next
        };
        let pc_y = pc + gx.ops.len() + mv.len();
        let gy = gen(y, locals, y_next, pc_y);
        let op = Op::Add(dest as usize, xr as usize, gy.reg as usize);
        lemma_code_split(prog, pc, gx.ops + mv + gy.ops, seq![op]);
        lemma_code_split(prog, pc, gx.ops + mv, gy.ops);
        lemma_code_split(prog, pc, gx.ops, mv);
        let (kx, r1) = lemma_expr(prog, x, n_args, locals, next, pc, args, env, regs, fuel, true);
        let (vx, env1) = eval(x, args, env, fuel).unwrap();
        let s1 = State { ip: pc + gx.ops.len(), regs: r1 };
        lemma_not_local(locals, next, next);
        let (km, r1m) = if copy {
            lemma_code_one(prog, pc + gx.ops.len(), Op::Move(next as usize, gx.reg as usize));
            lemma_exec_one(prog, s1);
            (1nat, r1.update(next as int, vx))
        } else {
            (0nat, r1)
        };
        lemma_exec_n_compose(prog, s, kx, km);
        assert(r1m[xr as int] == vx);
        assert(frame(r1m, n_args, args, locals, env1, y_next));
        let (ky, r2) = lemma_expr(prog, y, n_args, locals, y_next, pc_y, args, env1, r1m, fuel, true);
        let (vy, env2) = eval(y, args, env1, fuel).unwrap();
        if xr >= next {
            lemma_not_local(locals, xr, next);
        } else {
            assert(!assigns(y, locals, 0, xr));
        }
        assert(r2[xr as int] == vx);
        let s2 = State { ip: pc_y + gy.ops.len(), regs: r2 };
        lemma_code_one(prog, pc_y + gy.ops.len(), op);
        assert(add_fits(vx, vy));
        lemma_exec_one(prog, s2);
        lemma_exec_n_compose(prog, s, kx + km, ky);
        lemma_exec_n_compose(prog, s, kx + km + ky, 1);
        let r3 = r2.update(dest as int, (vx + vy) as i64);
        assert forall|i: int|
            0 <= i < next && i != dest && !locals.contains(i as nat) implies #[trigger] r3[i]
            == regs[i] by {
            assert(r2[i] == r1m[i]);
            assert(r1[i] == regs[i]);
        }
        if pure_expr(x) && pure_expr(y) {
            assert forall|i: int| 0 <= i < next && i != dest implies #[trigger] r3[i] == regs[i] by {
                assert(r2[i] == r1m[i]);
                assert(r1[i] == regs[i]);
            }
        }
        assert forall|i: int|
            0 <= i < next && i != dest && !assigns(x, locals, 0, i as nat) && !assigns(
                y,
                locals,
                0,
                i as nat,
            ) implies #[trigger] r3[i] == regs[i] by {
            assert(r2[i] == r1m[i]);
            assert(r1[i] == regs[i]);
        }
        (kx + km + ky + 1, r3)
    }
}

/// A well-formed expression runs to the end of its code, leaves the
/// arguments alone, the locals as `eval` leaves them and every other
/// register below `next` alone, and, when its value is used, leaves that
/// value in its result register; a pure one leaves every register below
/// `next` alone.
#[verifier::rlimit(60)]
proof fn lemma_expr(
    prog: Seq<Op>,
    e: Expr,
    n_args: nat,
    locals: Seq<nat>,
    next: nat,
    pc: nat,
    args: Seq<i64>,
    env: Seq<i64>,
    regs: Seq<i64>,
    fuel: nat,
    value: bool,
) -> (res: (nat, Seq<i64>))
    requires
        well_formed(e, env.len(), value),
        spec_argmax(e) <= n_args,
        setting(prog, n_args, args, locals, env, next, regs),
        code_at(prog, pc, gen(e, locals, next, pc).ops),
        gen(e, locals, next, pc).top <= regs.len(),
        eval(e, args, env, fuel) is Some,
    ensures
        exec_n(prog, State { ip: pc, regs }, res.0) == Some(
            State { ip: pc + gen(e, locals, next, pc).ops.len(), regs: res.1 },
        ),
        res.1.len() == regs.len(),
        eval(e, args, env, fuel).unwrap().1.len() == env.len(),
        frame(res.1, n_args, args, locals, eval(e, args, env, fuel).unwrap().1, next),
        keeps(res.1, regs, locals, next),
        pure_expr(e) ==> eval(e, args, env, fuel).unwrap().1 == env,
        pure_expr(e) ==> forall|i: int| 0 <= i < next ==> #[trigger] res.1[i] == regs[i],
        forall|i: int|
            0 <= i < next && !assigns(e, locals, 0, i as nat) ==> #[trigger] res.1[i] == regs[i],
        value ==> gen(e, locals, next, pc).reg < regs.len(),
        value ==> res.1[gen(e, locals, next, pc).reg as int] == eval(e, args, env, fuel).unwrap().0,
    decreases fuel, size(e), 1nat,
{
    let s = State { ip: pc, regs };
    match e {
        Expr::Litr(x) => {
            lemma_code_one(prog, pc, Op::LoadImm(next as usize, x));
            lemma_exec_one(prog, s);
            lemma_not_local(locals, next, next);
            assert forall|i: int| 0 <= i < next implies #[trigger] regs.update(next as int, x)[i]
                == regs[i] by {}
            (1, regs.update(next as int, x))
        },
        Expr::Arg(i) => (0, regs),
        Expr::Get(l) => {
            let k = locals.len() - 1 - l;
            assert(regs[locals[k] as int] == env[k]);
            (0, regs)
        },
        Expr::Add(x, y) => {
            assert(gen(e, locals, next, pc) == gen_add(*x, *y, locals, next, next, pc));
            let (k, r) = lemma_add(prog, *x, *y, n_args, locals, next, next, pc, args, env, regs, fuel);
            lemma_not_local(locals, next, next);
            assert forall|i: int| 0 <= i < next && !assigns(e, locals, 0, i as nat) implies #[trigger] r[i]
                == regs[i] by {}
            let env2 = eval(e, args, env, fuel).unwrap().1;
            assert forall|i: int| 0 <= i < locals.len() implies r[#[trigger] locals[i] as int]
                == env2[i] by {
                assert(locals[i] != next);
            }
            (k, r)
        },
        Expr::Let(rhs, body) => {
            let gr = gen(*rhs, locals, next, pc);
            let mv = if gr.reg != next {
                seq![Op::Move(next as usize, gr.reg as usize)]
            } else {
                seq![]
            };
            let pc_b = pc + gr.ops.len() + mv.len();
            let lb = locals.push(next);
            let gb = gen(*body, lb, next + 1, pc_b);
            lemma_code_split(prog, pc, gr.ops + mv, gb.ops);
            lemma_code_split(prog, pc, gr.ops, mv);
            let (kr, r1) = lemma_expr(prog, *rhs, n_args, locals, next, pc, args, env, regs, fuel, true);
            let (v, env1) = eval(*rhs, args, env, fuel).unwrap();
            let s1 = State { ip: pc + gr.ops.len(), regs: r1 };
            lemma_not_local(locals, next, next);
            let (km, r2) = if gr.reg != next {
                lemma_code_one(prog, pc + gr.ops.len(), Op::Move(next as usize, gr.reg as usize));
                lemma_exec_one(prog, s1);
                (1nat, r1.update(next as int, v))
            } else {
                (0nat, r1)
            };
            lemma_exec_n_compose(prog, s, kr, km);
            let env_b = env1.push(v);
            assert(frame(r2, n_args, args, lb, env_b, next + 1)) by {
                assert forall|i: int| 0 <= i < lb.len() implies r2[#[trigger] lb[i] as int] == env_b[i] by {
                    if i < locals.len() {
                        assert(lb[i] == locals[i]);
                    }
                }
            }
            let (kb, r3) = lemma_expr(prog, *body, n_args, lb, next + 1, pc_b, args, env_b, r2, fuel, value);
            let env3 = eval(*body, args, env_b, fuel).unwrap().1;
            assert(frame(r3, n_args, args, locals, env3.drop_last(), next)) by {
                assert forall|i: int| 0 <= i < locals.len() implies r3[#[trigger] locals[i] as int]
                    == env3.drop_last()[i] by {
                    assert(lb[i] == locals[i]);
                }
            }
            assert(keeps(r3, regs, locals, next)) by {
                assert forall|i: int| 0 <= i < next && !locals.contains(i as nat) implies #[trigger] r3[i]
                    == regs[i] by {
                    if lb.contains(i as nat) {
                        let j = choose|j: int| 0 <= j < lb.len() && lb[j] == i as nat;
                        if j < locals.len() {
                            assert(locals[j] == lb[j]);
                        }
                    }
                    assert(r3[i] == r2[i]);
                    assert(r1[i] == regs[i]);
                }
            }
            assert forall|i: int| 0 <= i < next && !assigns(e, locals, 0, i as nat) implies #[trigger] r3[i]
                == regs[i] by {
                lemma_assigns_push(*body, locals, next, 0, i as nat);
                assert(r3[i] == r2[i]);
                assert(r1[i] == regs[i]);
            }
            lemma_exec_n_compose(prog, s, kr + km, kb);
            (kr + km + kb, r3)
        },
        Expr::SetLocal(l, rhs) => lemma_set_local(prog, l, *rhs, n_args, locals, next, pc, args, env, regs, fuel),
        Expr::While(p, b) => {
            let gp = gen(*p, locals, next, pc);
            let gb = gen(*b, locals, next, pc + gp.ops.len() + 1);
            let end = pc + gp.ops.len() + 1 + gb.ops.len() + 1;
            let jz = Op::JmpZN(gp.reg as usize, end as usize);
            let jmp = Op::Jmp(pc as usize);
            lemma_code_split(prog, pc, gp.ops + seq![jz] + gb.ops, seq![jmp]);
            lemma_code_split(prog, pc, gp.ops + seq![jz], gb.ops);
            lemma_code_split(prog, pc, gp.ops, seq![jz]);
            let (kp, r1) = lemma_expr(prog, *p, n_args, locals, next, pc, args, env, regs, fuel, true);
            let (vp, env1) = eval(*p, args, env, fuel).unwrap();
            let s1 = State { ip: pc + gp.ops.len(), regs: r1 };
            lemma_code_one(prog, pc + gp.ops.len(), jz);
            lemma_exec_one(prog, s1);
            lemma_exec_n_compose(prog, s, kp, 1);
            if vp <= 0 {
                assert forall|i: int| 0 <= i < next && !assigns(e, locals, 0, i as nat) implies #[trigger] r1[i]
                    == regs[i] by {}
                (kp + 1, r1)
            } else {
                let (kb, r2) = lemma_expr(
                    prog,
                    *b,
                    n_args,
                    locals,
                    next,
                    pc + gp.ops.len() + 1,
                    args,
                    env1,
                    r1,
                    fuel,
                    false,
                );
                let env2 = eval(*b, args, env1, fuel).unwrap().1;
                let s2 = State { ip: pc + gp.ops.len() + 1 + gb.ops.len(), regs: r2 };
                lemma_code_one(prog, pc + gp.ops.len() + 1 + gb.ops.len(), jmp);
                lemma_exec_one(prog, s2);
                lemma_exec_n_compose(prog, s, kp + 1, kb);
                lemma_exec_n_compose(prog, s, kp + 1 + kb, 1);
                let (kw, r3) = lemma_expr(
                    prog,
                    e,
                    n_args,
                    locals,
                    next,
                    pc,
                    args,
                    env2,
                    r2,
                    (fuel - 1) as nat,
                    value,
                );
                lemma_exec_n_compose(prog, s, kp + 1 + kb + 1, kw);
                assert forall|i: int| 0 <= i < next && !assigns(e, locals, 0, i as nat) implies #[trigger] r3[i]
                    == regs[i] by {
                    assert(r3[i] == r2[i]);
                    assert(r2[i] == r1[i]);
                    assert(r1[i] == regs[i]);
                }
                (kp + 1 + kb + 1 + kw, r3)
            }
        },
        Expr::Then(a, b) => {
            let ga = gen(*a, locals, next, pc);
            let gb = gen(*b, locals, next, pc + ga.ops.len());
            lemma_code_split(prog, pc, ga.ops, gb.ops);
            let (ka, r1) = lemma_expr(prog, *a, n_args, locals, next, pc, args, env, regs, fuel, false);
            let env1 = eval(*a, args, env, fuel).unwrap().1;
            let (kb, r2) = lemma_expr(
                prog,
                *b,
                n_args,
                locals,
                next,
                pc + ga.ops.len(),
                args,
                env1,
                r1,
                fuel,
                value,
            );
            lemma_exec_n_compose(prog, s, ka, kb);
            assert forall|i: int| 0 <= i < next && !assigns(e, locals, 0, i as nat) implies #[trigger] r2[i]
                == regs[i] by {
                assert(r2[i] == r1[i]);
            }
            (ka + kb, r2)
        },
    }
}

/// `SetLocal(l, rhs)` stores the value of `rhs` in the register of local `l`.
#[verifier::rlimit(60)]
proof fn lemma_set_local(
    prog: Seq<Op>,
    l: usize,
    rhs: Expr,
    n_args: nat,
    locals: Seq<nat>,
    next: nat,
    pc: nat,
    args: Seq<i64>,
    env: Seq<i64>,
    regs: Seq<i64>,
    fuel: nat,
) -> (res: (nat, Seq<i64>))
    requires
        well_formed(Expr::SetLocal(l, Box::new(rhs)), env.len(), true),
        spec_argmax(rhs) <= n_args,
        setting(prog, n_args, args, locals, env, next, regs),
        code_at(prog, pc, gen(Expr::SetLocal(l, Box::new(rhs)), locals, next, pc).ops),
        gen(Expr::SetLocal(l, Box::new(rhs)), locals, next, pc).top <= regs.len(),
        eval(Expr::SetLocal(l, Box::new(rhs)), args, env, fuel) is Some,
    ensures
        ({
            let e = Expr::SetLocal(l, Box::new(rhs));
            let g = gen(e, locals, next, pc);
            let (v, env2) = eval(e, args, env, fuel).unwrap();
            &&& exec_n(prog, State { ip: pc, regs }, res.0) == Some(
                State { ip: pc + g.ops.len(), regs: res.1 },
            )
            &&& res.1.len() == regs.len()
            &&& env2.len() == env.len()
            &&& frame(res.1, n_args, args, locals, env2, next)
            &&& keeps(res.1, regs, locals, next)
            &&& g.reg < regs.len()
            &&& res.1[g.reg as int] == v
            &&& forall|i: int|
                0 <= i < next && !assigns(e, locals, 0, i as nat) ==> #[trigger] res.1[i] == regs[i]
        }),
    decreases fuel, size(Expr::SetLocal(l, Box::new(rhs))), 0nat,
{
    let e = Expr::SetLocal(l, Box::new(rhs));
    let s = State { ip: pc, regs };
    let target = local_reg(locals, l as nat);
    let idx = locals.len() - 1 - l;
    assert(locals[idx] == target);
    let (k, r2, v, env1) = match rhs {
        Expr::Litr(x) => {
            lemma_code_one(prog, pc, Op::LoadImm(target as usize, x));
            lemma_exec_one(prog, s);
            (1nat, regs.update(target as int, x), x, env)
        },
        Expr::Add(a, b) => {
            assert(size(rhs) == 1 + size(*a) + size(*b));
            assert(well_formed(rhs, env.len(), true));
            assert(eval(rhs, args, env, fuel) == eval(
                Expr::Add(Box::new(*a), Box::new(*b)),
                args,
                env,
                fuel,
            ));
            let (k, r) = lemma_add(prog, *a, *b, n_args, locals, next, target, pc, args, env, regs, fuel);
            let (v, env1) = eval(rhs, args, env, fuel).unwrap();
            (k, r, v, env1)
        },
        _ => {
            let gr = gen(rhs, locals, next, pc);
            let mv = if gr.reg != target {
                seq![Op::Move(target as usize, gr.reg as usize)]
            } else {
                seq![]
            };
            lemma_code_split(prog, pc, gr.ops, mv);
            let (kr, r1) = lemma_expr(prog, rhs, n_args, locals, next, pc, args, env, regs, fuel, true);
            let (v, env1) = eval(rhs, args, env, fuel).unwrap();
            let s1 = State { ip: pc + gr.ops.len(), regs: r1 };
            if gr.reg != target {
                lemma_code_one(prog, pc + gr.ops.len(), Op::Move(target as usize, gr.reg as usize));
                lemma_exec_one(prog, s1);
                lemma_exec_n_compose(prog, s, kr, 1);
                (kr + 1, r1.update(target as int, v), v, env1)
            } else {
                (kr, r1, v, env1)
            }
        },
    };
    let env2 = env1.update(idx, v);
    assert(eval(e, args, env, fuel) == Some((v, env2)));
    assert forall|i: int| 0 <= i < locals.len() implies r2[#[trigger] locals[i] as int] == env2[i] by {
        if i != idx {
            if i < idx {
                assert(locals[i] < locals[idx]);
            } else {
                assert(locals[idx] < locals[i]);
            }
        }
    }
    assert(keeps(r2, regs, locals, next));
    assert forall|i: int| 0 <= i < next && !assigns(e, locals, 0, i as nat) implies #[trigger] r2[i]
        == regs[i] by {
        assert(i != target);
        assert(!assigns(rhs, locals, 0, i as nat));
        if let Expr::Add(a, b) = rhs {
            assert(!assigns(*a, locals, 0, i as nat) && !assigns(*b, locals, 0, i as nat));
        }
    }
    (k, r2)
}

/// Lowering keeps the meaning of an expression: when a well-formed
/// expression evaluates to `v`, its lowered instructions, run with the
/// arguments preloaded, stop, and stop with `v`.
pub proof fn theorem_lower_correct(e: Expr, args: Seq<i64>, fuel: nat)
    requires
        well_formed(e, 0, true),
        lowerable(e),
        lowered_ops(e).len() <= usize::MAX,
        lowered_num_regs(e) <= usize::MAX,
        args.len() >= spec_argmax(e),
        eval(e, args, Seq::empty(), fuel) is Some,
    ensures
        exists|f: nat|
            #[trigger] run(
                lowered_ops(e),
                initial(lowered_num_regs(e), spec_argmax(e), args),
                f,
            ) is Some,
        forall|f: nat|
            #[trigger] run(lowered_ops(e), initial(lowered_num_regs(e), spec_argmax(e), args), f)
                is Some ==> run(
                lowered_ops(e),
                initial(lowered_num_regs(e), spec_argmax(e), args),
                f,
            ) == Some(eval(e, args, Seq::empty(), fuel).unwrap().0),
{
    let a = spec_argmax(e);
    let l0 = Seq::<nat>::empty();
    let g = gen(e, l0, a, 0);
    let prog = lowered_ops(e);
    let n = lowered_num_regs(e);
    let s0 = initial(n, a, args);
    assert(code_at(prog, 0, g.ops)) by {
        assert forall|i: int| #![trigger g.ops[i]] 0 <= i < g.ops.len() implies prog[0 + i]
            == g.ops[i] by {}
    }
    let env: Seq<i64> = Seq::empty();
    assert(setting(prog, a, args, l0, env, a, s0.regs));
    let (k, r) = lemma_expr(prog, e, a, l0, a, 0, args, env, s0.regs, fuel, true);
    let v = eval(e, args, env, fuel).unwrap().0;
    let s1 = State { ip: g.ops.len(), regs: r };
    assert(prog[g.ops.len() as int] == Op::Ret(g.reg as usize));
    assert(step(prog, s1) == Step::Halt(v));
    lemma_exec_n_run(prog, s0, k, 1);
    assert(run(prog, s1, 1) == Some(v));
    assert(run(prog, s0, k + 1) is Some);
    assert forall|f: nat| #[trigger] run(prog, s0, f) is Some implies run(prog, s0, f) == Some(v) by {
        lemma_run_unique(prog, s0, f, k + 1);
    }
}


// ---------------------------------------------------------------------------
// Programs whose evaluation does not end do not stop
// ---------------------------------------------------------------------------
/// Within `k` instructions from `s`, the machine reaches no `Ret`.
pub open spec fn no_halt(ops: Seq<Op>, s: State, k: nat) -> bool {
    forall|j: nat|
        j <= k ==> (#[trigger] exec_n(ops, s, j) matches Some(t) ==> !(step(ops, t) is Halt))
}

proof fn lemma_exec_n_steps(ops: Seq<Op>, s: State, k: nat, j: nat)
    requires
        exec_n(ops, s, k) is Some,
        j < k,
    ensures
        exec_n(ops, s, j) is Some,
        step(ops, exec_n(ops, s, j).unwrap()) is Next,
    decreases j,
{
    if j > 0 {
        let s2 = step(ops, s)->Next_0;
        lemma_exec_n_steps(ops, s2, (k - 1) as nat, (j - 1) as nat);
    }
}

/// Running without a `Ret` for `k` instructions, then for `f` more.
proof fn lemma_no_halt_seq(ops: Seq<Op>, s: State, k: nat, f: nat)
    requires
        exec_n(ops, s, k) is Some,
        no_halt(ops, exec_n(ops, s, k).unwrap(), f),
    ensures
        no_halt(ops, s, k + f),
{
    assert forall|j: nat| j <= k + f implies (#[trigger] exec_n(ops, s, j) matches Some(t) ==> !(step(
        ops,
        t,
    ) is Halt)) by {
        if j < k {
            lemma_exec_n_steps(ops, s, k, j);
        } else {
            lemma_exec_n_compose(ops, s, k, (j - k) as nat);
            assert(k + (j - k) as nat == j);
        }
    }
}

/// The machine gets stuck after `k` instructions, none of them a `Ret`.
proof fn lemma_no_halt_stuck(ops: Seq<Op>, s: State, k: nat, f: nat)
    requires
        exec_n(ops, s, k) is Some,
        step(ops, exec_n(ops, s, k).unwrap()) is Stuck,
    ensures
        no_halt(ops, s, f),
{
    let t = exec_n(ops, s, k).unwrap();
    assert(no_halt(ops, t, f)) by {
        assert forall|j: nat| j <= f implies (#[trigger] exec_n(ops, t, j) matches Some(u) ==> !(step(
            ops,
            u,
        ) is Halt)) by {
            if j > 0 {
                assert(exec_n(ops, t, j) is None);
            }
        }
    }
    lemma_no_halt_seq(ops, s, k, f);
}

/// `x + y` into `dest`, when its evaluation fails with this fuel: the
/// machine reaches no `Ret` within `fuel` instructions.
#[verifier::rlimit(60)]
proof fn lemma_add_diverge(
    prog: Seq<Op>,
    x: Expr,
    y: Expr,
    n_args: nat,
    locals: Seq<nat>,
    next: nat,
    dest: nat,
    pc: nat,
    args: Seq<i64>,
    env: Seq<i64>,
    regs: Seq<i64>,
    fuel: nat,
)
    requires
        well_formed(x, env.len(), true),
        well_formed(y, env.len(), true),
        spec_argmax(x) <= n_args,
        spec_argmax(y) <= n_args,
        setting(prog, n_args, args, locals, env, next, regs),
        n_args <= dest <= next,
        code_at(prog, pc, gen_add(x, y, locals, next, dest, pc).ops),
        gen_add(x, y, locals, next, dest, pc).top <= regs.len(),
        eval(Expr::Add(Box::new(x), Box::new(y)), args, env, fuel) is None,
    ensures
        no_halt(prog, State { ip: pc, regs }, fuel),
    decreases fuel, size(x) + size(y) + 1, 0nat,
{
    let s = State { ip: pc, regs };
    let gx = gen(x, locals, next, pc);
    if eval(x, args, env, fuel) is None {
        if let Expr::Litr(imm) = y {
            lemma_code_split(prog, pc, gx.ops, seq![Op::AddImm(dest as usize, gx.reg as usize, imm)]);
        } else {
            let gy0 = gen_add(x, y, locals, next, dest, pc);
            let rest = gy0.ops.subrange(gx.ops.len() as int, gy0.ops.len() as int);
            assert(gy0.ops =~= gx.ops + rest);
            lemma_code_split(prog, pc, gx.ops, rest);
        }
        lemma_expr_diverge(prog, x, n_args, locals, next, pc, args, env, regs, fuel);
        return;
    }
    if let Expr::Litr(imm) = y {
        let op = Op::AddImm(dest as usize, gx.reg as usize, imm);
        lemma_code_split(prog, pc, gx.ops, seq![op]);
        let (kx, r1) = lemma_expr(prog, x, n_args, locals, next, pc, args, env, regs, fuel, true);
        let (vx, env1) = eval(x, args, env, fuel).unwrap();
        assert(eval(y, args, env1, fuel) == Some((imm, env1)));
        assert(!add_fits(vx, imm));
        lemma_code_one(prog, pc + gx.ops.len(), op);
        assert(step(prog, State { ip: pc + gx.ops.len(), regs: r1 }) is Stuck);
        lemma_no_halt_stuck(prog, s, kx, fuel);
    } else {
        let copy = gx.reg < next && assigns(y, locals, 0, gx.reg);
        let mv = if copy {
            seq![Op::Move(next as usize, gx.reg as usize)]
        } else {
            seq![]
        };
        let xr = if copy {
            next
        } else {
            gx.reg
        };
        let y_next = if xr >= next {
            xr + 1
        } else {
            next
        };
        let pc_y = pc + gx.ops.len() + mv.len();
        let gy = gen(y, locals, y_next, pc_y);
        let op = Op::Add(dest as usize, xr as usize, gy.reg as usize);
        lemma_code_split(prog, pc, gx.ops + mv + gy.ops, seq![op]);
        lemma_code_split(prog, pc, gx.ops + mv, gy.ops);
        lemma_code_split(prog, pc, gx.ops, mv);
        let (kx, r1) = lemma_expr(prog, x, n_args, locals, next, pc, args, env, regs, fuel, true);
        let (vx, env1) = eval(x, args, env, fuel).unwrap();
        let s1 = State { ip: pc + gx.ops.len(), regs: r1 };
        lemma_not_local(locals, next, next);
        let (km, r1m) = if copy {
            lemma_code_one(prog, pc + gx.ops.len(), Op::Move(next as usize, gx.reg as usize));
            lemma_exec_one(prog, s1);
            (1nat, r1.update(next as int, vx))
        } else {
            (0nat, r1)
        };
        lemma_exec_n_compose(prog, s, kx, km);
        assert(frame(r1m, n_args, args, locals, env1, y_next));
        let sy = State { ip: pc_y, regs: r1m };
        if eval(y, args, env1, fuel) is None {
            lemma_expr_diverge(prog, y, n_args, locals, y_next, pc_y, args, env1, r1m, fuel);
            lemma_no_halt_seq(prog, s, kx + km, fuel);
        } else {
            let (ky, r2) = lemma_expr(prog, y, n_args, locals, y_next, pc_y, args, env1, r1m, fuel, true);
            lemma_code_one(prog, pc_y + gy.ops.len(), op);
            lemma_exec_n_compose(prog, s, kx + km, ky);
            if xr >= next {
                lemma_not_local(locals, xr, next);
            }
            assert(r2[xr as int] == vx);
            lemma_no_halt_stuck(prog, s, kx + km + ky, fuel);
        }
    }
}

/// When the evaluation of a well-formed expression fails with this fuel
/// (an addition overflows or a loop runs out of fuel), its code reaches no
/// `Ret` within `fuel` instructions: every loop round takes at least one.
#[verifier::rlimit(80)]
proof fn lemma_expr_diverge(
    prog: Seq<Op>,
    e: Expr,
    n_args: nat,
    locals: Seq<nat>,
    next: nat,
    pc: nat,
    args: Seq<i64>,
    env: Seq<i64>,
    regs: Seq<i64>,
    fuel: nat,
)
    requires
        well_formed(e, env.len(), false) || well_formed(e, env.len(), true),
        spec_argmax(e) <= n_args,
        setting(prog, n_args, args, locals, env, next, regs),
        code_at(prog, pc, gen(e, locals, next, pc).ops),
        gen(e, locals, next, pc).top <= regs.len(),
        eval(e, args, env, fuel) is None,
    ensures
        no_halt(prog, State { ip: pc, regs }, fuel),
    decreases fuel, size(e), 1nat,
{
    let value = well_formed(e, env.len(), true);
    let s = State { ip: pc, regs };
    match e {
        Expr::Litr(_) => {},
        Expr::Arg(_) => {},
        Expr::Get(_) => {},
        Expr::Add(x, y) => {
            assert(gen(e, locals, next, pc) == gen_add(*x, *y, locals, next, next, pc));
            lemma_add_diverge(prog, *x, *y, n_args, locals, next, next, pc, args, env, regs, fuel);
        },
        Expr::Let(rhs, body) => {
            let gr = gen(*rhs, locals, next, pc);
            let mv = if gr.reg != next {
                seq![Op::Move(next as usize, gr.reg as usize)]
            } else {
                seq![]
            };
            let pc_b = pc + gr.ops.len() + mv.len();
            let lb = locals.push(next);
            let gb = gen(*body, lb, next + 1, pc_b);
            lemma_code_split(prog, pc, gr.ops + mv, gb.ops);
            lemma_code_split(prog, pc, gr.ops, mv);
            if eval(*rhs, args, env, fuel) is None {
                lemma_expr_diverge(prog, *rhs, n_args, locals, next, pc, args, env, regs, fuel);
            } else {
                let (kr, r1) = lemma_expr(prog, *rhs, n_args, locals, next, pc, args, env, regs, fuel, true);
                let (v, env1) = eval(*rhs, args, env, fuel).unwrap();
                let s1 = State { ip: pc + gr.ops.len(), regs: r1 };
                lemma_not_local(locals, next, next);
                let (km, r2) = if gr.reg != next {
                    lemma_code_one(prog, pc + gr.ops.len(), Op::Move(next as usize, gr.reg as usize));
                    lemma_exec_one(prog, s1);
                    (1nat, r1.update(next as int, v))
                } else {
                    (0nat, r1)
                };
                lemma_exec_n_compose(prog, s, kr, km);
                let env_b = env1.push(v);
                assert(frame(r2, n_args, args, lb, env_b, next + 1)) by {
                    assert forall|i: int| 0 <= i < lb.len() implies r2[#[trigger] lb[i] as int]
                        == env_b[i] by {
                        if i < locals.len() {
                            assert(lb[i] == locals[i]);
                        }
                    }
                }
                lemma_expr_diverge(prog, *body, n_args, lb, next + 1, pc_b, args, env_b, r2, fuel);
                lemma_no_halt_seq(prog, s, kr + km, fuel);
            }
        },
        Expr::SetLocal(l, rhs) => {
            let target = local_reg(locals, l as nat);
            match *rhs {
                Expr::Litr(_) => {},
                Expr::Add(a, b) => {
                    assert(size(*rhs) == 1 + size(*a) + size(*b));
                    assert(well_formed(*rhs, env.len(), true));
                    assert(eval(*rhs, args, env, fuel) == eval(
                        Expr::Add(Box::new(*a), Box::new(*b)),
                        args,
                        env,
                        fuel,
                    ));
                    assert(locals[locals.len() - 1 - l] == target);
                    assert(spec_argmax(*rhs) == max(spec_argmax(*a), spec_argmax(*b)));
                    if eval(*rhs, args, env, fuel) is Some {
                        lemma_add(prog, *a, *b, n_args, locals, next, target, pc, args, env, regs, fuel);
                        assert(false);
                    }
                    lemma_add_diverge(prog, *a, *b, n_args, locals, next, target, pc, args, env, regs, fuel);
                },
                _ => {
                    let gr = gen(*rhs, locals, next, pc);
                    let mv = if gr.reg != target {
                        seq![Op::Move(target as usize, gr.reg as usize)]
                    } else {
                        seq![]
                    };
                    lemma_code_split(prog, pc, gr.ops, mv);
                    if eval(*rhs, args, env, fuel) is Some {
                        lemma_expr(prog, *rhs, n_args, locals, next, pc, args, env, regs, fuel, true);
                        assert(false);
                    }
                    lemma_expr_diverge(prog, *rhs, n_args, locals, next, pc, args, env, regs, fuel);
                },
            }
        },
        Expr::While(p, b) => {
            let gp = gen(*p, locals, next, pc);
            let gb = gen(*b, locals, next, pc + gp.ops.len() + 1);
            let end = pc + gp.ops.len() + 1 + gb.ops.len() + 1;
            let jz = Op::JmpZN(gp.reg as usize, end as usize);
            let jmp = Op::Jmp(pc as usize);
            lemma_code_split(prog, pc, gp.ops + seq![jz] + gb.ops, seq![jmp]);
            lemma_code_split(prog, pc, gp.ops + seq![jz], gb.ops);
            lemma_code_split(prog, pc, gp.ops, seq![jz]);
            if eval(*p, args, env, fuel) is None {
                lemma_expr_diverge(prog, *p, n_args, locals, next, pc, args, env, regs, fuel);
            } else {
                let (kp, r1) = lemma_expr(prog, *p, n_args, locals, next, pc, args, env, regs, fuel, true);
                let (vp, env1) = eval(*p, args, env, fuel).unwrap();
                let s1 = State { ip: pc + gp.ops.len(), regs: r1 };
                lemma_code_one(prog, pc + gp.ops.len(), jz);
                lemma_exec_one(prog, s1);
                lemma_exec_n_compose(prog, s, kp, 1);
                let sb = State { ip: pc + gp.ops.len() + 1, regs: r1 };
                if eval(*b, args, env1, fuel) is None {
                    lemma_expr_diverge(prog, *b, n_args, locals, next, pc + gp.ops.len() + 1, args, env1, r1, fuel);
                    lemma_no_halt_seq(prog, s, kp + 1, fuel);
                } else {
                    let (kb, r2) = lemma_expr(
                        prog,
                        *b,
                        n_args,
                        locals,
                        next,
                        pc + gp.ops.len() + 1,
                        args,
                        env1,
                        r1,
                        fuel,
                        false,
                    );
                    let env2 = eval(*b, args, env1, fuel).unwrap().1;
                    let s2 = State { ip: pc + gp.ops.len() + 1 + gb.ops.len(), regs: r2 };
                    lemma_code_one(prog, pc + gp.ops.len() + 1 + gb.ops.len(), jmp);
                    lemma_exec_one(prog, s2);
                    lemma_exec_n_compose(prog, s, kp + 1, kb);
                    lemma_exec_n_compose(prog, s, kp + 1 + kb, 1);
                    let k = kp + 1 + kb + 1;
                    if fuel == 0 {
                        assert(no_halt(prog, s, 0)) by {
                            assert forall|j: nat| j <= 0 implies (#[trigger] exec_n(prog, s, j) matches Some(
                                t,
                            ) ==> !(step(prog, t) is Halt)) by {
                                lemma_exec_n_steps(prog, s, k, 0);
                            }
                        }
                    } else {
                        lemma_expr_diverge(prog, e, n_args, locals, next, pc, args, env2, r2, (fuel - 1) as nat);
                        lemma_no_halt_seq(prog, s, k, (fuel - 1) as nat);
                    }
                }
            }
        },
        Expr::Then(a, b) => {
            let ga = gen(*a, locals, next, pc);
            let gb = gen(*b, locals, next, pc + ga.ops.len());
            lemma_code_split(prog, pc, ga.ops, gb.ops);
            if eval(*a, args, env, fuel) is None {
                lemma_expr_diverge(prog, *a, n_args, locals, next, pc, args, env, regs, fuel);
            } else {
                let (ka, r1) = lemma_expr(prog, *a, n_args, locals, next, pc, args, env, regs, fuel, false);
                let env1 = eval(*a, args, env, fuel).unwrap().1;
                lemma_expr_diverge(prog, *b, n_args, locals, next, pc + ga.ops.len(), args, env1, r1, fuel);
                lemma_no_halt_seq(prog, s, ka, fuel);
            }
        },
    }
}

proof fn lemma_run_halts_at(ops: Seq<Op>, s: State, f: nat) -> (j: nat)
    requires
        run(ops, s, f) is Some,
    ensures
        j < f,
        exec_n(ops, s, j) is Some,
        step(ops, exec_n(ops, s, j).unwrap()) is Halt,
    decreases f,
{
    match step(ops, s) {
        Step::Next(s2) => {
            let j2 = lemma_run_halts_at(ops, s2, (f - 1) as nat);
            j2 + 1
        },
        _ => 0,
    }
}

/// Lowering keeps termination: the lowered instructions of a well-formed
/// expression, run with the arguments preloaded, stop exactly when the
/// evaluation of the expression ends, and then with its value.
pub proof fn theorem_lower_halts_iff(e: Expr, args: Seq<i64>)
    requires
        well_formed(e, 0, true),
        lowerable(e),
        lowered_ops(e).len() <= usize::MAX,
        lowered_num_regs(e) <= usize::MAX,
        args.len() >= spec_argmax(e),
    ensures
        (exists|f: nat|
            #[trigger] run(lowered_ops(e), initial(lowered_num_regs(e), spec_argmax(e), args), f)
                is Some) <==> (exists|fuel: nat| #[trigger] eval(e, args, Seq::empty(), fuel) is Some),
        forall|f: nat, fuel: nat|
            #[trigger] run(lowered_ops(e), initial(lowered_num_regs(e), spec_argmax(e), args), f)
                is Some && #[trigger] eval(e, args, Seq::empty(), fuel) is Some ==> run(
                lowered_ops(e),
                initial(lowered_num_regs(e), spec_argmax(e), args),
                f,
            ) == Some(eval(e, args, Seq::empty(), fuel).unwrap().0),
{
    let a = spec_argmax(e);
    let prog = lowered_ops(e);
    let s0 = initial(lowered_num_regs(e), a, args);
    assert forall|f: nat, fuel: nat|
        #[trigger] run(prog, s0, f) is Some && #[trigger] eval(e, args, Seq::empty(), fuel)
            is Some implies run(prog, s0, f) == Some(eval(e, args, Seq::empty(), fuel).unwrap().0) by {
        theorem_lower_correct(e, args, fuel);
    }
    if exists|fuel: nat| #[trigger] eval(e, args, Seq::empty(), fuel) is Some {
        let fuel = choose|fuel: nat| #[trigger] eval(e, args, Seq::empty(), fuel) is Some;
        theorem_lower_correct(e, args, fuel);
    }
    if exists|f: nat| #[trigger] run(prog, s0, f) is Some {
        let f = choose|f: nat| #[trigger] run(prog, s0, f) is Some;
        if eval(e, args, Seq::empty(), f) is None {
            let l0 = Seq::<nat>::empty();
            let g = gen(e, l0, a, 0);
            assert(code_at(prog, 0, g.ops)) by {
                assert forall|i: int| #![trigger g.ops[i]] 0 <= i < g.ops.len() implies prog[0 + i]
                    == g.ops[i] by {}
            }
            let env: Seq<i64> = Seq::empty();
            assert(setting(prog, a, args, l0, env, a, s0.regs));
            lemma_expr_diverge(prog, e, a, l0, a, 0, args, env, s0.regs, f);
            let j = lemma_run_halts_at(prog, s0, f);
            assert(exec_n(prog, s0, j) matches Some(t) ==> !(step(prog, t) is Halt));
        }
        assert(eval(e, args, Seq::empty(), f) is Some);
    }
}


// ---------------------------------------------------------------------------
// Lowered code stays inside its register file and its instruction list
// ---------------------------------------------------------------------------
/// Every register that `op` names is below `n`, and its jump goes to an
/// instruction below `len`.
pub open spec fn op_in_bounds(op: Op, n: nat, len: nat) -> bool {
    match op {
        Op::LoadImm(d, _) => d < n,
        Op::Move(d, s) => d < n && s < n,
        Op::Add(d, a, b) => d < n && a < n && b < n,
        Op::AddImm(d, a, _) => d < n && a < n,
        Op::JmpZN(r, t) => r < n && t < len,
        Op::Jmp(t) => t < len,
        Op::Ret(r) => r < n,
    }
}

/// Every instruction of `seg` stays inside `n` registers and `len` instructions.
pub open spec fn seg_in_bounds(seg: Seq<Op>, n: nat, len: nat) -> bool {
    forall|i: int| 0 <= i < seg.len() ==> op_in_bounds(#[trigger] seg[i], n, len)
}

proof fn lemma_seg_concat(a: Seq<Op>, b: Seq<Op>, n: nat, len: nat)
    requires
        seg_in_bounds(a, n, len),
        seg_in_bounds(b, n, len),
    ensures
        seg_in_bounds(a + b, n, len),
{
    assert forall|i: int| 0 <= i < (a + b).len() implies op_in_bounds(#[trigger] (a + b)[i], n, len) by {
        if i < a.len() {
            assert((a + b)[i] == a[i]);
        } else {
            assert((a + b)[i] == b[i - a.len()]);
        }
    }
}

/// `x + y` into `dest` stays inside the register file and the code.
proof fn lemma_add_in_bounds(
    x: Expr,
    y: Expr,
    n_args: nat,
    locals: Seq<nat>,
    next: nat,
    dest: nat,
    pc: nat,
    n: nat,
    len: nat,
)
    requires
        well_formed(x, locals.len(), true),
        well_formed(y, locals.len(), true),
        spec_argmax(x) <= n_args,
        spec_argmax(y) <= n_args,
        n_args <= next,
        forall|i: int| 0 <= i < locals.len() ==> #[trigger] locals[i] < next,
        next <= n,
        dest < n,
        gen_add(x, y, locals, next, dest, pc).top <= n,
        pc + gen_add(x, y, locals, next, dest, pc).ops.len() < len,
    ensures
        seg_in_bounds(gen_add(x, y, locals, next, dest, pc).ops, n, len),
    decreases size(x) + size(y) + 1, 0nat,
{
    let gx = gen(x, locals, next, pc);
    lemma_in_bounds(x, n_args, locals, next, pc, n, len, true);
    if let Expr::Litr(imm) = y {
        lemma_seg_concat(gx.ops, seq![Op::AddImm(dest as usize, gx.reg as usize, imm)], n, len);
    } else {
        let copy = gx.reg < next && assigns(y, locals, 0, gx.reg);
        let mv = if copy {
            seq![Op::Move(next as usize, gx.reg as usize)]
        } else {
            seq![]
        };
        let xr = if copy {
            next
        } else {
            gx.reg
        };
        let y_next = if xr >= next {
            xr + 1
        } else {
            next
        };
        let gy = gen(y, locals, y_next, pc + gx.ops.len() + mv.len());
        lemma_in_bounds(y, n_args, locals, y_next, pc + gx.ops.len() + mv.len(), n, len, true);
        let op = Op::Add(dest as usize, xr as usize, gy.reg as usize);
        lemma_seg_concat(gx.ops, mv, n, len);
        lemma_seg_concat(gx.ops + mv, gy.ops, n, len);
        lemma_seg_concat(gx.ops + mv + gy.ops, seq![op], n, len);
    }
}

/// The code of a well-formed expression names only registers below the
/// register file size `n` and jumps only inside the code; when its value is
/// used, its result register is below `n` too.
proof fn lemma_in_bounds(
    e: Expr,
    n_args: nat,
    locals: Seq<nat>,
    next: nat,
    pc: nat,
    n: nat,
    len: nat,
    value: bool,
)
    requires
        well_formed(e, locals.len(), value),
        spec_argmax(e) <= n_args,
        n_args <= next,
        forall|i: int| 0 <= i < locals.len() ==> #[trigger] locals[i] < next,
        next <= n,
        gen(e, locals, next, pc).top <= n,
        pc + gen(e, locals, next, pc).ops.len() < len,
    ensures
        seg_in_bounds(gen(e, locals, next, pc).ops, n, len),
        value ==> gen(e, locals, next, pc).reg < n,
    decreases size(e), 1nat,
{
    match e {
        Expr::Litr(_) => {},
        Expr::Arg(_) => {},
        Expr::Get(l) => {
            assert(locals[locals.len() - 1 - l] < next);
        },
        Expr::Add(x, y) => {
            assert(gen(e, locals, next, pc) == gen_add(*x, *y, locals, next, next, pc));
            lemma_add_in_bounds(*x, *y, n_args, locals, next, next, pc, n, len);
        },
        Expr::Let(rhs, body) => {
            let gr = gen(*rhs, locals, next, pc);
            let mv = if gr.reg != next {
                seq![Op::Move(next as usize, gr.reg as usize)]
            } else {
                seq![]
            };
            let lb = locals.push(next);
            let pc_b = pc + gr.ops.len() + mv.len();
            lemma_in_bounds(*rhs, n_args, locals, next, pc, n, len, true);
            assert forall|i: int| 0 <= i < lb.len() implies #[trigger] lb[i] < next + 1 by {
                if i < locals.len() {
                    assert(lb[i] == locals[i]);
                }
            }
            lemma_in_bounds(*body, n_args, lb, next + 1, pc_b, n, len, value);
            lemma_seg_concat(gr.ops, mv, n, len);
            lemma_seg_concat(gr.ops + mv, gen(*body, lb, next + 1, pc_b).ops, n, len);
        },
        Expr::SetLocal(l, rhs) => {
            let target = local_reg(locals, l as nat);
            assert(target < next);
            match *rhs {
                Expr::Litr(_) => {},
                Expr::Add(a, b) => {
                    assert(size(*rhs) == 1 + size(*a) + size(*b));
                    assert(well_formed(*rhs, locals.len(), true));
                    assert(spec_argmax(*rhs) == max(spec_argmax(*a), spec_argmax(*b)));
                    lemma_add_in_bounds(*a, *b, n_args, locals, next, target, pc, n, len);
                },
                _ => {
                    let gr = gen(*rhs, locals, next, pc);
                    let mv = if gr.reg != target {
                        seq![Op::Move(target as usize, gr.reg as usize)]
                    } else {
                        seq![]
                    };
                    lemma_in_bounds(*rhs, n_args, locals, next, pc, n, len, true);
                    lemma_seg_concat(gr.ops, mv, n, len);
                },
            }
        },
        Expr::While(p, b) => {
            let gp = gen(*p, locals, next, pc);
            let gb = gen(*b, locals, next, pc + gp.ops.len() + 1);
            let end = pc + gp.ops.len() + 1 + gb.ops.len() + 1;
            let jz = Op::JmpZN(gp.reg as usize, end as usize);
            let jmp = Op::Jmp(pc as usize);
            lemma_in_bounds(*p, n_args, locals, next, pc, n, len, true);
            lemma_in_bounds(*b, n_args, locals, next, pc + gp.ops.len() + 1, n, len, false);
            lemma_seg_concat(gp.ops, seq![jz], n, len);
            lemma_seg_concat(gp.ops + seq![jz], gb.ops, n, len);
            lemma_seg_concat(gp.ops + seq![jz] + gb.ops, seq![jmp], n, len);
        },
        Expr::Then(a, b) => {
            let ga = gen(*a, locals, next, pc);
            lemma_in_bounds(*a, n_args, locals, next, pc, n, len, false);
            lemma_in_bounds(*b, n_args, locals, next, pc + ga.ops.len(), n, len, value);
            lemma_seg_concat(ga.ops, gen(*b, locals, next, pc + ga.ops.len()).ops, n, len);
        },
    }
}

/// Lowered code stays inside its register file and its instruction list:
/// every register that an instruction of a well-formed expression's lowered
/// code names is below `lowered_num_regs`, every jump goes to one of its
/// instructions, and the last instruction is the `Ret`.
pub proof fn theorem_lowered_in_bounds(e: Expr)
    requires
        well_formed(e, 0, true),
    ensures
        seg_in_bounds(lowered_ops(e), lowered_num_regs(e), lowered_ops(e).len()),
        lowered_ops(e).last() is Ret,
{
    let a = spec_argmax(e);
    let l0 = Seq::<nat>::empty();
    let g = gen(e, l0, a, 0);
    let n = lowered_num_regs(e);
    let len = lowered_ops(e).len();
    lemma_in_bounds(e, a, l0, a, 0, n, len, true);
    lemma_seg_concat(g.ops, seq![Op::Ret(g.reg as usize)], n, len);
}

} // verus!
