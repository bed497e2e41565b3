use crate::expr::{
    add_fits, argmax, assigns, check_scoped, max, may_assign, node_count, regs_of, scoped, size,
    spec_argmax, try_argmax, Expr,
};
use vstd::prelude::*;

verus! {

/// The register-allocated instruction form that the threaded interpreter
/// (`bytecode_register_become`) and the template JIT (`template_jit`) both
/// start from. Arguments are preloaded into registers `0..n_args`, locals
/// live in fixed registers by nesting depth above them, temporaries are
/// allocated upwards from there, and additions of a literal become `AddImm`.
#[derive(Debug, Clone, Copy, PartialEq, Eq, Structural)]
pub enum Op {
    /// `LoadImm(dest, x)`: `dest = x`.
    LoadImm(usize, i64),
    /// `Move(dest, src)`: `dest = src`.
    Move(usize, usize),
    /// `Add(dest, a, b)`: `dest = a + b`.
    Add(usize, usize, usize),
    /// `AddImm(dest, a, x)`: `dest = a + x`.
    AddImm(usize, usize, i64),
    /// `JmpZN(reg, target)`: jump to instruction `target` when `reg <= 0`.
    JmpZN(usize, usize),
    /// `Jmp(target)`: jump to instruction `target`.
    Jmp(usize),
    /// `Ret(reg)`: stop with the value of `reg`.
    Ret(usize),
}

// ---------------------------------------------------------------------------
// Semantics
// ---------------------------------------------------------------------------
pub struct State {
    pub ip: nat,
    pub regs: Seq<i64>,
}

pub enum Step {
    Next(State),
    Halt(i64),
    Stuck,
}

/// Executes instruction `s.ip`; stuck on a register outside the file, an
/// overflowing addition or an instruction pointer past the end.
pub open spec fn step(ops: Seq<Op>, s: State) -> Step {
    let n = s.regs.len();
    if s.ip >= ops.len() {
        Step::Stuck
    } else {
        match ops[s.ip as int] {
            Op::LoadImm(d, x) => if d < n {
                Step::Next(State { ip: s.ip + 1, regs: s.regs.update(d as int, x) })
            } else {
                Step::Stuck
            },
            Op::Move(d, src) => if d < n && src < n {
                Step::Next(State { ip: s.ip + 1, regs: s.regs.update(d as int, s.regs[src as int]) })
            } else {
                Step::Stuck
            },
            Op::Add(d, a, b) => if d < n && a < n && b < n && add_fits(
                s.regs[a as int],
                s.regs[b as int],
            ) {
                Step::Next(
                    State {
                        ip: s.ip + 1,
                        regs: s.regs.update(d as int, (s.regs[a as int] + s.regs[b as int]) as i64),
                    },
                )
            } else {
                Step::Stuck
            },
            Op::AddImm(d, a, x) => if d < n && a < n && add_fits(s.regs[a as int], x) {
                Step::Next(
                    State {
                        ip: s.ip + 1,
                        regs: s.regs.update(d as int, (s.regs[a as int] + x) as i64),
                    },
                )
            } else {
                Step::Stuck
            },
            Op::JmpZN(r, t) => if r < n {
                if s.regs[r as int] <= 0 {
                    Step::Next(State { ip: t as nat, regs: s.regs })
                } else {
                    Step::Next(State { ip: s.ip + 1, regs: s.regs })
                }
            } else {
                Step::Stuck
            },
            Op::Jmp(t) => Step::Next(State { ip: t as nat, regs: s.regs }),
            Op::Ret(r) => if r < n {
                Step::Halt(s.regs[r as int])
            } else {
                Step::Stuck
            },
        }
    }
}

/// Runs at most `fuel` instructions from `s`; `Some(v)` when a `Ret` is reached.
pub open spec fn run(ops: Seq<Op>, s: State, fuel: nat) -> Option<i64>
    decreases fuel,
{
    if fuel == 0 {
        None
    } else {
        match step(ops, s) {
            Step::Next(s2) => run(ops, s2, (fuel - 1) as nat),
            Step::Halt(v) => Some(v),
            Step::Stuck => None,
        }
    }
}

/// The registers an execution starts with: the first `n_args` arguments,
/// then zeros.
pub open spec fn initial_regs(num_regs: nat, n_args: nat, args: Seq<i64>) -> Seq<i64> {
    Seq::new(num_regs, |i: int| if i < n_args { args[i] } else { 0i64 })
}

/// A register file of `num_regs` registers holding the first `n_args`
/// arguments, then zeros.
pub fn load_registers(num_regs: usize, n_args: usize, args: &[i64]) -> (regs: Vec<i64>)
    requires
        n_args <= num_regs,
        n_args <= args@.len(),
    ensures
        regs@ == initial_regs(num_regs as nat, n_args as nat, args@),
{
    let mut regs: Vec<i64> = Vec::new();
    let mut i: usize = 0;
    while i < num_regs
        invariant
            i <= num_regs,
            n_args <= num_regs,
            n_args <= args@.len(),
            regs@ == initial_regs(i as nat, n_args as nat, args@),
        decreases num_regs - i,
    {
        if i < n_args {
            regs.push(args[i]);
        } else {
            regs.push(0);
        }
        i = i + 1;
        assert(regs@ =~= initial_regs(i as nat, n_args as nat, args@));
    }
    regs
}

pub open spec fn initial(num_regs: nat, n_args: nat, args: Seq<i64>) -> State {
    State { ip: 0, regs: initial_regs(num_regs, n_args, args) }
}

/// Running longer does not change a result: the machine is deterministic.
pub proof fn lemma_run_unique(ops: Seq<Op>, s: State, f1: nat, f2: nat)
    requires
        run(ops, s, f1) is Some,
        run(ops, s, f2) is Some,
    ensures
        run(ops, s, f1) == run(ops, s, f2),
    decreases f1,
{
    if f1 > 0 && f2 > 0 {
        if let Step::Next(s2) = step(ops, s) {
            lemma_run_unique(ops, s2, (f1 - 1) as nat, (f2 - 1) as nat);
        }
    }
}

// ---------------------------------------------------------------------------
// Lowering
// ---------------------------------------------------------------------------
/// What lowering one expression produces: its instructions, the register
/// that holds its value (a temporary when at or above the first free
/// temporary), and one more than the highest register it writes.
pub struct Gen {
    pub ops: Seq<Op>,
    pub reg: nat,
    pub top: nat,
}

/// `x + y` into register `dest`, with `x` compiled first from temporary
/// `next`. When `y` can set the local that holds `x`, `x` is copied into a
/// temporary first.
pub open spec fn gen_add(x: Expr, y: Expr, locals: Seq<nat>, next: nat, dest: nat, pc: nat) -> Gen
    decreases size(x) + size(y) + 1, 0nat,
{
    match y {
        Expr::Litr(imm) => {
            let gx = gen(x, locals, next, pc);
            Gen {
                ops: gx.ops + seq![Op::AddImm(dest as usize, gx.reg as usize, imm)],
                reg: dest,
                top: max(gx.top, dest + 1),
            }
        },
        _ => {
            let gx = gen(x, locals, next, pc);
            let copy = gx.reg < next && assigns(y, locals, 0, gx.reg);
            let mv = if copy {
                seq![Op::Move(next as usize, gx.reg as usize)]
            } else {
                seq![]
            };
            let xr = if copy {
                next
            } else {
                gx.reg
            };
            let y_next = if xr >= next {
                xr + 1
            } else {
                next
            };
            let gy = gen(y, locals, y_next, pc + gx.ops.len() + mv.len());
            Gen {
                ops: gx.ops + mv + gy.ops + seq![Op::Add(dest as usize, xr as usize, gy.reg as usize)],
                reg: dest,
                top: max(
                    max(gx.top, gy.top),
                    max(
                        dest + 1,
                        if copy {
                            next + 1
                        } else {
                            0
                        },
                    ),
                ),
            }
        },
    }
}

/// The register of local `l` when the locals live in registers `locals`
/// (innermost last).
pub open spec fn local_reg(locals: Seq<nat>, l: nat) -> nat {
    locals[locals.len() - 1 - l]
}

/// The lowering of `e` when the arguments live in the registers below the
/// first local, the locals in registers `locals` (innermost last), the
/// first free temporary is `next` and the code starts at index `pc`. A `Let`
/// keeps its local in the first free temporary, so that nothing that is
/// still live is overwritten.
pub open spec fn gen(e: Expr, locals: Seq<nat>, next: nat, pc: nat) -> Gen
    decreases size(e), 1nat,
{
    match e {
        Expr::Litr(x) => Gen { ops: seq![Op::LoadImm(next as usize, x)], reg: next, top: next + 1 },
        Expr::Arg(i) => Gen { ops: seq![], reg: i as nat, top: 0 },
        Expr::Get(l) => Gen { ops: seq![], reg: local_reg(locals, l as nat), top: 0 },
        Expr::Add(x, y) => gen_add(*x, *y, locals, next, next, pc),
        Expr::Let(rhs, body) => {
            let gr = gen(*rhs, locals, next, pc);
            let mv = if gr.reg != next {
                seq![Op::Move(next as usize, gr.reg as usize)]
            } else {
                seq![]
            };
            let gb = gen(*body, locals.push(next), next + 1, pc + gr.ops.len() + mv.len());
            Gen { ops: gr.ops + mv + gb.ops, reg: gb.reg, top: max(max(gr.top, next + 1), gb.top) }
        },
        Expr::SetLocal(l, rhs) => {
            let target = local_reg(locals, l as nat);
            match *rhs {
                Expr::Litr(x) => Gen {
                    ops: seq![Op::LoadImm(target as usize, x)],
                    reg: target,
                    top: target + 1,
                },
                Expr::Add(x, y) => {
                    proof {
                        assert(size(*rhs) == 1 + size(*x) + size(*y));
                    }
                    let ga = gen_add(*x, *y, locals, next, target, pc);
                    Gen { ops: ga.ops, reg: target, top: ga.top }
                },
                _ => {
                    let gr = gen(*rhs, locals, next, pc);
                    let mv = if gr.reg != target {
                        seq![Op::Move(target as usize, gr.reg as usize)]
                    } else {
                        seq![]
                    };
                    Gen { ops: gr.ops + mv, reg: target, top: gr.top }
                },
            }
        },
        Expr::While(p, b) => {
            let gp = gen(*p, locals, next, pc);
            let gb = gen(*b, locals, next, pc + gp.ops.len() + 1);
            let end = pc + gp.ops.len() + 1 + gb.ops.len() + 1;
            Gen {
                ops: gp.ops + seq![Op::JmpZN(gp.reg as usize, end as usize)] + gb.ops + seq![
                    Op::Jmp(pc as usize),
                ],
                reg: next,
                top: max(gp.top, gb.top),
            }
        },
        Expr::Then(a, b) => {
            let ga = gen(*a, locals, next, pc);
            let gb = gen(*b, locals, next, pc + ga.ops.len());
            Gen { ops: ga.ops + gb.ops, reg: gb.reg, top: max(ga.top, gb.top) }
        },
    }
}

/// The instructions `lower` gives for `e`: its code, then a `Ret`.
pub open spec fn lowered_ops(e: Expr) -> Seq<Op> {
    let a = spec_argmax(e);
    let g = gen(e, Seq::empty(), a, 0);
    g.ops.push(Op::Ret(g.reg as usize))
}

/// The register file size `lower` gives for `e`.
pub open spec fn lowered_num_regs(e: Expr) -> nat {
    let a = spec_argmax(e);
    max(max(gen(e, Seq::empty(), a, 0).top, a), 1)
}

/// What `lower` needs of an expression: every local it names is bound by
/// an enclosing `Let`, and the register numbers it can reach fit in a
/// `usize`.
pub open spec fn lowerable(e: Expr) -> bool {
    &&& spec_argmax(e) + size(e) < usize::MAX
    &&& scoped(e, 0)
}

/// The lowered program of an expression.
pub struct Lowered {
    pub ops: Vec<Op>,
    pub num_regs: usize,
    pub n_args: usize,
}

struct Ctx {
    ops: Vec<Op>,
    max_reg: usize,
}

impl Ctx {
    fn touch(&mut self, reg: usize)
        requires
            reg < usize::MAX,
        ensures
            final(self).ops@ == old(self).ops@,
            final(self).max_reg as nat == max(old(self).max_reg as nat, (reg + 1) as nat),
    {
        if reg + 1 > self.max_reg {
            self.max_reg = reg + 1;
        }
    }
}

/// `x + y` into `dest` (the shared tail of `Add` and of `SetLocal(_, Add)`).
#[verifier::rlimit(50)]
fn compile_add(
    ctx: &mut Ctx,
    locals: &mut Vec<usize>,
    x: &Expr,
    y: &Expr,
    next_reg: usize,
    dest: usize,
)
    requires
        scoped(*x, old(locals)@.len()),
        scoped(*y, old(locals)@.len()),
        spec_argmax(*x) <= next_reg,
        spec_argmax(*y) <= next_reg,
        forall|i: int| 0 <= i < old(locals)@.len() ==> old(locals)@[i] < next_reg,
        next_reg + size(*x) + size(*y) + 1 < usize::MAX,
        dest <= next_reg,
    ensures
        final(locals)@ == old(locals)@,
        ({
            let g = gen_add(*x, *y, regs_of(old(locals)@), next_reg as nat, dest as nat, old(ctx).ops@.len());
            &&& final(ctx).ops@ == old(ctx).ops@ + g.ops
            &&& final(ctx).max_reg as nat == max(old(ctx).max_reg as nat, g.top)
        }),
    decreases size(*x) + size(*y) + 1, 0nat,
{
    if let Expr::Litr(imm) = y {
        let rx = compile_inner(ctx, locals, x, next_reg);
        ctx.ops.push(Op::AddImm(dest, rx, *imm));
    } else {
        let rx = compile_inner(ctx, locals, x, next_reg);
        let copy = rx < next_reg && may_assign(y, locals, 0, rx);
        if copy {
            ctx.ops.push(Op::Move(next_reg, rx));
            ctx.touch(next_reg);
        }
        let xr = if copy {
            next_reg
        } else {
            rx
        };
        let y_next = if xr >= next_reg {
            xr + 1
        } else {
            next_reg
        };
        let ry = compile_inner(ctx, locals, y, y_next);
        ctx.ops.push(Op::Add(dest, xr, ry));
    }
    ctx.touch(dest);
}

fn compile_let(ctx: &mut Ctx, locals: &mut Vec<usize>, rhs: &Expr, body: &Expr, next_reg: usize) -> (res: usize)
    requires
        scoped(*rhs, old(locals)@.len()),
        scoped(*body, old(locals)@.len() + 1),
        spec_argmax(*rhs) <= next_reg,
        spec_argmax(*body) <= next_reg,
        forall|i: int| 0 <= i < old(locals)@.len() ==> old(locals)@[i] < next_reg,
        next_reg + size(*rhs) + size(*body) + 1 < usize::MAX,
    ensures
        final(locals)@ == old(locals)@,
        ({
            let g = gen(
                Expr::Let(Box::new(*rhs), Box::new(*body)),
                regs_of(old(locals)@),
                next_reg as nat,
                old(ctx).ops@.len(),
            );
            &&& final(ctx).ops@ == old(ctx).ops@ + g.ops
            &&& res as nat == g.reg
            &&& final(ctx).max_reg as nat == max(old(ctx).max_reg as nat, g.top)
        }),
        res < next_reg + size(*rhs) + size(*body) + 1,
    decreases size(*rhs) + size(*body) + 1, 0nat,
{
    let ghost l0 = regs_of(locals@);
    let r_rhs = compile_inner(ctx, locals, rhs, next_reg);
    if r_rhs != next_reg {
        ctx.ops.push(Op::Move(next_reg, r_rhs));
    }
    ctx.touch(next_reg);
    locals.push(next_reg);
    assert(regs_of(locals@) =~= l0.push(next_reg as nat));
    let r = compile_inner(ctx, locals, body, next_reg + 1);
    locals.pop();
    assert(locals@ =~= old(locals)@);
    r
}

#[verifier::rlimit(40)]
fn compile_inner(ctx: &mut Ctx, locals: &mut Vec<usize>, expr: &Expr, next_reg: usize) -> (res: usize)
    requires
        scoped(*expr, old(locals)@.len()),
        spec_argmax(*expr) <= next_reg,
        forall|i: int| 0 <= i < old(locals)@.len() ==> old(locals)@[i] < next_reg,
        next_reg + size(*expr) < usize::MAX,
    ensures
        final(locals)@ == old(locals)@,
        ({
            let g = gen(*expr, regs_of(old(locals)@), next_reg as nat, old(ctx).ops@.len());
            &&& final(ctx).ops@ == old(ctx).ops@ + g.ops
            &&& res as nat == g.reg
            &&& final(ctx).max_reg as nat == max(old(ctx).max_reg as nat, g.top)
        }),
        res < next_reg + size(*expr),
    decreases size(*expr), 1nat,
{
    let ghost l0 = regs_of(locals@);
    match expr {
        Expr::Litr(x) => {
            ctx.ops.push(Op::LoadImm(next_reg, *x));
            ctx.touch(next_reg);
            next_reg
        },
        Expr::Arg(idx) => *idx,
        Expr::Get(local) => {
            let r = locals[locals.len() - 1 - *local];
            assert(r as nat == local_reg(l0, *local as nat));
            r
        },
        Expr::Add(x, y) => {
            compile_add(ctx, locals, x, y, next_reg, next_reg);
            next_reg
        },
        Expr::Let(rhs, then) => compile_let(ctx, locals, rhs, then, next_reg),
        Expr::SetLocal(local, rhs) => {
            let target = locals[locals.len() - 1 - *local];
            assert(target as nat == local_reg(l0, *local as nat));
            match &**rhs {
                Expr::Litr(x) => {
                    ctx.ops.push(Op::LoadImm(target, *x));
                    ctx.touch(target);
                },
                Expr::Add(x, y) => {
                    assert(size(**rhs) == 1 + size(**x) + size(**y));
                    assert(scoped(**rhs, locals@.len()));
                    assert(scoped(**x, locals@.len()) && scoped(**y, locals@.len()));
                    assert(spec_argmax(**rhs) == max(spec_argmax(**x), spec_argmax(**y)));
                    compile_add(ctx, locals, x, y, next_reg, target);
                },
                _ => {
                    let r_rhs = compile_inner(ctx, locals, rhs, next_reg);
                    if r_rhs != target {
                        ctx.ops.push(Op::Move(target, r_rhs));
                    }
                },
            }
            target
        },
        Expr::While(pred, body) => {
            let start = ctx.ops.len();
            let r_pred = compile_inner(ctx, locals, pred, next_reg);
            let branch_fixup = ctx.ops.len();
            ctx.ops.push(Op::JmpZN(r_pred, 0));
            compile_inner(ctx, locals, body, next_reg);
            ctx.ops.push(Op::Jmp(start));
            let end = ctx.ops.len();
            ctx.ops.set(branch_fixup, Op::JmpZN(r_pred, end));
            next_reg
        },
        Expr::Then(a, b) => {
            compile_inner(ctx, locals, a, next_reg);
            compile_inner(ctx, locals, b, next_reg)
        },
    }
}

/// Lowers `expr`: arguments go to registers `0..n_args` (`n_args` one more
/// than the largest argument index read), then the code of `expr` and a `Ret`.
pub fn lower(expr: &Expr) -> (res: Lowered)
    requires
        lowerable(*expr),
    ensures
        res.ops@ == lowered_ops(*expr),
        res.num_regs as nat == lowered_num_regs(*expr),
        res.n_args as nat == spec_argmax(*expr),
{
    let n_args = argmax(expr);
    let mut ctx = Ctx { ops: Vec::new(), max_reg: 0 };
    let mut locals: Vec<usize> = Vec::new();
    assert(regs_of(locals@) =~= Seq::<nat>::empty());
    let result = compile_inner(&mut ctx, &mut locals, expr, n_args);
    ctx.ops.push(Op::Ret(result));
    let mut num_regs = ctx.max_reg;
    if n_args > num_regs {
        num_regs = n_args;
    }
    if num_regs < 1 {
        num_regs = 1;
    }
    Lowered { ops: ctx.ops, num_regs, n_args }
}

/// Whether `lower` can take `expr`.
pub fn is_lowerable(expr: &Expr) -> (b: bool)
    ensures
        b == lowerable(*expr),
{
    match (try_argmax(expr), node_count(expr)) {
        (Some(a), Some(n)) => if a < usize::MAX && n < usize::MAX - a {
            check_scoped(expr, 0)
        } else {
            false
        },
        _ => false,
    }
}

} // verus!
