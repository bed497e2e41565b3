use crate::expr::{
    add_fits, assigns, check_scoped, max, may_assign, node_count, regs_of, scoped, size, Expr,
};
use vstd::prelude::*;

verus! {

/// A register virtual machine: expressions compile to a list of
/// three-address instructions over a file of `i64` registers.
pub struct BytecodeRegister;

/// One instruction. Registers and jump targets are indices.
#[derive(Debug, Clone, Copy, PartialEq, Eq, Structural)]
pub enum Op {
    /// `LoadImm(dest, x)`: `dest = x`.
    LoadImm(usize, i64),
    /// `LoadArg(dest, i)`: `dest = args[i]`.
    LoadArg(usize, usize),
    /// `Move(dest, src)`: `dest = src`.
    Move(usize, usize),
    /// `Add(dest, a, b)`: `dest = a + b`.
    Add(usize, usize, usize),
    /// `JmpZN(reg, target)`: jump to `target` when `reg <= 0`.
    JmpZN(usize, usize),
    /// `Jmp(target)`: jump to `target`.
    Jmp(usize),
    /// `Ret(reg)`: stop with the value of `reg`.
    Ret(usize),
}

/// A compiled program: its instructions and the size of its register file.
pub struct Program {
    ops: Vec<Op>,
    num_regs: usize,
}

impl Program {
    pub closed spec fn ops(&self) -> Seq<Op> {
        self.ops@
    }

    pub closed spec fn num_regs(&self) -> nat {
        self.num_regs as nat
    }

    /// Every argument that the program loads is below `n`.
    pub open spec fn loads_args_below(&self, n: nat) -> bool {
        forall|i: int| 0 <= i < self.ops().len() ==> match #[trigger] self.ops()[i] {
            Op::LoadArg(_, a) => a < n,
            _ => true,
        }
    }

    /// Whether `n` arguments are enough for the program.
    pub fn takes_args(&self, n: usize) -> (b: bool)
        ensures
            b == self.loads_args_below(n as nat),
    {
        let mut i: usize = 0;
        while i < self.ops.len()
            invariant
                i <= self.ops@.len(),
                forall|j: int| 0 <= j < i ==> match #[trigger] self.ops@[j] {
                    Op::LoadArg(_, a) => a < n,
                    _ => true,
                },
            decreases self.ops@.len() - i,
        {
            if let Op::LoadArg(_, a) = self.ops[i] {
                if a >= n {
                    return false;
                }
            }
            i = i + 1;
        }
        true
    }
}

// ---------------------------------------------------------------------------
// Semantics of the instruction set
// ---------------------------------------------------------------------------
/// The machine state: instruction pointer and registers.
pub struct State {
    pub ip: nat,
    pub regs: Seq<i64>,
}

/// The outcome of one instruction.
pub enum Step {
    Next(State),
    Halt(i64),
    Stuck,
}

/// Executes the instruction at `s.ip`. An instruction that names a register
/// outside the file, an argument that is missing, an addition that overflows
/// or an instruction pointer past the end gets stuck.
pub open spec fn step(ops: Seq<Op>, args: Seq<i64>, s: State) -> Step {
    let n = s.regs.len();
    if s.ip >= ops.len() {
        Step::Stuck
    } else {
        match ops[s.ip as int] {
            Op::LoadImm(d, x) => if d < n {
                Step::Next(State { ip: s.ip + 1, regs: s.regs.update(d as int, x) })
            } else {
                Step::Stuck
            },
            Op::LoadArg(d, i) => if d < n && i < args.len() {
                Step::Next(State { ip: s.ip + 1, regs: s.regs.update(d as int, args[i as int]) })
            } else {
                Step::Stuck
            },
            Op::Move(d, src) => if d < n && src < n {
                Step::Next(State { ip: s.ip + 1, regs: s.regs.update(d as int, s.regs[src as int]) })
            } else {
                Step::Stuck
            },
            Op::Add(d, a, b) => if d < n && a < n && b < n && add_fits(
                s.regs[a as int],
                s.regs[b as int],
            ) {
                Step::Next(
                    State {
                        ip: s.ip + 1,
                        regs: s.regs.update(d as int, (s.regs[a as int] + s.regs[b as int]) as i64),
                    },
                )
            } else {
                Step::Stuck
            },
            Op::JmpZN(r, t) => if r < n {
                if s.regs[r as int] <= 0 {
                    Step::Next(State { ip: t as nat, regs: s.regs })
                } else {
                    Step::Next(State { ip: s.ip + 1, regs: s.regs })
                }
            } else {
                Step::Stuck
            },
            Op::Jmp(t) => Step::Next(State { ip: t as nat, regs: s.regs }),
            Op::Ret(r) => if r < n {
                Step::Halt(s.regs[r as int])
            } else {
                Step::Stuck
            },
        }
    }
}

/// Runs at most `fuel` instructions from `s`; `Some(v)` when a `Ret` is reached.
pub open spec fn run(ops: Seq<Op>, args: Seq<i64>, s: State, fuel: nat) -> Option<i64>
    decreases fuel,
{
    if fuel == 0 {
        None
    } else {
        match step(ops, args, s) {
            Step::Next(s2) => run(ops, args, s2, (fuel - 1) as nat),
            Step::Halt(v) => Some(v),
            Step::Stuck => None,
        }
    }
}

/// The state an execution starts in: first instruction, all registers 0.
pub open spec fn initial(num_regs: nat) -> State {
    State { ip: 0, regs: Seq::new(num_regs, |i: int| 0i64) }
}

/// The program stops with a value on these arguments.
pub open spec fn halts(ops: Seq<Op>, num_regs: nat, args: Seq<i64>) -> bool {
    exists|fuel: nat| #[trigger] run(ops, args, initial(num_regs), fuel) is Some
}

/// Running longer does not change a result: the machine is deterministic.
pub proof fn lemma_run_unique(ops: Seq<Op>, args: Seq<i64>, s: State, f1: nat, f2: nat)
    requires
        run(ops, args, s, f1) is Some,
        run(ops, args, s, f2) is Some,
    ensures
        run(ops, args, s, f1) == run(ops, args, s, f2),
    decreases f1,
{
    if f1 > 0 && f2 > 0 {
        if let Step::Next(s2) = step(ops, args, s) {
            lemma_run_unique(ops, args, s2, (f1 - 1) as nat, (f2 - 1) as nat);
        }
    }
}

// ---------------------------------------------------------------------------
// The code generator
// ---------------------------------------------------------------------------
/// What compiling one expression produces: its instructions, the register
/// that holds its value, and one more than the highest register it writes
/// (0 if none). A value in a register at or above the first free temporary
/// is a temporary; one below it is a local.
pub struct Gen {
    pub ops: Seq<Op>,
    pub reg: nat,
    pub top: nat,
}

/// The register of local `l` when the locals live in registers `locals`
/// (innermost last).
pub open spec fn local_reg(locals: Seq<nat>, l: nat) -> nat {
    locals[locals.len() - 1 - l]
}

/// The code for `e` when the locals live in registers `locals` (innermost
/// last), the first free temporary is `next`, and the code starts at index
/// `pc`. A `Let` keeps its local in the first free temporary, so that
/// nothing that is still live is overwritten; when the right operand of an
/// `Add` can set the local that holds the left operand, that operand is
/// copied into a temporary first.
pub open spec fn gen(e: Expr, locals: Seq<nat>, next: nat, pc: nat) -> Gen
    decreases e,
{
    match e {
        Expr::Litr(x) => Gen { ops: seq![Op::LoadImm(next as usize, x)], reg: next, top: next + 1 },
        Expr::Arg(i) => Gen { ops: seq![Op::LoadArg(next as usize, i)], reg: next, top: next + 1 },
        Expr::Get(l) => Gen { ops: seq![], reg: local_reg(locals, l as nat), top: 0 },
        Expr::Add(x, y) => {
            let gx = gen(*x, locals, next, pc);
            let copy = gx.reg < next && assigns(*y, locals, 0, gx.reg);
            let mv = if copy {
                seq![Op::Move(next as usize, gx.reg as usize)]
            } else {
                seq![]
            };
            let xr = if copy {
                next
            } else {
                gx.reg
            };
            let y_next = if xr >= next {
                xr + 1
            } else {
                next
            };
            let gy = gen(*y, locals, y_next, pc + gx.ops.len() + mv.len());
            Gen {
                ops: gx.ops + mv + gy.ops + seq![Op::Add(next as usize, xr as usize, gy.reg as usize)],
                reg: next,
                top: max(max(gx.top, gy.top), next + 1),
            }
        },
        Expr::Let(rhs, body) => {
            let gr = gen(*rhs, locals, next, pc);
            let mv = if gr.reg != next {
                seq![Op::Move(next as usize, gr.reg as usize)]
            } else {
                seq![]
            };
            let gb = gen(*body, locals.push(next), next + 1, pc + gr.ops.len() + mv.len());
            Gen { ops: gr.ops + mv + gb.ops, reg: gb.reg, top: max(max(gr.top, next + 1), gb.top) }
        },
        Expr::SetLocal(l, rhs) => {
            let target = local_reg(locals, l as nat);
            let gr = gen(*rhs, locals, next, pc);
            let mv = if gr.reg != target {
                seq![Op::Move(target as usize, gr.reg as usize)]
            } else {
                seq![]
            };
            Gen { ops: gr.ops + mv, reg: target, top: gr.top }
        },
        Expr::While(p, b) => {
            let gp = gen(*p, locals, next, pc);
            let gb = gen(*b, locals, next, pc + gp.ops.len() + 1);
            let end = pc + gp.ops.len() + 1 + gb.ops.len() + 1;
            Gen {
                ops: gp.ops + seq![Op::JmpZN(gp.reg as usize, end as usize)] + gb.ops + seq![
                    Op::Jmp(pc as usize),
                ],
                reg: next,
                top: max(gp.top, gb.top),
            }
        },
        Expr::Then(a, b) => {
            let ga = gen(*a, locals, next, pc);
            let gb = gen(*b, locals, next, pc + ga.ops.len());
            Gen { ops: ga.ops + gb.ops, reg: gb.reg, top: max(ga.top, gb.top) }
        },
    }
}

/// The instructions that `BytecodeRegister::compile` gives for `e`.
pub open spec fn compiled_ops(e: Expr) -> Seq<Op> {
    let g = gen(e, Seq::empty(), 0, 0);
    g.ops.push(Op::Ret(g.reg as usize))
}

/// The register file size that `BytecodeRegister::compile` gives for `e`.
pub open spec fn compiled_num_regs(e: Expr) -> nat {
    max(gen(e, Seq::empty(), 0, 0).top, 1)
}

struct Ctx {
    ops: Vec<Op>,
    max_reg: usize,
}

impl Ctx {
    fn touch(&mut self, reg: usize)
        requires
            reg < usize::MAX,
        ensures
            final(self).ops@ == old(self).ops@,
            final(self).max_reg as nat == max(old(self).max_reg as nat, (reg + 1) as nat),
    {
        if reg + 1 > self.max_reg {
            self.max_reg = reg + 1;
        }
    }
}

fn compile_add(ctx: &mut Ctx, locals: &mut Vec<usize>, x: &Expr, y: &Expr, next_reg: usize) -> (res: usize)
    requires
        scoped(*x, old(locals)@.len()),
        scoped(*y, old(locals)@.len()),
        forall|i: int| 0 <= i < old(locals)@.len() ==> old(locals)@[i] < next_reg,
        next_reg + size(*x) + size(*y) + 1 < usize::MAX,
    ensures
        final(locals)@ == old(locals)@,
        ({
            let g = gen(
                Expr::Add(Box::new(*x), Box::new(*y)),
                regs_of(old(locals)@),
                next_reg as nat,
                old(ctx).ops@.len(),
            );
            &&& final(ctx).ops@ == old(ctx).ops@ + g.ops
            &&& res as nat == g.reg
            &&& final(ctx).max_reg as nat == max(old(ctx).max_reg as nat, g.top)
        }),
        res == next_reg,
    decreases size(*x) + size(*y) + 1, 0nat,
{
    let rx = compile_inner(ctx, locals, x, next_reg);
    let copy = rx < next_reg && may_assign(y, locals, 0, rx);
    if copy {
        ctx.ops.push(Op::Move(next_reg, rx));
    }
    let xr = if copy {
        next_reg
    } else {
        rx
    };
    let y_next = if xr >= next_reg {
        xr + 1
    } else {
        next_reg
    };
    let ry = compile_inner(ctx, locals, y, y_next);
    ctx.ops.push(Op::Add(next_reg, xr, ry));
    ctx.touch(next_reg);
    next_reg
}

fn compile_let(ctx: &mut Ctx, locals: &mut Vec<usize>, rhs: &Expr, body: &Expr, next_reg: usize) -> (res: usize)
    requires
        scoped(*rhs, old(locals)@.len()),
        scoped(*body, old(locals)@.len() + 1),
        forall|i: int| 0 <= i < old(locals)@.len() ==> old(locals)@[i] < next_reg,
        next_reg + size(*rhs) + size(*body) + 1 < usize::MAX,
    ensures
        final(locals)@ == old(locals)@,
        ({
            let g = gen(
                Expr::Let(Box::new(*rhs), Box::new(*body)),
                regs_of(old(locals)@),
                next_reg as nat,
                old(ctx).ops@.len(),
            );
            &&& final(ctx).ops@ == old(ctx).ops@ + g.ops
            &&& res as nat == g.reg
            &&& final(ctx).max_reg as nat == max(old(ctx).max_reg as nat, g.top)
        }),
        res < next_reg + size(*rhs) + size(*body) + 1,
    decreases size(*rhs) + size(*body) + 1, 0nat,
{
    let ghost l0 = regs_of(locals@);
    let r_rhs = compile_inner(ctx, locals, rhs, next_reg);
    if r_rhs != next_reg {
        ctx.ops.push(Op::Move(next_reg, r_rhs));
    }
    ctx.touch(next_reg);
    locals.push(next_reg);
    assert(regs_of(locals@) =~= l0.push(next_reg as nat));
    let r = compile_inner(ctx, locals, body, next_reg + 1);
    locals.pop();
    assert(locals@ =~= old(locals)@);
    r
}

#[verifier::rlimit(40)]
fn compile_inner(ctx: &mut Ctx, locals: &mut Vec<usize>, expr: &Expr, next_reg: usize) -> (res: usize)
    requires
        scoped(*expr, old(locals)@.len()),
        forall|i: int| 0 <= i < old(locals)@.len() ==> old(locals)@[i] < next_reg,
        next_reg + size(*expr) < usize::MAX,
    ensures
        final(locals)@ == old(locals)@,
        ({
            let g = gen(*expr, regs_of(old(locals)@), next_reg as nat, old(ctx).ops@.len());
            &&& final(ctx).ops@ == old(ctx).ops@ + g.ops
            &&& res as nat == g.reg
            &&& final(ctx).max_reg as nat == max(old(ctx).max_reg as nat, g.top)
        }),
        res < next_reg + size(*expr),
    decreases size(*expr), 1nat,
{
    let ghost l0 = regs_of(locals@);
    match expr {
        Expr::Litr(x) => {
            ctx.ops.push(Op::LoadImm(next_reg, *x));
            ctx.touch(next_reg);
            next_reg
        },
        Expr::Arg(idx) => {
            ctx.ops.push(Op::LoadArg(next_reg, *idx));
            ctx.touch(next_reg);
            next_reg
        },
        Expr::Get(local) => {
            let r = locals[locals.len() - 1 - *local];
            assert(r as nat == local_reg(l0, *local as nat));
            r
        },
        Expr::Add(x, y) => compile_add(ctx, locals, x, y, next_reg),
        Expr::Let(rhs, then) => compile_let(ctx, locals, rhs, then, next_reg),
        Expr::SetLocal(local, rhs) => {
            let target = locals[locals.len() - 1 - *local];
            assert(target as nat == local_reg(l0, *local as nat));
            let r_rhs = compile_inner(ctx, locals, rhs, next_reg);
            if r_rhs != target {
                ctx.ops.push(Op::Move(target, r_rhs));
            }
            target
        },
        Expr::While(pred, body) => {
            let start = ctx.ops.len();
            let r_pred = compile_inner(ctx, locals, pred, next_reg);
            let branch_fixup = ctx.ops.len();
            ctx.ops.push(Op::JmpZN(r_pred, 0));
            compile_inner(ctx, locals, body, next_reg);
            ctx.ops.push(Op::Jmp(start));
            let end = ctx.ops.len();
            ctx.ops.set(branch_fixup, Op::JmpZN(r_pred, end));
            next_reg
        },
        Expr::Then(a, b) => {
            compile_inner(ctx, locals, a, next_reg);
            compile_inner(ctx, locals, b, next_reg)
        },
    }
}

impl BytecodeRegister {
    /// Compiles `expr`: the code of `expr`, then a `Ret` of its register.
    pub fn compile(expr: &Expr) -> (prog: Program)
        requires
            scoped(*expr, 0),
            size(*expr) < usize::MAX,
        ensures
            prog.ops() == compiled_ops(*expr),
            prog.num_regs() == compiled_num_regs(*expr),
    {
        let mut ctx = Ctx { ops: Vec::new(), max_reg: 0 };
        let mut locals: Vec<usize> = Vec::new();
        assert(regs_of(locals@) =~= Seq::<nat>::empty());
        let result = compile_inner(&mut ctx, &mut locals, expr, 0);
        ctx.ops.push(Op::Ret(result));
        let num_regs = if ctx.max_reg >= 1 {
            ctx.max_reg
        } else {
            1
        };
        Program { ops: ctx.ops, num_regs }
    }

    /// `compile`, or `None` when `expr` names a local that is not in scope
    /// or has `usize::MAX` nodes or more.
    pub fn try_compile(expr: &Expr) -> (res: Option<Program>)
        ensures
            res is Some <==> scoped(*expr, 0) && size(*expr) < usize::MAX,
            res matches Some(prog) ==> prog.ops() == compiled_ops(*expr) && prog.num_regs()
                == compiled_num_regs(*expr),
    {
        let fits = match node_count(expr) {
            Some(n) => n < usize::MAX,
            None => false,
        };
        if fits && check_scoped(expr, 0) {
            Some(Self::compile(expr))
        } else {
            None
        }
    }

    /// Runs `prog` on `args` from `initial` until its `Ret`.
    pub fn execute(prog: &Program, args: &[i64]) -> (result: i64)
        requires
            halts(prog.ops(), prog.num_regs(), args@),
        ensures
            forall|fuel: nat|
                #[trigger] run(prog.ops(), args@, initial(prog.num_regs()), fuel) is Some ==> run(
                    prog.ops(),
                    args@,
                    initial(prog.num_regs()),
                    fuel,
                ) == Some(result),
    {
        let ghost ops = prog.ops();
        let ghost fuel0 = choose|fuel: nat| #[trigger]
            run(ops, args@, initial(prog.num_regs()), fuel) is Some;
        let ghost answer = run(ops, args@, initial(prog.num_regs()), fuel0).unwrap();
        let mut regs: Vec<i64> = vec![0i64; prog.num_regs];
        assert(regs@ =~= initial(prog.num_regs()).regs);
        let mut ip: usize = 0;
        let ghost mut fuel = fuel0;
        let mut result: i64 = 0;
        loop
            invariant_except_break
                ops == prog.ops(),
                run(ops, args@, State { ip: ip as nat, regs: regs@ }, fuel) == Some(answer),
            ensures
                result == answer,
            decreases fuel,
        {
            let ghost s = State { ip: ip as nat, regs: regs@ };
            assert(ip < prog.ops.len());
            match prog.ops[ip] {
                Op::LoadImm(dest, x) => {
                    regs.set(dest, x);
                    ip += 1;
                },
                Op::LoadArg(dest, idx) => {
                    regs.set(dest, args[idx]);
                    ip += 1;
                },
                Op::Move(dest, src) => {
                    let v = regs[src];
                    regs.set(dest, v);
                    ip += 1;
                },
                Op::Add(dest, a, b) => {
                    let a = regs[a];
                    let b = regs[b];
                    regs.set(dest, a + b);
                    ip += 1;
                },
                Op::JmpZN(reg, target) => {
                    if regs[reg] <= 0 {
                        ip = target;
                    } else {
                        ip += 1;
                    }
                },
                Op::Jmp(target) => {
                    ip = target;
                },
                Op::Ret(reg) => {
                    result = regs[reg];
                    break ;
                },
            }
            proof {
                assert(State { ip: ip as nat, regs: regs@ } == step(ops, args@, s)->Next_0);
                fuel = (fuel - 1) as nat;
            }
        }
        proof {
            assert forall|fuel: nat| #[trigger]
                run(ops, args@, initial(prog.num_regs()), fuel) is Some implies run(
                ops,
                args@,
                initial(prog.num_regs()),
                fuel,
            ) == Some(result) by {
                lemma_run_unique(ops, args@, initial(prog.num_regs()), fuel, fuel0);
            }
        }
        result
    }
}

} // verus!
