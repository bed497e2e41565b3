use vstd::prelude::*;

verus! {

/// The expression language that every virtual machine of this crate compiles.
///
/// The only data type is `i64`, the only arithmetic is addition and the only
/// control flow is `While`. Locals are introduced by `Let` and addressed by
/// de Bruijn index: `Get(0)` is the innermost local, `Get(1)` the one
/// around it, and so on. `Arg(i)` reads the `i`-th argument of an execution.
#[derive(Debug)]
pub enum Expr {
    Litr(i64),
    Arg(usize),
    Get(usize),
    Add(Box<Expr>, Box<Expr>),
    Let(Box<Expr>, Box<Expr>),
    SetLocal(usize, Box<Expr>),
    While(Box<Expr>, Box<Expr>),
    Then(Box<Expr>, Box<Expr>),
}

/// Number of nodes of an expression.
pub open spec fn size(e: Expr) -> nat
    decreases e,
{
    match e {
        Expr::Litr(_) => 1,
        Expr::Arg(_) => 1,
        Expr::Get(_) => 1,
        Expr::Add(x, y) => 1 + size(*x) + size(*y),
        Expr::Let(x, y) => 1 + size(*x) + size(*y),
        Expr::SetLocal(_, x) => 1 + size(*x),
        Expr::While(x, y) => 1 + size(*x) + size(*y),
        Expr::Then(x, y) => 1 + size(*x) + size(*y),
    }
}

pub open spec fn max(a: nat, b: nat) -> nat {
    if a >= b {
        a
    } else {
        b
    }
}

/// One more than the largest argument index that `e` reads (0 if it reads none).
pub open spec fn spec_argmax(e: Expr) -> nat
    decreases e,
{
    match e {
        Expr::Litr(_) => 0,
        Expr::Get(_) => 0,
        Expr::Arg(i) => (i + 1) as nat,
        Expr::Add(x, y) => max(spec_argmax(*x), spec_argmax(*y)),
        Expr::Let(x, y) => max(spec_argmax(*x), spec_argmax(*y)),
        Expr::While(x, y) => max(spec_argmax(*x), spec_argmax(*y)),
        Expr::Then(x, y) => max(spec_argmax(*x), spec_argmax(*y)),
        Expr::SetLocal(_, x) => spec_argmax(*x),
    }
}

/// Every `Get(l)` and `SetLocal(l, _)` in `e` names a slot below `depth + (enclosing lets)`.
pub open spec fn scoped(e: Expr, depth: nat) -> bool
    decreases e,
{
    match e {
        Expr::Litr(_) => true,
        Expr::Arg(_) => true,
        Expr::Get(l) => l < depth,
        Expr::Add(x, y) => scoped(*x, depth) && scoped(*y, depth),
        Expr::Let(x, y) => scoped(*x, depth) && scoped(*y, depth + 1),
        Expr::SetLocal(l, x) => l < depth && scoped(*x, depth),
        Expr::While(x, y) => scoped(*x, depth) && scoped(*y, depth),
        Expr::Then(x, y) => scoped(*x, depth) && scoped(*y, depth),
    }
}

/// An expression without effects on locals and without control flow.
pub open spec fn pure_expr(e: Expr) -> bool
    decreases e,
{
    match e {
        Expr::Litr(_) => true,
        Expr::Arg(_) => true,
        Expr::Get(_) => true,
        Expr::Add(x, y) => pure_expr(*x) && pure_expr(*y),
        _ => false,
    }
}

/// The expressions on which the register compilers are exact: every local
/// that is named is in scope, and no `While` stands where its value is used
/// (a loop's value is 0 to `eval`, and the compiled code gives it no
/// register). `value` says whether the value of `e` itself is used.
pub open spec fn well_formed(e: Expr, locals: nat, value: bool) -> bool
    decreases e,
{
    match e {
        Expr::Litr(_) => true,
        Expr::Arg(_) => true,
        Expr::Get(l) => l < locals,
        Expr::Add(x, y) => well_formed(*x, locals, true) && well_formed(*y, locals, true),
        Expr::Let(x, y) => well_formed(*x, locals, true) && well_formed(*y, locals + 1, value),
        Expr::SetLocal(l, x) => l < locals && well_formed(*x, locals, true),
        Expr::While(x, y) => !value && well_formed(*x, locals, true) && well_formed(
            *y,
            locals,
            false,
        ),
        Expr::Then(x, y) => well_formed(*x, locals, false) && well_formed(*y, locals, value),
    }
}

/// The registers of the locals, as numbers.
pub open spec fn regs_of(locals: Seq<usize>) -> Seq<nat> {
    locals.map_values(|r: usize| r as nat)
}

/// Whether `e` can write register `r` by setting a local: the locals from
/// outside `e` live in registers `locals` (innermost last), and `k` locals
/// bound inside `e` stand above them. The locals that `e` binds itself live
/// in registers that are still free, so only a `SetLocal` of an outer local
/// can reach a register that is live around `e`.
pub open spec fn assigns(e: Expr, locals: Seq<nat>, k: nat, r: nat) -> bool
    decreases e,
{
    match e {
        Expr::Litr(_) => false,
        Expr::Arg(_) => false,
        Expr::Get(_) => false,
        Expr::Add(x, y) => assigns(*x, locals, k, r) || assigns(*y, locals, k, r),
        Expr::Let(x, y) => assigns(*x, locals, k, r) || assigns(*y, locals, k + 1, r),
        Expr::SetLocal(l, x) => (l >= k && l - k < locals.len() && locals[locals.len() - 1 - (l
            - k)] == r) || assigns(*x, locals, k, r),
        Expr::While(x, y) => assigns(*x, locals, k, r) || assigns(*y, locals, k, r),
        Expr::Then(x, y) => assigns(*x, locals, k, r) || assigns(*y, locals, k, r),
    }
}

/// Binding one more local in a register other than `r` is the same, for
/// `r`, as counting it among the locals of `e`.
pub proof fn lemma_assigns_push(e: Expr, locals: Seq<nat>, p: nat, k: nat, r: nat)
    requires
        p != r,
    ensures
        assigns(e, locals.push(p), k, r) == assigns(e, locals, k + 1, r),
    decreases e,
{
    match e {
        Expr::Add(x, y) => {
            lemma_assigns_push(*x, locals, p, k, r);
            lemma_assigns_push(*y, locals, p, k, r);
        },
        Expr::Let(x, y) => {
            lemma_assigns_push(*x, locals, p, k, r);
            lemma_assigns_push(*y, locals, p, k + 1, r);
        },
        Expr::SetLocal(l, x) => {
            lemma_assigns_push(*x, locals, p, k, r);
            let lp = locals.push(p);
            if l > k && l - k < lp.len() {
                assert(lp[lp.len() - 1 - (l - k)] == locals[locals.len() - 1 - (l - (k + 1))]);
            }
        },
        Expr::While(x, y) => {
            lemma_assigns_push(*x, locals, p, k, r);
            lemma_assigns_push(*y, locals, p, k, r);
        },
        Expr::Then(x, y) => {
            lemma_assigns_push(*x, locals, p, k, r);
            lemma_assigns_push(*y, locals, p, k, r);
        },
        _ => {},
    }
}

/// Executable form of `assigns`.
pub fn may_assign(e: &Expr, locals: &Vec<usize>, k: usize, r: usize) -> (b: bool)
    requires
        k + size(*e) <= usize::MAX,
    ensures
        b == assigns(*e, regs_of(locals@), k as nat, r as nat),
    decreases e,
{
    match e {
        Expr::Litr(_) => false,
        Expr::Arg(_) => false,
        Expr::Get(_) => false,
        Expr::Add(x, y) => may_assign(x, locals, k, r) || may_assign(y, locals, k, r),
        Expr::Let(x, y) => may_assign(x, locals, k, r) || may_assign(y, locals, k + 1, r),
        Expr::SetLocal(l, x) => {
            let here = *l >= k && *l - k < locals.len() && locals[locals.len() - 1 - (*l - k)]
                == r;
            here || may_assign(x, locals, k, r)
        },
        Expr::While(x, y) => may_assign(x, locals, k, r) || may_assign(y, locals, k, r),
        Expr::Then(x, y) => may_assign(x, locals, k, r) || may_assign(y, locals, k, r),
    }
}

/// Whether an `i64` addition stays in range.
pub open spec fn add_fits(a: i64, b: i64) -> bool {
    i64::MIN <= a + b <= i64::MAX
}

/// Evaluation of `e` with arguments `args` and locals `env` (the innermost
/// local last), allowing `fuel` iterations of each `While`. `None` when the
/// fuel runs out, an addition overflows, or an argument or local is missing.
/// On success, gives the value of `e` and the locals afterwards.
/// A `While` has the value 0.
pub open spec fn eval(e: Expr, args: Seq<i64>, env: Seq<i64>, fuel: nat) -> Option<(i64, Seq<i64>)>
    decreases fuel, e,
{
    match e {
        Expr::Litr(x) => Some((x, env)),
        Expr::Arg(i) => if i < args.len() {
            Some((args[i as int], env))
        } else {
            None
        },
        Expr::Get(l) => if l < env.len() {
            Some((env[env.len() - 1 - l], env))
        } else {
            None
        },
        Expr::Add(x, y) => match eval(*x, args, env, fuel) {
            Some((vx, env1)) => match eval(*y, args, env1, fuel) {
                Some((vy, env2)) => if add_fits(vx, vy) {
                    Some(((vx + vy) as i64, env2))
                } else {
                    None
                },
                None => None,
            },
            None => None,
        },
        Expr::Let(x, y) => match eval(*x, args, env, fuel) {
            Some((v, env1)) => match eval(*y, args, env1.push(v), fuel) {
                Some((vy, env2)) => Some((vy, env2.drop_last())),
                None => None,
            },
            None => None,
        },
        Expr::SetLocal(l, x) => match eval(*x, args, env, fuel) {
            Some((v, env1)) => if l < env1.len() {
                Some((v, env1.update(env1.len() - 1 - l, v)))
            } else {
                None
            },
            None => None,
        },
        Expr::While(p, b) => match eval(*p, args, env, fuel) {
            Some((vp, env1)) => if vp <= 0 {
                Some((0, env1))
            } else {
                match eval(*b, args, env1, fuel) {
                    Some((_, env2)) => if fuel == 0 {
                        None
                    } else {
                        eval(e, args, env2, (fuel - 1) as nat)
                    },
                    None => None,
                }
            },
            None => None,
        },
        Expr::Then(x, y) => match eval(*x, args, env, fuel) {
            Some((_, env1)) => eval(*y, args, env1, fuel),
            None => None,
        },
    }
}

/// The value of a whole program: `e` evaluated with no locals.
pub open spec fn evaluates_to(e: Expr, args: Seq<i64>, v: i64) -> bool {
    exists|fuel: nat| #[trigger] eval(e, args, Seq::empty(), fuel) matches Some((r, _)) && r == v
}

/// Whether `e` reads argument `i` somewhere: it holds an `Arg(i)` node.
pub open spec fn reads_arg(e: Expr, i: nat) -> bool
    decreases e,
{
    match e {
        Expr::Litr(_) => false,
        Expr::Get(_) => false,
        Expr::Arg(j) => j == i,
        Expr::Add(x, y) => reads_arg(*x, i) || reads_arg(*y, i),
        Expr::Let(x, y) => reads_arg(*x, i) || reads_arg(*y, i),
        Expr::While(x, y) => reads_arg(*x, i) || reads_arg(*y, i),
        Expr::Then(x, y) => reads_arg(*x, i) || reads_arg(*y, i),
        Expr::SetLocal(_, x) => reads_arg(*x, i),
    }
}

/// `spec_argmax(e)` is the number of arguments that `e` needs: every
/// argument it reads is below it, and, unless it is 0, `e` reads the
/// argument just below it, so no smaller count would do.
pub proof fn theorem_argmax_is_least_bound(e: Expr)
    ensures
        forall|i: nat| #[trigger] reads_arg(e, i) ==> i < spec_argmax(e),
        spec_argmax(e) > 0 ==> reads_arg(e, (spec_argmax(e) - 1) as nat),
    decreases e,
{
    match e {
        Expr::Add(x, y) => {
            theorem_argmax_is_least_bound(*x);
            theorem_argmax_is_least_bound(*y);
            assert forall|i: nat| #[trigger] reads_arg(e, i) implies i < spec_argmax(e) by {
                if reads_arg(*x, i) {
                } else {
                    assert(reads_arg(*y, i));
                }
            }
        },
        Expr::Let(x, y) => {
            theorem_argmax_is_least_bound(*x);
            theorem_argmax_is_least_bound(*y);
            assert forall|i: nat| #[trigger] reads_arg(e, i) implies i < spec_argmax(e) by {
                if reads_arg(*x, i) {
                } else {
                    assert(reads_arg(*y, i));
                }
            }
        },
        Expr::While(x, y) => {
            theorem_argmax_is_least_bound(*x);
            theorem_argmax_is_least_bound(*y);
            assert forall|i: nat| #[trigger] reads_arg(e, i) implies i < spec_argmax(e) by {
                if reads_arg(*x, i) {
                } else {
                    assert(reads_arg(*y, i));
                }
            }
        },
        Expr::Then(x, y) => {
            theorem_argmax_is_least_bound(*x);
            theorem_argmax_is_least_bound(*y);
            assert forall|i: nat| #[trigger] reads_arg(e, i) implies i < spec_argmax(e) by {
                if reads_arg(*x, i) {
                } else {
                    assert(reads_arg(*y, i));
                }
            }
        },
        Expr::SetLocal(_, x) => {
            theorem_argmax_is_least_bound(*x);
            assert forall|i: nat| #[trigger] reads_arg(e, i) implies i < spec_argmax(e) by {
                assert(reads_arg(*x, i));
            }
        },
        _ => {},
    }
}

/// Executable form of `spec_argmax`.
pub fn argmax(expr: &Expr) -> (n: usize)
    requires
        spec_argmax(*expr) <= usize::MAX,
    ensures
        n == spec_argmax(*expr),
    decreases expr,
{
    match expr {
        Expr::Litr(_) | Expr::Get(_) => 0,
        Expr::Arg(i) => *i + 1,
        Expr::Add(x, y) | Expr::Let(x, y) | Expr::While(x, y) | Expr::Then(x, y) => {
            let a = argmax(x);
            let b = argmax(y);
            if a >= b {
                a
            } else {
                b
            }
        },
        Expr::SetLocal(_, x) => argmax(x),
    }
}

/// `argmax`, or `None` when the largest argument index is `usize::MAX`.
pub fn try_argmax(expr: &Expr) -> (n: Option<usize>)
    ensures
        n matches Some(k) ==> k == spec_argmax(*expr),
        n is None ==> spec_argmax(*expr) > usize::MAX,
    decreases expr,
{
    match expr {
        Expr::Litr(_) => Some(0),
        Expr::Get(_) => Some(0),
        Expr::Arg(i) => if *i < usize::MAX {
            Some(*i + 1)
        } else {
            None
        },
        Expr::Add(x, y) => max_of(try_argmax(x), try_argmax(y)),
        Expr::Let(x, y) => max_of(try_argmax(x), try_argmax(y)),
        Expr::While(x, y) => max_of(try_argmax(x), try_argmax(y)),
        Expr::Then(x, y) => max_of(try_argmax(x), try_argmax(y)),
        Expr::SetLocal(_, x) => try_argmax(x),
    }
}

fn max_of(a: Option<usize>, b: Option<usize>) -> (m: Option<usize>)
    ensures
        m == match (a, b) {
            (Some(x), Some(y)) => Some(if x >= y { x } else { y }),
            _ => None,
        },
{
    match (a, b) {
        (Some(x), Some(y)) => Some(if x >= y { x } else { y }),
        _ => None,
    }
}

/// Number of nodes of `expr`; `None` when it is more than `usize::MAX`.
pub fn node_count(expr: &Expr) -> (n: Option<usize>)
    ensures
        n matches Some(k) ==> k == size(*expr),
        n is None ==> size(*expr) > usize::MAX,
    decreases expr,
{
    match expr {
        Expr::Litr(_) => Some(1),
        Expr::Arg(_) => Some(1),
        Expr::Get(_) => Some(1),
        Expr::Add(x, y) => sum_of(node_count(x), node_count(y)),
        Expr::Let(x, y) => sum_of(node_count(x), node_count(y)),
        Expr::While(x, y) => sum_of(node_count(x), node_count(y)),
        Expr::Then(x, y) => sum_of(node_count(x), node_count(y)),
        Expr::SetLocal(_, x) => match node_count(x) {
            Some(k) => if k < usize::MAX {
                Some(k + 1)
            } else {
                None
            },
            None => None,
        },
    }
}

/// `1 + a + b`, or `None` when it is more than `usize::MAX` or either is `None`.
fn sum_of(a: Option<usize>, b: Option<usize>) -> (m: Option<usize>)
    ensures
        m matches Some(k) ==> a is Some && b is Some && k == 1 + a->0 + b->0,
        m is None ==> a is None || b is None || 1 + a->0 + b->0 > usize::MAX,
{
    match (a, b) {
        (Some(x), Some(y)) => if x < usize::MAX && y < usize::MAX - x {
            Some(1 + x + y)
        } else {
            None
        },
        _ => None,
    }
}

/// Every local that `e` names is in scope when `d` is above every `usize`.
proof fn lemma_scoped_beyond(e: Expr, d: nat)
    requires
        d > usize::MAX,
    ensures
        scoped(e, d),
    decreases e,
{
    match e {
        Expr::Add(x, y) => {
            lemma_scoped_beyond(*x, d);
            lemma_scoped_beyond(*y, d);
        },
        Expr::Let(x, y) => {
            lemma_scoped_beyond(*x, d);
            lemma_scoped_beyond(*y, d + 1);
        },
        Expr::SetLocal(_, x) => lemma_scoped_beyond(*x, d),
        Expr::While(x, y) => {
            lemma_scoped_beyond(*x, d);
            lemma_scoped_beyond(*y, d);
        },
        Expr::Then(x, y) => {
            lemma_scoped_beyond(*x, d);
            lemma_scoped_beyond(*y, d);
        },
        _ => {},
    }
}

/// Whether every local that `e` names is in scope at `depth`.
pub fn check_scoped(e: &Expr, depth: usize) -> (b: bool)
    ensures
        b == scoped(*e, depth as nat),
    decreases e,
{
    match e {
        Expr::Litr(_) => true,
        Expr::Arg(_) => true,
        Expr::Get(l) => *l < depth,
        Expr::Add(x, y) => check_scoped(x, depth) && check_scoped(y, depth),
        Expr::Let(x, y) => {
            if depth == usize::MAX {
                proof {
                    lemma_scoped_beyond(**y, (depth + 1) as nat);
                }
                check_scoped(x, depth)
            } else {
                check_scoped(x, depth) && check_scoped(y, depth + 1)
            }
        },
        Expr::SetLocal(l, x) => *l < depth && check_scoped(x, depth),
        Expr::While(x, y) => check_scoped(x, depth) && check_scoped(y, depth),
        Expr::Then(x, y) => check_scoped(x, depth) && check_scoped(y, depth),
    }
}

} // verus!
