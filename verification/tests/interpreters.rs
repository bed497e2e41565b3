use vm_perf::bytecode_register_become::{check_encodable, decode_at, encode_ops, Insn};
use vm_perf::expr::{argmax, check_scoped, node_count, try_argmax};
use vm_perf::register_ir::{is_lowerable, load_registers, lower, Op};
use vm_perf::{BytecodeRegister, BytecodeRegisterBecome, Expr};

fn b(e: Expr) -> Box<Expr> {
    Box::new(e)
}

// let mut total = 0;
// let mut count = args[0];
// while count > 0 { total = total + args[1]; count = count - 1; }
// total
fn sum_expr() -> Expr {
    Expr::Let(
        b(Expr::Litr(0)),
        b(Expr::Then(
            b(Expr::Let(
                b(Expr::Arg(0)),
                b(Expr::While(
                    b(Expr::Get(0)),
                    b(Expr::Then(
                        b(Expr::SetLocal(1, b(Expr::Add(b(Expr::Get(1)), b(Expr::Arg(1)))))),
                        b(Expr::SetLocal(0, b(Expr::Add(b(Expr::Get(0)), b(Expr::Litr(-1)))))),
                    )),
                )),
            )),
            b(Expr::Get(0)),
        )),
    )
}

const SUM_LISTING: [&str; 8] = [
    "; num_regs = 4, n_args = 2\n",
    "   0: loadimm  r2, 0\n",
    "  10: move     r3, r0\n",
    "  13: jmpzn    r3, 39   ; offset +26\n",
    "  19: add      r2, r2, r1\n",
    "  23: addimm   r3, r3, -1\n",
    "  34: jmp      13   ; offset -21\n",
    "  39: ret      r2\n",
];

#[test]
fn register_vm_runs_sum() {
    let prog = BytecodeRegister::compile(&sum_expr());
    assert_eq!(BytecodeRegister::execute(&prog, &[10000, 13]), 130000);
    assert_eq!(BytecodeRegister::execute(&prog, &[0, 13]), 0);
    assert_eq!(BytecodeRegister::execute(&prog, &[-5, 13]), 0);
    assert_eq!(BytecodeRegister::execute(&prog, &[3, -7]), -21);
}

#[test]
fn register_vm_small_expressions() {
    let lit = BytecodeRegister::compile(&Expr::Litr(42));
    assert_eq!(BytecodeRegister::execute(&lit, &[]), 42);
    let arg = BytecodeRegister::compile(&Expr::Arg(1));
    assert_eq!(BytecodeRegister::execute(&arg, &[5, 7]), 7);
    let let_add = Expr::Let(b(Expr::Litr(5)), b(Expr::Add(b(Expr::Get(0)), b(Expr::Litr(2)))));
    let p = BytecodeRegister::compile(&let_add);
    assert_eq!(BytecodeRegister::execute(&p, &[]), 7);
    let nested = Expr::Add(b(Expr::Add(b(Expr::Arg(0)), b(Expr::Arg(1)))), b(Expr::Arg(0)));
    let p = BytecodeRegister::compile(&nested);
    assert_eq!(BytecodeRegister::execute(&p, &[4, 9]), 17);
}

#[test]
fn become_vm_runs_sum() {
    let prog = BytecodeRegisterBecome::compile(&sum_expr());
    assert_eq!(BytecodeRegisterBecome::execute(&prog, &[10000, 13]), 130000);
    assert_eq!(BytecodeRegisterBecome::execute(&prog, &[1, 13]), 13);
    assert_eq!(BytecodeRegisterBecome::execute(&prog, &[0, 13]), 0);
    assert_eq!(BytecodeRegisterBecome::execute(&prog, &[3, -7]), -21);
}

#[test]
fn become_vm_small_expressions() {
    let lit = BytecodeRegisterBecome::compile(&Expr::Litr(-3));
    assert_eq!(BytecodeRegisterBecome::execute(&lit, &[]), -3);
    let arg = BytecodeRegisterBecome::compile(&Expr::Arg(2));
    assert_eq!(BytecodeRegisterBecome::execute(&arg, &[1, 2, 3]), 3);
    let let_add = Expr::Let(b(Expr::Arg(0)), b(Expr::Add(b(Expr::Get(0)), b(Expr::Arg(0)))));
    let p = BytecodeRegisterBecome::compile(&let_add);
    assert_eq!(BytecodeRegisterBecome::execute(&p, &[21]), 42);
}

#[test]
fn both_vms_agree_with_each_other() {
    let e = sum_expr();
    let p1 = BytecodeRegister::compile(&e);
    let p2 = BytecodeRegisterBecome::compile(&e);
    for args in [[0i64, 1], [1, 1], [7, 3], [100, -2], [-1, 5]] {
        assert_eq!(BytecodeRegister::execute(&p1, &args), BytecodeRegisterBecome::execute(&p2, &args));
    }
}

#[test]
fn become_vm_disassembly_of_sum() {
    let prog = BytecodeRegisterBecome::compile(&sum_expr());
    assert_eq!(prog.to_text(), SUM_LISTING.concat());
}

#[test]
fn become_vm_disassembly_of_literal() {
    let prog = BytecodeRegisterBecome::compile(&Expr::Litr(-9));
    assert_eq!(prog.to_text(), "; num_regs = 1, n_args = 0\n   0: loadimm  r0, -9\n  10: ret      r0\n");
}

#[test]
fn lowering_of_sum() {
    let lowered = lower(&sum_expr());
    let expected = vec![
        Op::LoadImm(2, 0),
        Op::Move(3, 0),
        Op::JmpZN(3, 6),
        Op::Add(2, 2, 1),
        Op::AddImm(3, 3, -1),
        Op::Jmp(2),
        Op::Ret(2),
    ];
    assert_eq!(lowered.ops, expected);
    assert_eq!(lowered.num_regs, 4);
    assert_eq!(lowered.n_args, 2);
}

#[test]
fn lowering_folds_literals_into_destinations() {
    // A `Let` of a literal loads straight into the local's register.
    let lowered = lower(&Expr::Let(b(Expr::Litr(7)), b(Expr::Get(0))));
    assert_eq!(lowered.ops, vec![Op::LoadImm(0, 7), Op::Ret(0)]);
    // An argument read in value position needs no instruction at all.
    let lowered = lower(&Expr::Arg(3));
    assert_eq!(lowered.ops, vec![Op::Ret(3)]);
    assert_eq!(lowered.num_regs, 4);
    assert_eq!(lowered.n_args, 4);
    // An empty program still has one register.
    let lowered = lower(&Expr::Litr(1));
    assert_eq!(lowered.num_regs, 1);
}

#[test]
fn argmax_counts_arguments() {
    assert_eq!(argmax(&Expr::Litr(0)), 0);
    assert_eq!(argmax(&Expr::Arg(0)), 1);
    assert_eq!(argmax(&sum_expr()), 2);
    assert_eq!(argmax(&Expr::SetLocal(0, b(Expr::Arg(6)))), 7);
}

#[test]
fn encoding_of_sum() {
    let lowered = lower(&sum_expr());
    let code = encode_ops(&lowered.ops);
    assert_eq!(code.len(), 41);
    assert_eq!(&code[0..10], &[0, 2, 0, 0, 0, 0, 0, 0, 0, 0]);
    assert_eq!(&code[10..13], &[1, 3, 0]);
    assert_eq!(&code[13..19], &[4, 3, 26, 0, 0, 0]);
    assert_eq!(&code[19..23], &[2, 2, 2, 1]);
    assert_eq!(&code[23..34], &[3, 3, 3, 0xff, 0xff, 0xff, 0xff, 0xff, 0xff, 0xff, 0xff]);
    assert_eq!(&code[34..39], &[5, 0xeb, 0xff, 0xff, 0xff]);
    assert_eq!(&code[39..41], &[6, 2]);
}

#[test]
fn decoding_reads_back_the_encoding() {
    let lowered = lower(&sum_expr());
    let code = encode_ops(&lowered.ops);
    assert_eq!(decode_at(&code, 0), Some(Insn::LoadImm(2, 0)));
    assert_eq!(decode_at(&code, 10), Some(Insn::Move(3, 0)));
    assert_eq!(decode_at(&code, 13), Some(Insn::JmpZN(3, 26)));
    assert_eq!(decode_at(&code, 19), Some(Insn::Add(2, 2, 1)));
    assert_eq!(decode_at(&code, 23), Some(Insn::AddImm(3, 3, -1)));
    assert_eq!(decode_at(&code, 34), Some(Insn::Jmp(-21)));
    assert_eq!(decode_at(&code, 39), Some(Insn::Ret(2)));
}

#[test]
fn decoding_rejects_bad_bytes() {
    // Past the end, an unknown opcode, and a truncated instruction.
    assert_eq!(decode_at(&[6, 0], 2), None);
    assert_eq!(decode_at(&[7, 0, 0], 0), None);
    assert_eq!(decode_at(&[0, 1, 2, 3], 0), None);
    assert_eq!(decode_at(&[5, 1, 0], 0), None);
}

#[test]
fn register_vm_refuses_locals_out_of_scope() {
    assert!(BytecodeRegister::try_compile(&Expr::Get(0)).is_none());
    assert!(BytecodeRegister::try_compile(&Expr::Let(b(Expr::Litr(1)), b(Expr::Get(1)))).is_none());
    assert!(BytecodeRegister::try_compile(&Expr::SetLocal(0, b(Expr::Litr(1)))).is_none());
    let prog = BytecodeRegister::try_compile(&sum_expr()).expect("sum compiles");
    assert_eq!(BytecodeRegister::execute(&prog, &[4, 5]), 20);
}

#[test]
fn become_vm_refuses_what_it_cannot_encode() {
    // A local that is not in scope.
    assert!(BytecodeRegisterBecome::try_compile(&Expr::Get(0)).is_none());
    // A register that does not fit in a byte.
    assert!(BytecodeRegisterBecome::try_compile(&Expr::Arg(300)).is_none());
    assert!(BytecodeRegisterBecome::try_compile(&Expr::Arg(255)).is_some());
    // An argument index with no successor.
    assert!(BytecodeRegisterBecome::try_compile(&Expr::Arg(usize::MAX)).is_none());
    let prog = BytecodeRegisterBecome::try_compile(&sum_expr()).expect("sum compiles");
    assert_eq!(prog.n_args_of(), 2);
    assert_eq!(BytecodeRegisterBecome::execute(&prog, &[4, 5]), 20);
}

#[test]
fn encodability_of_instruction_lists() {
    assert!(check_encodable(&vec![Op::Ret(255)]));
    assert!(!check_encodable(&vec![Op::Ret(256)]));
    assert!(!check_encodable(&vec![Op::Jmp(1)]));
    assert!(check_encodable(&vec![Op::Jmp(0)]));
    assert!(!check_encodable(&vec![Op::LoadImm(0, 1), Op::JmpZN(0, 2)]));
    assert!(check_encodable(&vec![]));
}

#[test]
fn expression_measures() {
    assert_eq!(node_count(&sum_expr()), Some(17));
    assert_eq!(node_count(&Expr::Litr(3)), Some(1));
    assert_eq!(try_argmax(&sum_expr()), Some(2));
    assert_eq!(try_argmax(&Expr::Arg(usize::MAX)), None);
    assert_eq!(try_argmax(&Expr::Add(b(Expr::Arg(4)), b(Expr::Arg(usize::MAX)))), None);
    assert!(check_scoped(&sum_expr(), 0));
    assert!(!check_scoped(&Expr::Get(0), 0));
    assert!(check_scoped(&Expr::Get(0), 1));
    assert!(check_scoped(&Expr::Let(b(Expr::Litr(0)), b(Expr::Get(5))), usize::MAX));
    assert!(is_lowerable(&sum_expr()));
    assert!(!is_lowerable(&Expr::Get(0)));
    assert!(!is_lowerable(&Expr::Arg(usize::MAX)));
    // Every local must be bound by a `Let`.
    assert!(!is_lowerable(&Expr::Add(b(Expr::Arg(0)), b(Expr::Get(0)))));
}

#[test]
fn registers_start_with_the_arguments() {
    assert_eq!(load_registers(4, 2, &[7, 8, 9]), vec![7, 8, 0, 0]);
    assert_eq!(load_registers(1, 0, &[]), vec![0]);
    assert_eq!(load_registers(3, 3, &[1, 2, 3]), vec![1, 2, 3]);
}

#[test]
fn adding_to_a_let_keeps_the_left_operand() {
    let e = Expr::Add(b(Expr::Litr(1)), b(Expr::Let(b(Expr::Litr(2)), b(Expr::Get(0)))));
    let p = BytecodeRegister::compile(&e);
    assert_eq!(BytecodeRegister::execute(&p, &[]), 3);
    let p = BytecodeRegisterBecome::compile(&e);
    assert_eq!(BytecodeRegisterBecome::execute(&p, &[]), 3);
}

#[test]
fn a_local_read_before_it_is_set_keeps_its_old_value() {
    // local + (local = 5), with the local bound to the argument.
    let e = Expr::Let(
        b(Expr::Arg(0)),
        b(Expr::Add(b(Expr::Get(0)), b(Expr::SetLocal(0, b(Expr::Litr(5)))))),
    );
    let p = BytecodeRegister::compile(&e);
    assert_eq!(BytecodeRegister::execute(&p, &[1]), 6);
    let p = BytecodeRegisterBecome::compile(&e);
    assert_eq!(BytecodeRegisterBecome::execute(&p, &[1]), 6);
    // 1 + (local = 5) with the local bound to the argument.
    let e = Expr::Let(
        b(Expr::Arg(0)),
        b(Expr::Add(b(Expr::Litr(1)), b(Expr::SetLocal(0, b(Expr::Litr(5)))))),
    );
    let p = BytecodeRegisterBecome::compile(&e);
    assert_eq!(BytecodeRegisterBecome::execute(&p, &[9]), 6);
}

#[test]
fn lowering_copies_a_left_local_before_an_assignment() {
    let e = Expr::Let(
        b(Expr::Arg(0)),
        b(Expr::Add(b(Expr::Get(0)), b(Expr::SetLocal(0, b(Expr::Litr(5)))))),
    );
    let lowered = lower(&e);
    assert_eq!(
        lowered.ops,
        vec![Op::Move(1, 0), Op::Move(2, 1), Op::LoadImm(1, 5), Op::Add(2, 2, 1), Op::Ret(2)]
    );
}

fn insn_size(i: &Insn) -> usize {
    match i {
        Insn::LoadImm(..) => 10,
        Insn::Move(..) => 3,
        Insn::Add(..) => 4,
        Insn::AddImm(..) => 11,
        Insn::JmpZN(..) => 6,
        Insn::Jmp(..) => 5,
        Insn::Ret(..) => 2,
    }
}

fn insn_regs(i: &Insn) -> Vec<u8> {
    match *i {
        Insn::LoadImm(d, _) => vec![d],
        Insn::Move(d, s) => vec![d, s],
        Insn::Add(d, a, b) => vec![d, a, b],
        Insn::AddImm(d, a, _) => vec![d, a],
        Insn::JmpZN(r, _) => vec![r],
        Insn::Jmp(_) => vec![],
        Insn::Ret(r) => vec![r],
    }
}

#[test]
fn compiled_byte_code_splits_into_instructions() {
    let exprs = vec![
        sum_expr(),
        Expr::Litr(5),
        Expr::Add(b(Expr::Litr(1)), b(Expr::Let(b(Expr::Litr(2)), b(Expr::Get(0))))),
        Expr::Let(b(Expr::Arg(0)), b(Expr::Add(b(Expr::Litr(1)), b(Expr::SetLocal(0, b(Expr::Litr(5))))))),
    ];
    for e in exprs {
        let lowered = lower(&e);
        let code = encode_ops(&lowered.ops);
        let mut starts = Vec::new();
        let mut insns = Vec::new();
        let mut at = 0usize;
        while at < code.len() {
            let insn = decode_at(&code, at).expect("an instruction starts here");
            starts.push(at);
            insns.push(insn);
            at += insn_size(&insn);
        }
        assert_eq!(at, code.len());
        assert_eq!(insns.len(), lowered.ops.len());
        assert!(matches!(insns.last(), Some(Insn::Ret(_))));
        for (k, insn) in insns.iter().enumerate() {
            for r in insn_regs(insn) {
                assert!((r as usize) < lowered.num_regs);
            }
            if let Insn::JmpZN(_, o) | Insn::Jmp(o) = *insn {
                let dest = (starts[k] as i64 + o as i64) as usize;
                assert!(starts.contains(&dest));
            }
        }
    }
}

#[test]
fn a_let_on_the_right_of_an_add_evaluates_in_both_machines() {
    let e = Expr::Let(b(Expr::Arg(0)), b(Expr::Add(b(Expr::Litr(1)), b(Expr::SetLocal(0, b(Expr::Litr(5)))))));
    let p1 = BytecodeRegister::compile(&e);
    let p2 = BytecodeRegisterBecome::compile(&e);
    assert_eq!(BytecodeRegister::execute(&p1, &[9]), 6);
    assert_eq!(BytecodeRegisterBecome::execute(&p2, &[9]), 6);
}

#[test]
fn a_left_local_is_not_copied_when_the_right_operand_leaves_it_alone() {
    let e = Expr::Let(
        b(Expr::Litr(7)),
        b(Expr::Add(b(Expr::Get(0)), b(Expr::Let(b(Expr::Litr(2)), b(Expr::Get(0)))))),
    );
    let lowered = lower(&e);
    assert_eq!(lowered.ops, vec![Op::LoadImm(0, 7), Op::LoadImm(1, 2), Op::Add(1, 0, 1), Op::Ret(1)]);
    assert_eq!(lowered.num_regs, 2);
    let p1 = BytecodeRegister::compile(&e);
    let p2 = BytecodeRegisterBecome::compile(&e);
    assert_eq!(BytecodeRegister::execute(&p1, &[]), 9);
    assert_eq!(BytecodeRegisterBecome::execute(&p2, &[]), 9);
}

#[test]
fn register_programs_say_how_many_arguments_they_load() {
    let p = BytecodeRegister::compile(&Expr::Add(b(Expr::Arg(0)), b(Expr::Arg(2))));
    assert!(p.takes_args(3));
    assert!(p.takes_args(5));
    assert!(!p.takes_args(2));
    assert!(BytecodeRegister::compile(&Expr::Litr(1)).takes_args(0));
}
