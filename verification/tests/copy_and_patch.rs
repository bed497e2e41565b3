use vm_perf::aarch64::NOP;
use vm_perf::expr::Expr;
use vm_perf::bytecode_register_become::{decode_at, encode_ops, Insn};
use vm_perf::register_ir::{lower, Op};
use vm_perf::template_jit::{
    check_holes, check_linkable, link, live_bounds, templates, TemplateCode, TemplateCodes, Templates, HOLE_1, HOLE_2, HOLE_3,
    HOLE_IMM,
};
use vm_perf::template_jit_laws::check_chains;
use vm_perf::TemplateJit;

const MOVZ: u32 = 0xD280_0000;
const MOVK_16: u32 = 0xF2A0_0000;
const MOVK_32: u32 = 0xF2C0_0000;
const MOVK_48: u32 = 0xF2E0_0000;
const STR: u32 = 0xF829_7949;
const RET: u32 = 0xD65F_03C0;

const MARKER: usize = 0x9_0000;
const MARKER2: usize = 0x9_0040;

fn chain(v: u64, rd: u32) -> Vec<u32> {
    vec![
        MOVZ | ((v & 0xFFFF) as u32) << 5 | rd,
        MOVK_16 | (((v >> 16) & 0xFFFF) as u32) << 5 | rd,
        MOVK_32 | (((v >> 32) & 0xFFFF) as u32) << 5 | rd,
        MOVK_48 | (((v >> 48) & 0xFFFF) as u32) << 5 | rd,
    ]
}

fn branch(from: usize, to: usize) -> u32 {
    let d = (to as i64 - from as i64) / 4;
    0x1400_0000 | (d as u32 & 0x03FF_FFFF)
}

fn word_at(b: &[u8], i: usize) -> u32 {
    u32::from_le_bytes([b[i], b[i + 1], b[i + 2], b[i + 3]])
}

/// A template loaded at `addr`: its value holes, one store, then a `B` to
/// each of `markers`, the last followed by nothing.
fn template(addr: usize, holes: &[u64], markers: &[usize], tail: Option<u32>) -> TemplateCode {
    let mut words: Vec<u32> = Vec::new();
    for (k, h) in holes.iter().enumerate() {
        words.extend(chain(*h, 9 + k as u32));
    }
    if let Some(t) = tail {
        words.push(t);
    }
    for m in markers {
        let from = addr + 4 * words.len();
        words.push(branch(from, *m));
    }
    TemplateCode { bytes: words.iter().flat_map(|w| w.to_le_bytes()).collect(), live_addr: addr }
}

fn codes() -> TemplateCodes {
    TemplateCodes {
        loadimm: template(0x1_0000, &[HOLE_1, HOLE_IMM], &[MARKER], Some(STR)),
        mov: template(0x2_0000, &[HOLE_1, HOLE_2], &[MARKER], Some(STR)),
        add: template(0x3_0000, &[HOLE_1, HOLE_2, HOLE_3], &[MARKER], Some(STR)),
        addimm: template(0x4_0000, &[HOLE_1, HOLE_2, HOLE_IMM], &[MARKER], Some(STR)),
        jmpzn: template(0x5_0000, &[HOLE_1], &[MARKER, MARKER2], Some(STR)),
        jmp: template(0x6_0000, &[], &[MARKER], None),
        ret: template(0x7_0000, &[HOLE_1], &[], Some(RET)),
        marker_addr: MARKER,
        marker2_addr: MARKER2,
    }
}

fn b(e: Expr) -> Box<Expr> {
    Box::new(e)
}

fn sum_expr() -> Expr {
    Expr::Let(
        b(Expr::Litr(0)),
        b(Expr::Then(
            b(Expr::Let(
                b(Expr::Arg(0)),
                b(Expr::While(
                    b(Expr::Get(0)),
                    b(Expr::Then(
                        b(Expr::SetLocal(1, b(Expr::Add(b(Expr::Get(1)), b(Expr::Arg(1)))))),
                        b(Expr::SetLocal(0, b(Expr::Add(b(Expr::Get(0)), b(Expr::Litr(-1)))))),
                    )),
                )),
            )),
            b(Expr::Get(0)),
        )),
    )
}

fn located() -> Templates {
    let c = codes();
    assert!(check_holes(&c));
    templates(c)
}

#[test]
fn locates_every_hole() {
    let t = located();
    assert_eq!((t.loadimm.dest, t.loadimm.imm, t.loadimm.next), (0, 16, 36));
    assert_eq!((t.mov.dest, t.mov.src, t.mov.next), (0, 16, 36));
    assert_eq!((t.add.dest, t.add.a, t.add.b, t.add.next), (0, 16, 32, 52));
    assert_eq!((t.addimm.dest, t.addimm.a, t.addimm.imm, t.addimm.next), (0, 16, 32, 52));
    assert_eq!((t.jmpzn.reg, t.jmpzn.taken, t.jmpzn.fallthrough), (0, 20, 24));
    assert_eq!(t.jmp.target, 0);
    assert_eq!(t.ret.reg, 0);
    assert_eq!(t.loadimm.base.bytes.len(), 40);
    assert_eq!(t.ret.base.bytes.len(), 20);
}

#[test]
fn missing_holes_are_detected() {
    let mut c = codes();
    c.add = template(0x3_0000, &[HOLE_1, HOLE_2], &[MARKER], Some(STR));
    assert!(!check_holes(&c));
    let mut c = codes();
    c.jmpzn = template(0x5_0000, &[HOLE_1], &[MARKER, MARKER], Some(STR));
    assert!(!check_holes(&c));
    let mut c = codes();
    // The branch is there, but the template is not where it was said to be.
    c.jmp.live_addr = 0x6_0004;
    assert!(!check_holes(&c));
}

#[test]
fn compiles_sum_with_labels() {
    let t = located();
    let prog = TemplateJit::compile(&sum_expr(), &t);
    let expected: Vec<(usize, String)> = vec![
        (0, "i000_loadimm_r2_0".to_string()),
        (40, "i001_move_r3_r0".to_string()),
        (80, "i002_jmpzn_r3_to_i006".to_string()),
        (108, "i003_add_r2_r2_r1".to_string()),
        (164, "i004_addimm_r3_r3_-1".to_string()),
        (220, "i005_jmp_to_i002".to_string()),
        (224, "i006_ret_r2".to_string()),
    ];
    assert_eq!(prog.labels(), &expected[..]);
    assert_eq!(prog.code().len(), 244);
    assert_eq!(prog.num_regs_of(), 4);
    assert_eq!(prog.n_args_of(), 2);
}

#[test]
fn compiled_sum_is_patched() {
    let t = located();
    let prog = TemplateJit::compile(&sum_expr(), &t);
    let code = prog.code();
    // LoadImm(2, 0): both value holes become a single `movz`, the branch goes to the next op.
    assert_eq!(word_at(code, 0), MOVZ | 2 << 5 | 9);
    assert_eq!(word_at(code, 4), NOP);
    assert_eq!(word_at(code, 16), MOVZ | 10);
    assert_eq!(word_at(code, 32), STR);
    assert_eq!(word_at(code, 36), 0x1400_0001);
    // JmpZN(3, 6): taken to the `Ret` at 224, fallthrough to the `Add` at 108.
    assert_eq!(word_at(code, 80), MOVZ | 3 << 5 | 9);
    assert_eq!(word_at(code, 100), branch(100, 224));
    assert_eq!(word_at(code, 104), branch(104, 108));
    // AddImm(3, 3, -1): the immediate is a `movn`.
    assert_eq!(word_at(code, 164 + 32), 0x9280_000B);
    assert_eq!(word_at(code, 164 + 36), NOP);
    // Jmp(2): back to the `JmpZN` at 80.
    assert_eq!(word_at(code, 220), 0x17FF_FFDD);
    // Ret(2).
    assert_eq!(word_at(code, 224), MOVZ | 2 << 5 | 9);
    assert_eq!(word_at(code, 240), RET);
}

#[test]
fn links_an_instruction_list() {
    let t = located();
    let ops = vec![Op::LoadImm(0, 0x1_0000), Op::Move(1, 0), Op::Ret(1)];
    let prog = link(&ops, 2, 0, &t);
    assert_eq!(prog.code().len(), 100);
    assert_eq!(word_at(prog.code(), 16), MOVZ | 10);
    assert_eq!(word_at(prog.code(), 20), MOVK_16 | 1 << 5 | 10);
    assert_eq!(word_at(prog.code(), 24), NOP);
    assert_eq!(word_at(prog.code(), 36), branch(36, 40));
    assert_eq!(word_at(prog.code(), 40), MOVZ | 1 << 5 | 9);
    assert_eq!(word_at(prog.code(), 76), branch(76, 80));
    assert_eq!(prog.num_regs_of(), 2);
    assert_eq!(prog.n_args_of(), 0);
    let labels: Vec<&str> = prog.labels().iter().map(|l| l.1.as_str()).collect();
    assert_eq!(labels, vec!["i000_loadimm_r0_65536", "i001_move_r1_r0", "i002_ret_r1"]);
}

#[test]
fn labels_pad_instruction_numbers() {
    let t = located();
    let mut ops = Vec::new();
    for k in 0..1001usize {
        ops.push(Op::AddImm(0, 0, k as i64 - 500));
    }
    ops.push(Op::JmpZN(0, 1001));
    ops.push(Op::Ret(0));
    let prog = link(&ops, 1, 0, &t);
    let labels = prog.labels();
    assert_eq!(labels[7].1, "i007_addimm_r0_r0_-493");
    assert_eq!(labels[1000], (56000, "i1000_addimm_r0_r0_500".to_string()));
    assert_eq!(labels[1001].1, "i1001_jmpzn_r0_to_i1001");
}

#[test]
fn linkability_of_instruction_lists() {
    let t = located();
    assert!(check_linkable(&vec![Op::LoadImm(0, 1), Op::Ret(0)], &t));
    // The last instruction falls through to nothing.
    assert!(!check_linkable(&vec![Op::Ret(0), Op::LoadImm(0, 1)], &t));
    // A jump to an instruction that is not there.
    assert!(!check_linkable(&vec![Op::Jmp(2), Op::Ret(0)], &t));
    assert!(!check_linkable(&vec![Op::JmpZN(0, 5), Op::Ret(0)], &t));
    assert!(check_linkable(&vec![Op::JmpZN(0, 0), Op::Ret(0)], &t));
    assert!(check_linkable(&vec![], &t));
    // A hole that reaches past the end of its template.
    let mut t = located();
    t.ret.reg = 8;
    assert!(!check_linkable(&vec![Op::Ret(0)], &t));
}

#[test]
fn jit_refuses_what_it_cannot_link() {
    let t = located();
    assert!(TemplateJit::try_compile(&Expr::Get(0), &t).is_none());
    let prog = TemplateJit::try_compile(&sum_expr(), &t).expect("sum links");
    assert_eq!(prog.code().len(), 244);
    let mut t = located();
    t.jmpzn.fallthrough = 26;
    assert!(TemplateJit::try_compile(&sum_expr(), &t).is_none());
}

/// What a `nop` or a 64-bit `movn`/`movz`/`movk` does to its register.
fn run_mov(w: u32, x: u64) -> u64 {
    if w == NOP {
        return x;
    }
    let sh = ((w >> 21) & 3) * 16;
    let imm = ((w >> 5) & 0xFFFF) as u64;
    match (w >> 29) & 3 {
        2 => imm << sh,
        0 => !(imm << sh),
        3 => (x & !(0xFFFFu64 << sh)) | (imm << sh),
        _ => x,
    }
}

#[test]
fn linked_value_holes_hold_the_operands() {
    let t = located();
    let prog = TemplateJit::compile(&sum_expr(), &t);
    let code = prog.code();
    let starts: Vec<usize> = prog.labels().iter().map(|l| l.0).collect();
    // (instruction, hole offsets in its template, operands)
    let holes: Vec<(usize, Vec<usize>, Vec<u64>)> = vec![
        (0, vec![t.loadimm.dest, t.loadimm.imm], vec![2, 0]),
        (1, vec![t.mov.dest, t.mov.src], vec![3, 0]),
        (2, vec![t.jmpzn.reg], vec![3]),
        (3, vec![t.add.dest, t.add.a, t.add.b], vec![2, 2, 1]),
        (4, vec![t.addimm.dest, t.addimm.a, t.addimm.imm], vec![3, 3, -1i64 as u64]),
        (6, vec![t.ret.reg], vec![2]),
    ];
    for (k, offs, vals) in holes {
        for (h, v) in offs.iter().zip(vals) {
            let at = starts[k] + h;
            for x in [0u64, u64::MAX, 0x1234_5678] {
                let r = (0..4).fold(x, |acc, m| run_mov(word_at(code, at + 4 * m), acc));
                assert_eq!(r, v, "instruction {k}, hole at {h}");
            }
        }
    }
}

#[test]
fn located_holes_are_chains() {
    let t = located();
    assert!(check_chains(&t));
    // A hole whose second word is no `movk` on the chain's register.
    let mut t = located();
    let bad = (MOVK_16 | 3 << 5 | 12).to_le_bytes();
    let at = t.add.b + 4;
    t.add.base.bytes[at..at + 4].copy_from_slice(&bad);
    assert!(!check_chains(&t));
    // A hole that reaches past its template.
    let mut t = located();
    t.ret.reg = 8;
    assert!(!check_chains(&t));
}

fn label_of(insn: &Insn, k: usize, t: usize) -> String {
    let head = format!("i{k:03}");
    match *insn {
        Insn::LoadImm(d, x) => format!("{head}_loadimm_r{d}_{x}"),
        Insn::Move(d, s) => format!("{head}_move_r{d}_r{s}"),
        Insn::Add(d, a, c) => format!("{head}_add_r{d}_r{a}_r{c}"),
        Insn::AddImm(d, a, x) => format!("{head}_addimm_r{d}_r{a}_{x}"),
        Insn::JmpZN(r, _) => format!("{head}_jmpzn_r{r}_to_i{t:03}"),
        Insn::Jmp(_) => format!("{head}_jmp_to_i{t:03}"),
        Insn::Ret(r) => format!("{head}_ret_r{r}"),
    }
}

#[test]
fn native_labels_name_the_byte_code_instructions() {
    let t = located();
    let e = sum_expr();
    let prog = TemplateJit::compile(&e, &t);
    let code = encode_ops(&lower(&e).ops);
    let mut starts = Vec::new();
    let mut insns = Vec::new();
    let mut at = 0usize;
    while at < code.len() {
        let insn = decode_at(&code, at).expect("an instruction starts here");
        starts.push(at);
        insns.push(insn);
        at += match insn {
            Insn::LoadImm(..) => 10,
            Insn::Move(..) => 3,
            Insn::Add(..) => 4,
            Insn::AddImm(..) => 11,
            Insn::JmpZN(..) => 6,
            Insn::Jmp(..) => 5,
            Insn::Ret(..) => 2,
        };
    }
    assert_eq!(prog.labels().len(), insns.len());
    for (k, insn) in insns.iter().enumerate() {
        let target = match *insn {
            Insn::JmpZN(_, o) | Insn::Jmp(o) => {
                let dest = (starts[k] as i64 + o as i64) as usize;
                starts.iter().position(|&s| s == dest).expect("jumps land on an instruction")
            },
            _ => 0,
        };
        assert_eq!(prog.labels()[k].1, label_of(insn, k, target));
    }
}

#[test]
fn native_label_offsets_increase_inside_the_code() {
    let t = located();
    let prog = TemplateJit::compile(&sum_expr(), &t);
    let labels = prog.labels();
    assert_eq!(labels[0].0, 0);
    for k in 0..labels.len() {
        assert!(labels[k].0 < prog.code().len());
        assert!(labels[k].1.starts_with(&format!("i{k:03}_")));
        if k > 0 {
            assert!(labels[k - 1].0 < labels[k].0);
        }
    }
    assert!(labels[labels.len() - 1].1.contains("_ret_"));
    assert!(prog.num_regs_of() >= 1 && prog.num_regs_of() >= prog.n_args_of());
}

#[test]
fn symbol_bounds_move_with_the_loaded_image() {
    let bounds = vec![(0x1000usize, 16usize), (0x1100, 8), (0x900, 4)];
    assert_eq!(live_bounds(&bounds, 0x5000), vec![(0x5000, 16), (0x5100, 8), (0x4900, 4)]);
    // A slide towards lower addresses wraps like a machine address.
    let live = live_bounds(&bounds, 0x10);
    assert_eq!(live[0], (0x10, 16));
    assert_eq!(live[1], (0x110, 8));
    assert_eq!(live[2], (0usize.wrapping_sub(0x6F0), 4));
}
