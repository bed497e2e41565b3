use crate::aarch64::{
    apply_branch_hole, apply_value_hole, branch_hole_at, branch_target, branch_word, chunk,
    find_branch_hole, is_branch, theorem_branch_word,
    find_value_hole, search_branch_hole, search_value_hole, spec_chunks_ok, value_hole_at,
    value_patch,
};
use crate::expr::Expr;
use crate::le_bytes::{le4, lemma_le4_read, overwrite, read_u32};
use crate::register_ir::{is_lowerable, lower, lowerable, lowered_num_regs, lowered_ops, Op};
use crate::text::{dec, dec_int, pad_left, push_dec, push_dec_zero_padded, push_i64};
use vstd::prelude::*;
use vstd::string::StringExecFns;

verus! {

/// A copy-and-patch compiler: every instruction of the lowered program is
/// the machine code of a template function, copied and patched with the
/// instruction's registers, immediates and successors.
pub struct TemplateJit;

/// Sentinels that the templates load where a register number or an
/// immediate goes; every 16-bit chunk is neither all zeros nor all ones.
pub const HOLE_1: u64 = 0x1111_2222_3333_4445;
pub const HOLE_2: u64 = 0x5555_6666_7777_8889;
pub const HOLE_3: u64 = 0x9999_aaaa_bbbb_cccd;
pub const HOLE_IMM: u64 = 0xdddd_eeee_cdef_1235;

/// The machine code of one template function.
pub struct TemplateInfo {
    pub bytes: Vec<u8>,
}

/// Templates with the byte offsets of their holes: a value hole is the
/// four-instruction `movz`/`movk` chain of a sentinel, a branch hole the
/// `B` to a marker function.
pub struct LoadImmTpl {
    pub base: TemplateInfo,
    pub dest: usize,
    pub imm: usize,
    pub next: usize,
}

pub struct MoveTpl {
    pub base: TemplateInfo,
    pub dest: usize,
    pub src: usize,
    pub next: usize,
}

pub struct AddTpl {
    pub base: TemplateInfo,
    pub dest: usize,
    pub a: usize,
    pub b: usize,
    pub next: usize,
}

pub struct AddImmTpl {
    pub base: TemplateInfo,
    pub dest: usize,
    pub a: usize,
    pub imm: usize,
    pub next: usize,
}

pub struct JmpZnTpl {
    pub base: TemplateInfo,
    pub reg: usize,
    pub taken: usize,
    pub fallthrough: usize,
}

pub struct JmpTpl {
    pub base: TemplateInfo,
    pub target: usize,
}

pub struct RetTpl {
    pub base: TemplateInfo,
    pub reg: usize,
}

pub struct Templates {
    pub loadimm: LoadImmTpl,
    pub mov: MoveTpl,
    pub add: AddTpl,
    pub addimm: AddImmTpl,
    pub jmpzn: JmpZnTpl,
    pub jmp: JmpTpl,
    pub ret: RetTpl,
}

pub open spec fn value_hole_fits(t: &TemplateInfo, off: usize) -> bool {
    off + 16 <= t.bytes@.len()
}

pub open spec fn branch_hole_fits(t: &TemplateInfo, off: usize) -> bool {
    off + 4 <= t.bytes@.len()
}

impl Templates {
    /// Every hole lies inside its template.
    pub open spec fn wf(&self) -> bool {
        &&& value_hole_fits(&self.loadimm.base, self.loadimm.dest)
        &&& value_hole_fits(&self.loadimm.base, self.loadimm.imm)
        &&& branch_hole_fits(&self.loadimm.base, self.loadimm.next)
        &&& value_hole_fits(&self.mov.base, self.mov.dest)
        &&& value_hole_fits(&self.mov.base, self.mov.src)
        &&& branch_hole_fits(&self.mov.base, self.mov.next)
        &&& value_hole_fits(&self.add.base, self.add.dest)
        &&& value_hole_fits(&self.add.base, self.add.a)
        &&& value_hole_fits(&self.add.base, self.add.b)
        &&& branch_hole_fits(&self.add.base, self.add.next)
        &&& value_hole_fits(&self.addimm.base, self.addimm.dest)
        &&& value_hole_fits(&self.addimm.base, self.addimm.a)
        &&& value_hole_fits(&self.addimm.base, self.addimm.imm)
        &&& branch_hole_fits(&self.addimm.base, self.addimm.next)
        &&& value_hole_fits(&self.jmpzn.base, self.jmpzn.reg)
        &&& branch_hole_fits(&self.jmpzn.base, self.jmpzn.taken)
        &&& branch_hole_fits(&self.jmpzn.base, self.jmpzn.fallthrough)
        &&& branch_hole_fits(&self.jmp.base, self.jmp.target)
        &&& value_hole_fits(&self.ret.base, self.ret.reg)
    }

    /// The template that instruction `op` is made of.
    pub open spec fn template_of(&self, op: Op) -> Seq<u8> {
        match op {
            Op::LoadImm(..) => self.loadimm.base.bytes@,
            Op::Move(..) => self.mov.base.bytes@,
            Op::Add(..) => self.add.base.bytes@,
            Op::AddImm(..) => self.addimm.base.bytes@,
            Op::JmpZN(..) => self.jmpzn.base.bytes@,
            Op::Jmp(..) => self.jmp.base.bytes@,
            Op::Ret(..) => self.ret.base.bytes@,
        }
    }
}

/// Byte offset of instruction `k` in the linked code.
pub open spec fn code_offset(ops: Seq<Op>, t: Templates, k: nat) -> nat
    decreases k,
{
    if k == 0 || k > ops.len() {
        0
    } else {
        code_offset(ops, t, (k - 1) as nat) + t.template_of(ops[k - 1]).len()
    }
}

/// Size of the linked code.
pub open spec fn code_len(ops: Seq<Op>, t: Templates) -> nat {
    code_offset(ops, t, ops.len())
}

/// The bytes after writing, at `off` of an instruction placed at `op_base`,
/// a `B` to `target`.
pub open spec fn branch_patch(bytes: Seq<u8>, off: nat, op_base: nat, target: nat) -> Seq<u8> {
    overwrite(bytes, off as int, le4(branch_word((target - (op_base + off)) / 4)))
}

/// A `B` at `off` of an instruction placed at `op_base` can reach `target`.
pub open spec fn branch_ok(off: nat, op_base: nat, target: nat) -> bool {
    &&& (target - (op_base + off)) % 4 == 0
    &&& -0x0200_0000 <= (target - (op_base + off)) / 4 < 0x0200_0000
}

/// The patched template of instruction `k`: its register numbers and
/// immediates in the value holes, and branches to its successors in the
/// branch holes, as `link` writes them.
#[verifier::opaque]
pub open spec fn patched_op(ops: Seq<Op>, t: Templates, k: nat) -> Seq<u8> {
    let start = code_offset(ops, t, k);
    let next = code_offset(ops, t, k + 1);
    match ops[k as int] {
        Op::LoadImm(dest, imm) => branch_patch(
            value_patch(
                value_patch(t.loadimm.base.bytes@, t.loadimm.dest as int, dest as u64),
                t.loadimm.imm as int,
                imm as u64,
            ),
            t.loadimm.next as nat,
            start,
            next,
        ),
        Op::Move(dest, src) => branch_patch(
            value_patch(
                value_patch(t.mov.base.bytes@, t.mov.dest as int, dest as u64),
                t.mov.src as int,
                src as u64,
            ),
            t.mov.next as nat,
            start,
            next,
        ),
        Op::Add(dest, a, b) => branch_patch(
            value_patch(
                value_patch(
                    value_patch(t.add.base.bytes@, t.add.dest as int, dest as u64),
                    t.add.a as int,
                    a as u64,
                ),
                t.add.b as int,
                b as u64,
            ),
            t.add.next as nat,
            start,
            next,
        ),
        Op::AddImm(dest, a, imm) => branch_patch(
            value_patch(
                value_patch(
                    value_patch(t.addimm.base.bytes@, t.addimm.dest as int, dest as u64),
                    t.addimm.a as int,
                    a as u64,
                ),
                t.addimm.imm as int,
                imm as u64,
            ),
            t.addimm.next as nat,
            start,
            next,
        ),
        Op::JmpZN(reg, target) => branch_patch(
            branch_patch(
                value_patch(t.jmpzn.base.bytes@, t.jmpzn.reg as int, reg as u64),
                t.jmpzn.taken as nat,
                start,
                code_offset(ops, t, target as nat),
            ),
            t.jmpzn.fallthrough as nat,
            start,
            next,
        ),
        Op::Jmp(target) => branch_patch(
            t.jmp.base.bytes@,
            t.jmp.target as nat,
            start,
            code_offset(ops, t, target as nat),
        ),
        Op::Ret(reg) => value_patch(t.ret.base.bytes@, t.ret.reg as int, reg as u64),
    }
}

/// The linked code of the first `n` instructions.
pub open spec fn linked_prefix(ops: Seq<Op>, t: Templates, n: nat) -> Seq<u8>
    decreases n,
{
    if n == 0 || n > ops.len() {
        Seq::empty()
    } else {
        linked_prefix(ops, t, (n - 1) as nat) + patched_op(ops, t, (n - 1) as nat)
    }
}

/// The linked code of a whole instruction list.
pub open spec fn linked_code(ops: Seq<Op>, t: Templates) -> Seq<u8> {
    linked_prefix(ops, t, ops.len())
}

/// Instruction `k` can be linked: its successor and jump target are
/// instructions, and every branch it needs can reach.
pub open spec fn op_linkable(ops: Seq<Op>, t: Templates, k: nat) -> bool {
    let start = code_offset(ops, t, k);
    let next = code_offset(ops, t, k + 1);
    match ops[k as int] {
        Op::LoadImm(..) => k + 1 < ops.len() && branch_ok(t.loadimm.next as nat, start, next),
        Op::Move(..) => k + 1 < ops.len() && branch_ok(t.mov.next as nat, start, next),
        Op::Add(..) => k + 1 < ops.len() && branch_ok(t.add.next as nat, start, next),
        Op::AddImm(..) => k + 1 < ops.len() && branch_ok(t.addimm.next as nat, start, next),
        Op::JmpZN(_, target) => {
            &&& k + 1 < ops.len()
            &&& target < ops.len()
            &&& branch_ok(t.jmpzn.taken as nat, start, code_offset(ops, t, target as nat))
            &&& branch_ok(t.jmpzn.fallthrough as nat, start, next)
        },
        Op::Jmp(target) => target < ops.len() && branch_ok(
            t.jmp.target as nat,
            start,
            code_offset(ops, t, target as nat),
        ),
        Op::Ret(_) => true,
    }
}

/// The instruction list can be linked with these templates.
pub open spec fn linkable(ops: Seq<Op>, t: Templates) -> bool {
    &&& t.wf()
    &&& code_len(ops, t) <= usize::MAX
    &&& forall|k: nat| k < ops.len() ==> #[trigger] op_linkable(ops, t, k)
}

/// The label of instruction `k`: its index (three digits at least), its
/// mnemonic and its operands.
pub open spec fn label(ops: Seq<Op>, k: nat) -> Seq<char> {
    label_op(ops[k as int], k)
}

/// The label of instruction `op` at index `k`.
pub open spec fn label_op(op: Op, k: nat) -> Seq<char> {
    let head = "i"@ + pad_left(dec(k), 3, '0');
    match op {
        Op::LoadImm(dest, imm) => head + "_loadimm_r"@ + dec(dest as nat) + "_"@ + dec_int(
            imm as int,
        ),
        Op::Move(dest, src) => head + "_move_r"@ + dec(dest as nat) + "_r"@ + dec(src as nat),
        Op::Add(dest, a, b) => head + "_add_r"@ + dec(dest as nat) + "_r"@ + dec(a as nat) + "_r"@
            + dec(b as nat),
        Op::AddImm(dest, a, imm) => head + "_addimm_r"@ + dec(dest as nat) + "_r"@ + dec(a as nat)
            + "_"@ + dec_int(imm as int),
        Op::JmpZN(reg, target) => head + "_jmpzn_r"@ + dec(reg as nat) + "_to_i"@ + pad_left(
            dec(target as nat),
            3,
            '0',
        ),
        Op::Jmp(target) => head + "_jmp_to_i"@ + pad_left(dec(target as nat), 3, '0'),
        Op::Ret(reg) => head + "_ret_r"@ + dec(reg as nat),
    }
}

/// A linked program: the machine code (position independent: every branch
/// is relative), the register file size, the number of preloaded arguments,
/// and the byte offset and label of every instruction.
pub struct Program {
    code: Vec<u8>,
    num_regs: usize,
    n_args: usize,
    labels: Vec<(usize, String)>,
}

impl Program {
    pub closed spec fn spec_code(&self) -> Seq<u8> {
        self.code@
    }

    pub closed spec fn num_regs(&self) -> nat {
        self.num_regs as nat
    }

    pub closed spec fn n_args(&self) -> nat {
        self.n_args as nat
    }

    pub closed spec fn spec_labels(&self) -> Seq<(usize, Seq<char>)> {
        self.labels@.map_values(|l: (usize, String)| (l.0, l.1@))
    }

    /// The compiled machine code.
    pub fn code(&self) -> (c: &[u8])
        ensures
            c@ == self.spec_code(),
    {
        self.code.as_slice()
    }

    /// (byte offset, description) for each compiled instruction's start, in order.
    pub fn labels(&self) -> (l: &[(usize, String)])
        ensures
            l@.map_values(|x: (usize, String)| (x.0, x.1@)) == self.spec_labels(),
    {
        self.labels.as_slice()
    }

    /// Number of registers an execution needs.
    pub fn num_regs_of(&self) -> (n: usize)
        ensures
            n as nat == self.num_regs(),
    {
        self.num_regs
    }

    /// Number of arguments that go into registers `0..n_args` before the code runs.
    pub fn n_args_of(&self) -> (n: usize)
        ensures
            n as nat == self.n_args(),
    {
        self.n_args
    }
}


proof fn lemma_code_offset_mono(ops: Seq<Op>, t: Templates, j: nat, k: nat)
    requires
        j <= k <= ops.len(),
    ensures
        code_offset(ops, t, j) <= code_offset(ops, t, k),
    decreases k,
{
    if j < k {
        lemma_code_offset_mono(ops, t, j, (k - 1) as nat);
    }
}

proof fn lemma_patched_op_len(ops: Seq<Op>, t: Templates, k: nat)
    requires
        k < ops.len(),
    ensures
        patched_op(ops, t, k).len() == t.template_of(ops[k as int]).len(),
{
    reveal(patched_op);
}

proof fn lemma_linked_prefix_len(ops: Seq<Op>, t: Templates, n: nat)
    requires
        n <= ops.len(),
    ensures
        linked_prefix(ops, t, n).len() == code_offset(ops, t, n),
    decreases n,
{
    if n > 0 {
        lemma_linked_prefix_len(ops, t, (n - 1) as nat);
        lemma_patched_op_len(ops, t, (n - 1) as nat);
    }
}

fn copy_bytes(src: &Vec<u8>) -> (dst: Vec<u8>)
    ensures
        dst@ == src@,
{
    let mut dst: Vec<u8> = Vec::new();
    let mut i: usize = 0;
    while i < src.len()
        invariant
            i <= src@.len(),
            dst@ == src@.subrange(0, i as int),
        decreases src@.len() - i,
    {
        dst.push(src[i]);
        i += 1;
        assert(dst@ =~= src@.subrange(0, i as int));
    }
    assert(dst@ =~= src@);
    dst
}

fn template_len(t: &Templates, op: &Op) -> (n: usize)
    ensures
        n as nat == t.template_of(*op).len(),
{
    match op {
        Op::LoadImm(..) => t.loadimm.base.bytes.len(),
        Op::Move(..) => t.mov.base.bytes.len(),
        Op::Add(..) => t.add.base.bytes.len(),
        Op::AddImm(..) => t.addimm.base.bytes.len(),
        Op::JmpZN(..) => t.jmpzn.base.bytes.len(),
        Op::Jmp(..) => t.jmp.base.bytes.len(),
        Op::Ret(..) => t.ret.base.bytes.len(),
    }
}

/// The label of instruction `i`.
fn describe(i: usize, op: &Op) -> (s: String)
    ensures
        s@ == label_op(*op, i as nat),
{
    let mut s = String::from_str("i");
    push_dec_zero_padded(&mut s, i as u128, 3);
    match *op {
        Op::LoadImm(dest, imm) => {
            s.append("_loadimm_r");
            push_dec(&mut s, dest as u128);
            s.append("_");
            push_i64(&mut s, imm);
        },
        Op::Move(dest, src) => {
            s.append("_move_r");
            push_dec(&mut s, dest as u128);
            s.append("_r");
            push_dec(&mut s, src as u128);
        },
        Op::Add(dest, a, b) => {
            s.append("_add_r");
            push_dec(&mut s, dest as u128);
            s.append("_r");
            push_dec(&mut s, a as u128);
            s.append("_r");
            push_dec(&mut s, b as u128);
        },
        Op::AddImm(dest, a, imm) => {
            s.append("_addimm_r");
            push_dec(&mut s, dest as u128);
            s.append("_r");
            push_dec(&mut s, a as u128);
            s.append("_");
            push_i64(&mut s, imm);
        },
        Op::JmpZN(reg, target) => {
            s.append("_jmpzn_r");
            push_dec(&mut s, reg as u128);
            s.append("_to_i");
            push_dec_zero_padded(&mut s, target as u128, 3);
        },
        Op::Jmp(target) => {
            s.append("_jmp_to_i");
            push_dec_zero_padded(&mut s, target as u128, 3);
        },
        Op::Ret(reg) => {
            s.append("_ret_r");
            push_dec(&mut s, reg as u128);
        },
    }
    s
}

/// The byte offset of every instruction in the linked code.
fn code_offsets(ops: &Vec<Op>, t: &Templates) -> (res: Vec<usize>)
    requires
        code_len(ops@, *t) <= usize::MAX,
    ensures
        res@.len() == ops@.len(),
        forall|k: int| 0 <= k < ops@.len() ==> res@[k] as nat == code_offset(ops@, *t, k as nat),
{
    let mut offset: Vec<usize> = Vec::new();
    let mut cursor: usize = 0;
    let mut i: usize = 0;
    while i < ops.len()
        invariant
            i <= ops@.len(),
            offset@.len() == i,
            cursor as nat == code_offset(ops@, *t, i as nat),
            code_len(ops@, *t) <= usize::MAX,
            forall|k: int| 0 <= k < i ==> offset@[k] as nat == code_offset(ops@, *t, k as nat),
        decreases ops@.len() - i,
    {
        offset.push(cursor);
        proof {
            lemma_code_offset_mono(ops@, *t, (i + 1) as nat, ops@.len());
        }
        cursor = cursor + template_len(t, &ops[i]);
        i = i + 1;
    }
    offset
}

fn value_fits(t: &TemplateInfo, off: usize) -> (b: bool)
    ensures
        b == value_hole_fits(t, off),
{
    off <= t.bytes.len() && t.bytes.len() - off >= 16
}

fn branch_fits_in(t: &TemplateInfo, off: usize) -> (b: bool)
    ensures
        b == branch_hole_fits(t, off),
{
    off <= t.bytes.len() && t.bytes.len() - off >= 4
}

/// Whether every hole lies inside its template.
pub fn check_templates_wf(t: &Templates) -> (b: bool)
    ensures
        b == t.wf(),
{
    value_fits(&t.loadimm.base, t.loadimm.dest) && value_fits(&t.loadimm.base, t.loadimm.imm)
        && branch_fits_in(&t.loadimm.base, t.loadimm.next) && value_fits(&t.mov.base, t.mov.dest)
        && value_fits(&t.mov.base, t.mov.src) && branch_fits_in(&t.mov.base, t.mov.next)
        && value_fits(&t.add.base, t.add.dest) && value_fits(&t.add.base, t.add.a) && value_fits(
        &t.add.base,
        t.add.b,
    ) && branch_fits_in(&t.add.base, t.add.next) && value_fits(&t.addimm.base, t.addimm.dest)
        && value_fits(&t.addimm.base, t.addimm.a) && value_fits(&t.addimm.base, t.addimm.imm)
        && branch_fits_in(&t.addimm.base, t.addimm.next) && value_fits(&t.jmpzn.base, t.jmpzn.reg)
        && branch_fits_in(&t.jmpzn.base, t.jmpzn.taken) && branch_fits_in(
        &t.jmpzn.base,
        t.jmpzn.fallthrough,
    ) && branch_fits_in(&t.jmp.base, t.jmp.target) && value_fits(&t.ret.base, t.ret.reg)
}

/// The byte offset of every instruction and, last, the size of the code;
/// `None` when the size is beyond `usize::MAX`.
fn checked_code_offsets(ops: &Vec<Op>, t: &Templates) -> (res: Option<Vec<usize>>)
    ensures
        res matches Some(v) ==> {
            &&& v@.len() == ops@.len() + 1
            &&& forall|j: int|
                0 <= j <= ops@.len() ==> v@[j] as nat == code_offset(ops@, *t, j as nat)
        },
        res is None ==> code_len(ops@, *t) > usize::MAX,
{
    let mut v: Vec<usize> = Vec::new();
    let mut cursor: usize = 0;
    let mut i: usize = 0;
    while i < ops.len()
        invariant
            i <= ops@.len(),
            v@.len() == i,
            cursor as nat == code_offset(ops@, *t, i as nat),
            forall|j: int| 0 <= j < i ==> v@[j] as nat == code_offset(ops@, *t, j as nat),
        decreases ops@.len() - i,
    {
        v.push(cursor);
        let n = template_len(t, &ops[i]);
        if cursor > usize::MAX - n {
            proof {
                lemma_code_offset_mono(ops@, *t, (i + 1) as nat, ops@.len());
            }
            return None;
        }
        cursor = cursor + n;
        i = i + 1;
    }
    v.push(cursor);
    Some(v)
}

/// Whether a `B` at `off` of an instruction placed at `op_base` can reach
/// `target`.
fn branch_fits(off: usize, op_base: usize, target: usize) -> (b: bool)
    requires
        op_base + off <= usize::MAX,
    ensures
        b == branch_ok(off as nat, op_base as nat, target as nat),
{
    let from = op_base + off;
    if target >= from {
        let d = target - from;
        d % 4 == 0 && d / 4 < 0x0200_0000
    } else {
        let d = from - target;
        let ghost x: int = target - from;
        assert(x % 4 == 0 <==> d % 4 == 0);
        assert(d % 4 == 0 ==> x / 4 == -(d / 4));
        d % 4 == 0 && d / 4 <= 0x0200_0000
    }
}

/// Whether instruction `k` can be linked.
fn op_links(ops: &Vec<Op>, t: &Templates, offs: &Vec<usize>, k: usize) -> (b: bool)
    requires
        t.wf(),
        k < ops@.len(),
        offs@.len() == ops@.len() + 1,
        forall|j: int| 0 <= j <= ops@.len() ==> offs@[j] as nat == code_offset(ops@, *t, j as nat),
    ensures
        b == op_linkable(ops@, *t, k as nat),
{
    let n = ops.len();
    let start = offs[k];
    let next = offs[k + 1];
    let more = k + 1 < n;
    match ops[k] {
        Op::LoadImm(..) => more && branch_fits(t.loadimm.next, start, next),
        Op::Move(..) => more && branch_fits(t.mov.next, start, next),
        Op::Add(..) => more && branch_fits(t.add.next, start, next),
        Op::AddImm(..) => more && branch_fits(t.addimm.next, start, next),
        Op::JmpZN(_, target) => more && target < ops.len() && branch_fits(
            t.jmpzn.taken,
            start,
            offs[target],
        ) && branch_fits(t.jmpzn.fallthrough, start, next),
        Op::Jmp(target) => target < ops.len() && branch_fits(t.jmp.target, start, offs[target]),
        Op::Ret(_) => true,
    }
}

/// Whether `link` can take `ops` with the templates `t`.
pub fn check_linkable(ops: &Vec<Op>, t: &Templates) -> (b: bool)
    ensures
        b == linkable(ops@, *t),
{
    if !check_templates_wf(t) {
        return false;
    }
    let offs = match checked_code_offsets(ops, t) {
        Some(v) => v,
        None => {
            return false;
        },
    };
    assert(offs@[ops@.len() as int] as nat == code_offset(ops@, *t, ops@.len()));
    let mut k: usize = 0;
    while k < ops.len()
        invariant
            k <= ops@.len(),
            t.wf(),
            code_len(ops@, *t) <= usize::MAX,
            offs@.len() == ops@.len() + 1,
            forall|j: int|
                0 <= j <= ops@.len() ==> offs@[j] as nat == code_offset(ops@, *t, j as nat),
            forall|j: nat| j < k ==> #[trigger] op_linkable(ops@, *t, j),
        decreases ops@.len() - k,
    {
        if !op_links(ops, t, &offs, k) {
            return false;
        }
        assert forall|j: nat| j < k + 1 implies #[trigger] op_linkable(ops@, *t, j) by {
            if j == k {
                assert(op_linkable(ops@, *t, k as nat));
            }
        }
        k = k + 1;
    }
    true
}

/// Links an instruction list: each instruction's template, copied one after
/// the other and patched with its operands and successors.
pub fn link(ops: &Vec<Op>, num_regs: usize, n_args: usize, t: &Templates) -> (prog: Program)
    requires
        linkable(ops@, *t),
    ensures
        prog.spec_code() == linked_code(ops@, *t),
        prog.num_regs() == num_regs,
        prog.n_args() == n_args,
        prog.spec_labels().len() == ops@.len(),
        forall|k: int|
            0 <= k < ops@.len() ==> #[trigger] prog.spec_labels()[k] == (
                code_offset(ops@, *t, k as nat) as usize,
                label(ops@, k as nat),
            ),
{
    let offset = code_offsets(ops, t);
    let mut labels: Vec<(usize, String)> = Vec::new();
    let mut i: usize = 0;
    while i < ops.len()
        invariant
            i <= ops@.len(),
            offset@.len() == ops@.len(),
            forall|k: int| 0 <= k < ops@.len() ==> offset@[k] as nat == code_offset(ops@, *t, k as nat),
            labels@.len() == i,
            forall|k: int|
                0 <= k < i ==> #[trigger] labels@[k].0 == offset@[k] && labels@[k].1@ == label(
                    ops@,
                    k as nat,
                ),
        decreases ops@.len() - i,
    {
        labels.push((offset[i], describe(i, &ops[i])));
        i = i + 1;
    }
    let mut code: Vec<u8> = Vec::new();
    let mut i: usize = 0;
    while i < ops.len()
        invariant
            i <= ops@.len(),
            linkable(ops@, *t),
            offset@.len() == ops@.len(),
            forall|k: int| 0 <= k < ops@.len() ==> offset@[k] as nat == code_offset(ops@, *t, k as nat),
            code@ == linked_prefix(ops@, *t, i as nat),
        decreases ops@.len() - i,
    {
        assert(op_linkable(ops@, *t, i as nat));
        proof {
            lemma_code_offset_mono(ops@, *t, (i + 1) as nat, ops@.len());
        }
        let start = offset[i];
        let dst_addr = start;
        let mut dst: Vec<u8>;
        match ops[i] {
            Op::LoadImm(dest, imm) => {
                dst = copy_bytes(&t.loadimm.base.bytes);
                apply_value_hole(&mut dst, t.loadimm.dest, dest as u64);
                apply_value_hole(&mut dst, t.loadimm.imm, imm as u64);
                apply_branch_hole(&mut dst, t.loadimm.next, dst_addr, offset[i + 1]);
            },
            Op::Move(dest, src) => {
                dst = copy_bytes(&t.mov.base.bytes);
                apply_value_hole(&mut dst, t.mov.dest, dest as u64);
                apply_value_hole(&mut dst, t.mov.src, src as u64);
                apply_branch_hole(&mut dst, t.mov.next, dst_addr, offset[i + 1]);
            },
            Op::Add(dest, a, b) => {
                dst = copy_bytes(&t.add.base.bytes);
                apply_value_hole(&mut dst, t.add.dest, dest as u64);
                apply_value_hole(&mut dst, t.add.a, a as u64);
                apply_value_hole(&mut dst, t.add.b, b as u64);
                apply_branch_hole(&mut dst, t.add.next, dst_addr, offset[i + 1]);
            },
            Op::AddImm(dest, a, imm) => {
                dst = copy_bytes(&t.addimm.base.bytes);
                apply_value_hole(&mut dst, t.addimm.dest, dest as u64);
                apply_value_hole(&mut dst, t.addimm.a, a as u64);
                apply_value_hole(&mut dst, t.addimm.imm, imm as u64);
                apply_branch_hole(&mut dst, t.addimm.next, dst_addr, offset[i + 1]);
            },
            Op::JmpZN(reg, target) => {
                dst = copy_bytes(&t.jmpzn.base.bytes);
                apply_value_hole(&mut dst, t.jmpzn.reg, reg as u64);
                apply_branch_hole(&mut dst, t.jmpzn.taken, dst_addr, offset[target]);
                apply_branch_hole(&mut dst, t.jmpzn.fallthrough, dst_addr, offset[i + 1]);
            },
            Op::Jmp(target) => {
                dst = copy_bytes(&t.jmp.base.bytes);
                apply_branch_hole(&mut dst, t.jmp.target, dst_addr, offset[target]);
            },
            Op::Ret(reg) => {
                dst = copy_bytes(&t.ret.base.bytes);
                apply_value_hole(&mut dst, t.ret.reg, reg as u64);
            },
        }
        assert(dst@ == patched_op(ops@, *t, i as nat)) by {
            reveal(patched_op);
        }
        code.append(&mut dst);
        i = i + 1;
    }
    let prog = Program { code, num_regs, n_args, labels };
    assert forall|k: int| 0 <= k < ops@.len() implies #[trigger] prog.spec_labels()[k] == (
        code_offset(ops@, *t, k as nat) as usize,
        label(ops@, k as nat),
    ) by {
        assert(prog.spec_labels()[k] == (labels@[k].0, labels@[k].1@));
    }
    prog
}

impl TemplateJit {
    /// Compiles `expr`: the lowered instructions of `expr`, linked with the
    /// templates `t`.
    pub fn compile(expr: &Expr, t: &Templates) -> (prog: Program)
        requires
            lowerable(*expr),
            linkable(lowered_ops(*expr), *t),
        ensures
            prog.spec_code() == linked_code(lowered_ops(*expr), *t),
            prog.num_regs() == lowered_num_regs(*expr),
            prog.n_args() == crate::expr::spec_argmax(*expr),
            prog.spec_labels().len() == lowered_ops(*expr).len(),
            forall|k: int|
                0 <= k < lowered_ops(*expr).len() ==> #[trigger] prog.spec_labels()[k] == (
                    code_offset(lowered_ops(*expr), *t, k as nat) as usize,
                    label(lowered_ops(*expr), k as nat),
                ),
    {
        let lowered = lower(expr);
        link(&lowered.ops, lowered.num_regs, lowered.n_args, t)
    }
}

impl TemplateJit {
    /// `compile`, or `None` when `lower` cannot take `expr` or its
    /// instructions cannot be linked with `t` (a hole outside its template, a
    /// branch beyond the reach of a `B`, code larger than `usize::MAX`).
    pub fn try_compile(expr: &Expr, t: &Templates) -> (res: Option<Program>)
        ensures
            res is Some <==> lowerable(*expr) && linkable(lowered_ops(*expr), *t),
            res matches Some(prog) ==> {
                &&& prog.spec_code() == linked_code(lowered_ops(*expr), *t)
                &&& prog.num_regs() == lowered_num_regs(*expr)
                &&& prog.n_args() == crate::expr::spec_argmax(*expr)
                &&& prog.spec_labels().len() == lowered_ops(*expr).len()
                &&& forall|k: int|
                    0 <= k < lowered_ops(*expr).len() ==> #[trigger] prog.spec_labels()[k] == (
                        code_offset(lowered_ops(*expr), *t, k as nat) as usize,
                        label(lowered_ops(*expr), k as nat),
                    )
            },
    {
        if !is_lowerable(expr) {
            return None;
        }
        let lowered = lower(expr);
        if check_linkable(&lowered.ops, t) {
            Some(Self::compile(expr, t))
        } else {
            None
        }
    }
}

/// No chunk of a sentinel is all zeros or all ones.
pub proof fn theorem_holes_chunks_ok()
    ensures
        spec_chunks_ok(HOLE_1),
        spec_chunks_ok(HOLE_2),
        spec_chunks_ok(HOLE_3),
        spec_chunks_ok(HOLE_IMM),
{
    assert forall|v: u64| #![trigger spec_chunks_ok(v)]
        v == HOLE_1 || v == HOLE_2 || v == HOLE_3 || v == HOLE_IMM implies spec_chunks_ok(v) by {
        assert((v == 0x1111_2222_3333_4445u64 || v == 0x5555_6666_7777_8889u64 || v
            == 0x9999_aaaa_bbbb_cccdu64 || v == 0xdddd_eeee_cdef_1235u64) ==> (v as u16 != 0 && v
            as u16 != 0xFFFF && (v >> 16u64) as u16 != 0 && (v >> 16u64) as u16 != 0xFFFF && (v
            >> 32u64) as u16 != 0 && (v >> 32u64) as u16 != 0xFFFF && (v >> 48u64) as u16 != 0
            && (v >> 48u64) as u16 != 0xFFFF)) by (bit_vector);
        assert forall|k: int| 0 <= k < 4 implies chunk(v, k) != 0 && chunk(v, k) != 0xFFFF by {}
    }
}

/// The machine code of a template function and the address it is loaded at.
pub struct TemplateCode {
    pub bytes: Vec<u8>,
    pub live_addr: usize,
}

/// The template functions and the addresses of the two marker functions
/// that their branch holes go to.
pub struct TemplateCodes {
    pub loadimm: TemplateCode,
    pub mov: TemplateCode,
    pub add: TemplateCode,
    pub addimm: TemplateCode,
    pub jmpzn: TemplateCode,
    pub jmp: TemplateCode,
    pub ret: TemplateCode,
    pub marker_addr: usize,
    pub marker2_addr: usize,
}

pub open spec fn has_value_hole(c: &TemplateCode, sentinel: u64) -> bool {
    exists|j: int| j % 4 == 0 && #[trigger] value_hole_at(c.bytes@, j, sentinel)
}

pub open spec fn has_branch_hole(c: &TemplateCode, marker: usize) -> bool {
    exists|j: int|
        j % 4 == 0 && #[trigger] branch_hole_at(c.bytes@, j, c.live_addr as int, marker as int)
}

/// `i` is the first 4-aligned value hole for `sentinel`.
pub open spec fn first_value_hole(bytes: Seq<u8>, i: usize, sentinel: u64) -> bool {
    &&& i % 4 == 0
    &&& value_hole_at(bytes, i as int, sentinel)
    &&& forall|j: int| 0 <= j < i && j % 4 == 0 ==> !#[trigger] value_hole_at(bytes, j, sentinel)
}

/// `i` is the first 4-aligned `B` to `marker` of a template living at `addr`.
pub open spec fn first_branch_hole(bytes: Seq<u8>, i: usize, addr: usize, marker: usize) -> bool {
    &&& i % 4 == 0
    &&& branch_hole_at(bytes, i as int, addr as int, marker as int)
    &&& forall|j: int|
        0 <= j < i && j % 4 == 0 ==> !#[trigger] branch_hole_at(bytes, j, addr as int, marker as int)
}

/// Every template has the holes that linking patches.
pub open spec fn holes_present(c: &TemplateCodes) -> bool {
    &&& has_value_hole(&c.loadimm, HOLE_1)
    &&& has_value_hole(&c.loadimm, HOLE_IMM)
    &&& has_branch_hole(&c.loadimm, c.marker_addr)
    &&& has_value_hole(&c.mov, HOLE_1)
    &&& has_value_hole(&c.mov, HOLE_2)
    &&& has_branch_hole(&c.mov, c.marker_addr)
    &&& has_value_hole(&c.add, HOLE_1)
    &&& has_value_hole(&c.add, HOLE_2)
    &&& has_value_hole(&c.add, HOLE_3)
    &&& has_branch_hole(&c.add, c.marker_addr)
    &&& has_value_hole(&c.addimm, HOLE_1)
    &&& has_value_hole(&c.addimm, HOLE_2)
    &&& has_value_hole(&c.addimm, HOLE_IMM)
    &&& has_branch_hole(&c.addimm, c.marker_addr)
    &&& has_value_hole(&c.jmpzn, HOLE_1)
    &&& has_branch_hole(&c.jmpzn, c.marker_addr)
    &&& has_branch_hole(&c.jmpzn, c.marker2_addr)
    &&& has_branch_hole(&c.jmp, c.marker_addr)
    &&& has_value_hole(&c.ret, HOLE_1)
}

fn value_hole_present(c: &TemplateCode, sentinel: u64) -> (b: bool)
    ensures
        b == has_value_hole(c, sentinel),
{
    search_value_hole(c.bytes.as_slice(), sentinel).is_some()
}

fn branch_hole_present(c: &TemplateCode, marker: usize) -> (b: bool)
    ensures
        b == has_branch_hole(c, marker),
{
    let r = search_branch_hole(c.bytes.as_slice(), c.live_addr, marker);
    proof {
        if let Some(i) = r {
            assert(branch_hole_at(c.bytes@, i as int, c.live_addr as int, marker as int));
        }
    }
    r.is_some()
}

/// Whether every template has the holes that linking patches.
pub fn check_holes(c: &TemplateCodes) -> (b: bool)
    ensures
        b == holes_present(c),
{
    value_hole_present(&c.loadimm, HOLE_1) && value_hole_present(&c.loadimm, HOLE_IMM)
        && branch_hole_present(&c.loadimm, c.marker_addr) && value_hole_present(&c.mov, HOLE_1)
        && value_hole_present(&c.mov, HOLE_2) && branch_hole_present(&c.mov, c.marker_addr)
        && value_hole_present(&c.add, HOLE_1) && value_hole_present(&c.add, HOLE_2)
        && value_hole_present(&c.add, HOLE_3) && branch_hole_present(&c.add, c.marker_addr)
        && value_hole_present(&c.addimm, HOLE_1) && value_hole_present(&c.addimm, HOLE_2)
        && value_hole_present(&c.addimm, HOLE_IMM) && branch_hole_present(&c.addimm, c.marker_addr)
        && value_hole_present(&c.jmpzn, HOLE_1) && branch_hole_present(&c.jmpzn, c.marker_addr)
        && branch_hole_present(&c.jmpzn, c.marker2_addr) && branch_hole_present(
        &c.jmp,
        c.marker_addr,
    ) && value_hole_present(&c.ret, HOLE_1)
}

/// Address `a` moved by the slide that takes `from` to `to`: `a + to -
/// from`, wrapped into the range of a machine address.
pub open spec fn slid(a: usize, from: usize, to: usize) -> int {
    let x = a + to - from;
    if x < 0 {
        x + usize::MAX + 1
    } else if x > usize::MAX {
        x - usize::MAX - 1
    } else {
        x
    }
}

proof fn lemma_slid(a: usize, from: usize, to: usize)
    ensures
        vstd::wrapping::usize_specs::wrapping_add(
            a,
            vstd::wrapping::usize_specs::wrapping_sub(to, from),
        ) as int == slid(a, from, to),
{
    let d = vstd::wrapping::usize_specs::wrapping_sub(to, from);
    if to - from < 0 {
        assert(d as int == to - from + usize::MAX + 1);
    } else {
        assert(d as int == to - from);
    }
}

/// The file addresses and lengths of symbols, moved to where the image is
/// loaded: `anchor_live` is the loaded address of the first symbol, and
/// every address moves by the same amount, wrapping as machine addresses do.
pub fn live_bounds(bounds: &Vec<(usize, usize)>, anchor_live: usize) -> (live: Vec<(usize, usize)>)
    requires
        bounds.len() >= 1,
    ensures
        live.len() == bounds.len(),
        forall|i: int|
            0 <= i < bounds.len() ==> #[trigger] live[i].1 == bounds[i].1 && live[i].0 as int
                == slid(bounds[i].0, bounds[0].0, anchor_live),
{
    let d = anchor_live.wrapping_sub(bounds[0].0);
    let mut live: Vec<(usize, usize)> = Vec::new();
    let mut i: usize = 0;
    while i < bounds.len()
        invariant
            i <= bounds.len(),
            bounds.len() >= 1,
            d == vstd::wrapping::usize_specs::wrapping_sub(anchor_live, bounds[0].0),
            live.len() == i,
            forall|j: int|
                0 <= j < i ==> #[trigger] live[j].1 == bounds[j].1 && live[j].0 as int == slid(
                    bounds[j].0,
                    bounds[0].0,
                    anchor_live,
                ),
        decreases bounds.len() - i,
    {
        let (a, n) = bounds[i];
        proof {
            lemma_slid(a, bounds[0].0, anchor_live);
        }
        live.push((a.wrapping_add(d), n));
        i = i + 1;
    }
    live
}

/// Locates the holes of every template: the first chain of each sentinel
/// and the first branch to each marker.
#[verifier::rlimit(80)]
#[verifier::spinoff_prover]
pub fn templates(c: TemplateCodes) -> (t: Templates)
    requires
        holes_present(&c),
    ensures
        t.wf(),
        t.loadimm.base.bytes@ == c.loadimm.bytes@,
        t.mov.base.bytes@ == c.mov.bytes@,
        t.add.base.bytes@ == c.add.bytes@,
        t.addimm.base.bytes@ == c.addimm.bytes@,
        t.jmpzn.base.bytes@ == c.jmpzn.bytes@,
        t.jmp.base.bytes@ == c.jmp.bytes@,
        t.ret.base.bytes@ == c.ret.bytes@,
        first_value_hole(c.loadimm.bytes@, t.loadimm.dest, HOLE_1),
        first_value_hole(c.loadimm.bytes@, t.loadimm.imm, HOLE_IMM),
        first_branch_hole(c.loadimm.bytes@, t.loadimm.next, c.loadimm.live_addr, c.marker_addr),
        first_value_hole(c.mov.bytes@, t.mov.dest, HOLE_1),
        first_value_hole(c.mov.bytes@, t.mov.src, HOLE_2),
        first_branch_hole(c.mov.bytes@, t.mov.next, c.mov.live_addr, c.marker_addr),
        first_value_hole(c.add.bytes@, t.add.dest, HOLE_1),
        first_value_hole(c.add.bytes@, t.add.a, HOLE_2),
        first_value_hole(c.add.bytes@, t.add.b, HOLE_3),
        first_branch_hole(c.add.bytes@, t.add.next, c.add.live_addr, c.marker_addr),
        first_value_hole(c.addimm.bytes@, t.addimm.dest, HOLE_1),
        first_value_hole(c.addimm.bytes@, t.addimm.a, HOLE_2),
        first_value_hole(c.addimm.bytes@, t.addimm.imm, HOLE_IMM),
        first_branch_hole(c.addimm.bytes@, t.addimm.next, c.addimm.live_addr, c.marker_addr),
        first_value_hole(c.jmpzn.bytes@, t.jmpzn.reg, HOLE_1),
        first_branch_hole(c.jmpzn.bytes@, t.jmpzn.taken, c.jmpzn.live_addr, c.marker_addr),
        first_branch_hole(c.jmpzn.bytes@, t.jmpzn.fallthrough, c.jmpzn.live_addr, c.marker2_addr),
        first_branch_hole(c.jmp.bytes@, t.jmp.target, c.jmp.live_addr, c.marker_addr),
        first_value_hole(c.ret.bytes@, t.ret.reg, HOLE_1),
        c.marker_addr != c.marker2_addr ==> (t.jmpzn.taken + 4 <= t.jmpzn.fallthrough
            || t.jmpzn.fallthrough + 4 <= t.jmpzn.taken),
{
    let marker_addr = c.marker_addr;
    let marker2_addr = c.marker2_addr;
    let loadimm_next = find_branch_hole(c.loadimm.bytes.as_slice(), c.loadimm.live_addr, marker_addr);
    let loadimm = LoadImmTpl {
        dest: find_value_hole(c.loadimm.bytes.as_slice(), HOLE_1),
        imm: find_value_hole(c.loadimm.bytes.as_slice(), HOLE_IMM),
        next: loadimm_next,
        base: TemplateInfo { bytes: c.loadimm.bytes },
    };
    let mov_next = find_branch_hole(c.mov.bytes.as_slice(), c.mov.live_addr, marker_addr);
    let mov = MoveTpl {
        dest: find_value_hole(c.mov.bytes.as_slice(), HOLE_1),
        src: find_value_hole(c.mov.bytes.as_slice(), HOLE_2),
        next: mov_next,
        base: TemplateInfo { bytes: c.mov.bytes },
    };
    let add_next = find_branch_hole(c.add.bytes.as_slice(), c.add.live_addr, marker_addr);
    let add = AddTpl {
        dest: find_value_hole(c.add.bytes.as_slice(), HOLE_1),
        a: find_value_hole(c.add.bytes.as_slice(), HOLE_2),
        b: find_value_hole(c.add.bytes.as_slice(), HOLE_3),
        next: add_next,
        base: TemplateInfo { bytes: c.add.bytes },
    };
    let addimm_next = find_branch_hole(c.addimm.bytes.as_slice(), c.addimm.live_addr, marker_addr);
    let addimm = AddImmTpl {
        dest: find_value_hole(c.addimm.bytes.as_slice(), HOLE_1),
        a: find_value_hole(c.addimm.bytes.as_slice(), HOLE_2),
        imm: find_value_hole(c.addimm.bytes.as_slice(), HOLE_IMM),
        next: addimm_next,
        base: TemplateInfo { bytes: c.addimm.bytes },
    };
    let jmpzn_taken = find_branch_hole(c.jmpzn.bytes.as_slice(), c.jmpzn.live_addr, marker_addr);
    let jmpzn_fallthrough = find_branch_hole(
        c.jmpzn.bytes.as_slice(),
        c.jmpzn.live_addr,
        marker2_addr,
    );
    let jmpzn = JmpZnTpl {
        reg: find_value_hole(c.jmpzn.bytes.as_slice(), HOLE_1),
        taken: jmpzn_taken,
        fallthrough: jmpzn_fallthrough,
        base: TemplateInfo { bytes: c.jmpzn.bytes },
    };
    let jmp_target = find_branch_hole(c.jmp.bytes.as_slice(), c.jmp.live_addr, marker_addr);
    let jmp = JmpTpl { target: jmp_target, base: TemplateInfo { bytes: c.jmp.bytes } };
    let ret = RetTpl {
        reg: find_value_hole(c.ret.bytes.as_slice(), HOLE_1),
        base: TemplateInfo { bytes: c.ret.bytes },
    };
    Templates { loadimm, mov, add, addimm, jmpzn, jmp, ret }
}

/// In linked code, instruction `k`'s patched template stands at its code
/// offset.
pub proof fn theorem_linked_op(ops: Seq<Op>, t: Templates, k: nat)
    requires
        k < ops.len(),
    ensures
        linked_code(ops, t).len() == code_len(ops, t),
        code_offset(ops, t, k + 1) == code_offset(ops, t, k) + patched_op(ops, t, k).len(),
        forall|j: int|
            0 <= j < patched_op(ops, t, k).len() ==> #[trigger] linked_code(ops, t)[code_offset(
                ops,
                t,
                k,
            ) + j] == patched_op(ops, t, k)[j],
{
    lemma_linked_prefix_len(ops, t, ops.len());
    lemma_patched_op_len(ops, t, k);
    lemma_linked_holds_op(ops, t, k, ops.len());
}

proof fn lemma_linked_holds_op(ops: Seq<Op>, t: Templates, k: nat, n: nat)
    requires
        k < n <= ops.len(),
    ensures
        forall|j: int|
            0 <= j < patched_op(ops, t, k).len() ==> #[trigger] linked_prefix(ops, t, n)[code_offset(
                ops,
                t,
                k,
            ) + j] == patched_op(ops, t, k)[j],
    decreases n,
{
    lemma_linked_prefix_len(ops, t, (n - 1) as nat);
    lemma_patched_op_len(ops, t, k);
    if n > k + 1 {
        lemma_linked_holds_op(ops, t, k, (n - 1) as nat);
        lemma_code_offset_mono(ops, t, k + 1, (n - 1) as nat);
    }
}

/// A patched branch hole is a `B` that, from where it sits, goes to its
/// target.
pub proof fn theorem_branch_patch(bytes: Seq<u8>, off: nat, op_base: nat, target: nat)
    requires
        off + 4 <= bytes.len(),
        branch_ok(off, op_base, target),
    ensures
        is_branch(read_u32(branch_patch(bytes, off, op_base, target), off as int)),
        branch_target(
            (op_base + off) as int,
            read_u32(branch_patch(bytes, off, op_base, target), off as int),
        ) == target,
{
    let w = branch_word((target - (op_base + off)) / 4);
    let p = branch_patch(bytes, off, op_base, target);
    lemma_le4_read(w);
    assert(read_u32(p, off as int) == read_u32(le4(w), 0));
    theorem_branch_word((op_base + off) as int, target as int);
}
/// A word of an instruction's patched template reads the same in the
/// linked code.
pub proof fn lemma_read_linked(ops: Seq<Op>, t: Templates, k: nat, h: nat)
    requires
        k < ops.len(),
        h + 4 <= patched_op(ops, t, k).len(),
    ensures
        code_offset(ops, t, k) + h + 4 <= linked_code(ops, t).len(),
        read_u32(linked_code(ops, t), (code_offset(ops, t, k) + h) as int) == read_u32(
            patched_op(ops, t, k),
            h as int,
        ),
{
    theorem_linked_op(ops, t, k);
    lemma_code_offset_mono(ops, t, k + 1, ops.len());
    let s0 = code_offset(ops, t, k) as int;
    let hi = h as int;
    let c = linked_code(ops, t);
    let p = patched_op(ops, t, k);
    assert(c[s0 + hi] == p[hi]);
    assert(c[s0 + (hi + 1)] == p[hi + 1]);
    assert(c[s0 + (hi + 2)] == p[hi + 2]);
    assert(c[s0 + (hi + 3)] == p[hi + 3]);
}

} // verus!
