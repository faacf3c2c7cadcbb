//! What recovered source means, against what the instructions do.
//!
//! A [`Meaning`] says what Lua's constants, variables and operators stand
//! for; nothing is assumed of it but what [`sound`] asks. [`value`] is the
//! value of an expression under a meaning. The functions whose names start
//! with `machine_` say what LuaJIT's instructions do to registers. The laws
//! relate the two: an expression that recovery records for a register has
//! the value that the machine computes into that register.

use vstd::prelude::*;

use crate::ir;
use crate::ir::{GcConstV, Instruction, NumConst, Opcode, ProtoV};
use crate::structure::ast::{BinOpKind, ExprV};
use crate::structure::condition;
use crate::structure::lower;
use crate::structure::lower::Env;
use crate::structure::operand;
use crate::text;

verus! {

/// What constants, variables and operators stand for.
#[verifier::reject_recursive_types(V)]
pub struct Meaning<V> {
    pub of_int: spec_fn(int) -> V,
    pub of_float: spec_fn(u64) -> V,
    pub of_bytes: spec_fn(Seq<u8>) -> V,
    pub of_name: spec_fn(Seq<char>) -> V,
    pub of_bool: spec_fn(bool) -> V,
    pub nil: V,
    pub varargs: V,
    pub variable: spec_fn(Seq<char>) -> V,
    pub global: spec_fn(Seq<char>) -> V,
    pub plus: spec_fn(V, V) -> V,
    pub minus: spec_fn(V, V) -> V,
    pub times: spec_fn(V, V) -> V,
    pub over: spec_fn(V, V) -> V,
    pub modulo: spec_fn(V, V) -> V,
    pub raised: spec_fn(V, V) -> V,
    pub joined: spec_fn(V, V) -> V,
    pub equal: spec_fn(V, V) -> bool,
    pub less: spec_fn(V, V) -> bool,
    pub at_most: spec_fn(V, V) -> bool,
    pub truthy: spec_fn(V) -> bool,
    pub item: spec_fn(V, V) -> V,
    pub length: spec_fn(V) -> V,
    /// Calls, table literals and function literals.
    pub literal: spec_fn(ExprV) -> V,
}

/// Whether booleans are as true as they say, and one value is at most
/// another exactly when that is not less.
pub open spec fn sound<V>(m: Meaning<V>) -> bool {
    &&& forall|b: bool| #[trigger] (m.truthy)((m.of_bool)(b)) == b
    &&& forall|x: V, y: V| #[trigger] (m.at_most)(x, y) == !(m.less)(y, x)
}

/// What a binary operator gives for two values.
pub open spec fn applied<V>(m: Meaning<V>, op: BinOpKind, x: V, y: V) -> V {
    match op {
        BinOpKind::Add => (m.plus)(x, y),
        BinOpKind::Sub => (m.minus)(x, y),
        BinOpKind::Mul => (m.times)(x, y),
        BinOpKind::Div => (m.over)(x, y),
        BinOpKind::Mod => (m.modulo)(x, y),
        BinOpKind::Pow => (m.raised)(x, y),
        BinOpKind::Concat => (m.joined)(x, y),
        BinOpKind::Equal => (m.of_bool)((m.equal)(x, y)),
        BinOpKind::NotEqual => (m.of_bool)(!(m.equal)(x, y)),
        BinOpKind::LessThan => (m.of_bool)((m.less)(x, y)),
        BinOpKind::GreaterThan => (m.of_bool)((m.less)(y, x)),
        BinOpKind::LessEqual => (m.of_bool)((m.at_most)(x, y)),
        BinOpKind::GreaterEqual => (m.of_bool)((m.at_most)(y, x)),
    }
}

/// The value of an expression.
pub open spec fn value<V>(m: Meaning<V>, e: ExprV) -> V
    decreases e,
{
    match e {
        ExprV::Var(name) => (m.variable)(name),
        ExprV::Int(i) => (m.of_int)(i as int),
        ExprV::Float(bits) => (m.of_float)(bits),
        ExprV::Str(bytes) => (m.of_bytes)(bytes),
        ExprV::Nil => m.nil,
        ExprV::True => (m.of_bool)(true),
        ExprV::False => (m.of_bool)(false),
        ExprV::BinOp { op, left, right } => applied(m, op, value(m, *left), value(m, *right)),
        ExprV::Not(inner) => (m.of_bool)(!(m.truthy)(value(m, *inner))),
        ExprV::Global(name) => (m.global)(name),
        ExprV::And(left, right) => if (m.truthy)(value(m, *left)) {
            value(m, *right)
        } else {
            value(m, *left)
        },
        ExprV::Or(left, right) => if (m.truthy)(value(m, *left)) {
            value(m, *left)
        } else {
            value(m, *right)
        },
        ExprV::Field { obj, name } => (m.item)(value(m, *obj), (m.of_name)(name)),
        ExprV::Index { obj, key } => (m.item)(value(m, *obj), value(m, *key)),
        ExprV::Len(inner) => (m.length)(value(m, *inner)),
        ExprV::Vararg => m.varargs,
        _ => (m.literal)(e),
    }
}

/// Whether an expression holds.
pub open spec fn holds<V>(m: Meaning<V>, e: ExprV) -> bool {
    (m.truthy)(value(m, e))
}

/// Whether every recorded expression has the value of its register.
pub open spec fn agrees<V>(m: Meaning<V>, slots: Map<u8, ExprV>, regs: spec_fn(int) -> V) -> bool {
    forall|r: int|
        (#[trigger] operand::operand(slots, r)) matches Ok(e) ==> value(m, e) == regs(r)
}

/// Whether an expression is recorded for a register.
pub open spec fn known(slots: Map<u8, ExprV>, r: int) -> bool {
    operand::operand(slots, r) is Ok
}

// ---- Constants -----------------------------------------------------------------

/// The number constant `i`.
pub open spec fn machine_number<V>(m: Meaning<V>, p: ProtoV, i: int) -> V {
    match p.num_consts[i] {
        NumConst::Int(n) => (m.of_int)(n as int),
        NumConst::Num(bits) => (m.of_float)(bits),
    }
}

/// The string constant `i`, counted from the end of the table, if there
/// is one.
pub open spec fn machine_string(p: ProtoV, i: int) -> Option<Seq<u8>> {
    if 0 <= i < p.gc_consts.len() {
        match p.gc_consts[p.gc_consts.len() - 1 - i] {
            GcConstV::Str(bytes) => Some(bytes),
            _ => None,
        }
    } else {
        None
    }
}

/// The primitive with the tag `i`.
pub open spec fn machine_primitive<V>(m: Meaning<V>, i: int) -> V {
    if i == 0 {
        m.nil
    } else {
        (m.of_bool)(i == 2)
    }
}

/// The D operand as a signed number.
pub open spec fn machine_short(inst: Instruction) -> int {
    let d = inst.b_or_d % 0x1_0000;
    if d >= 0x8000 {
        d - 0x1_0000
    } else {
        d as int
    }
}

/// The B operand, which is also the low byte of D.
pub open spec fn machine_b(inst: Instruction) -> int {
    (inst.b_or_d % 0x100) as int
}

/// The D operand.
pub open spec fn machine_d(inst: Instruction) -> int {
    (inst.b_or_d % 0x1_0000) as int
}

// ---- Computed values ---------------------------------------------------------------

/// Whether an opcode is arithmetic. There are three groups of five, with
/// a register and a constant, a constant and a register, and two
/// registers.
pub open spec fn machine_arithmetic(op: Opcode) -> bool {
    0x16 <= ir::opcode_byte(op) <= 0x24
}

/// Which of the three groups an arithmetic opcode is in.
pub open spec fn machine_group(op: Opcode) -> int {
    (ir::opcode_byte(op) - 0x16) / 5
}

/// What an arithmetic instruction computes. Each group has addition,
/// subtraction, multiplication, division and remainder, in this order.
pub open spec fn machine_arith<V>(
    m: Meaning<V>,
    p: ProtoV,
    regs: spec_fn(int) -> V,
    inst: Instruction,
) -> V {
    let group = machine_group(inst.op);
    let place = (ir::opcode_byte(inst.op) - 0x16) % 5;
    let x = if group == 1 {
        machine_number(m, p, machine_b(inst))
    } else {
        regs(machine_b(inst))
    };
    let y = if group == 0 {
        machine_number(m, p, inst.c as int)
    } else {
        regs(inst.c as int)
    };
    if place == 0 {
        (m.plus)(x, y)
    } else if place == 1 {
        (m.minus)(x, y)
    } else if place == 2 {
        (m.times)(x, y)
    } else if place == 3 {
        (m.over)(x, y)
    } else {
        (m.modulo)(x, y)
    }
}

/// The registers from `b` to `c` joined, from the last back to the first.
pub open spec fn machine_cat<V>(m: Meaning<V>, regs: spec_fn(int) -> V, b: int, c: int) -> V
    decreases c - b,
{
    if b < c {
        (m.joined)(regs(b), machine_cat(m, regs, b + 1, c))
    } else {
        regs(c)
    }
}

/// What an instruction computes into register A.
pub open spec fn machine_result<V>(
    m: Meaning<V>,
    p: ProtoV,
    regs: spec_fn(int) -> V,
    inst: Instruction,
) -> V {
    match inst.op {
        Opcode::Mov => regs(machine_b(inst)),
        Opcode::Len => (m.length)(regs(machine_b(inst))),
        Opcode::Pow => (m.raised)(regs(machine_b(inst)), regs(inst.c as int)),
        Opcode::Cat => machine_cat(m, regs, machine_b(inst), inst.c as int),
        Opcode::Kshort => (m.of_int)(machine_short(inst)),
        Opcode::Knum => machine_number(m, p, machine_d(inst)),
        Opcode::Kstr => (m.of_bytes)(machine_string(p, machine_d(inst))->Some_0),
        Opcode::Kpri => machine_primitive(m, machine_d(inst)),
        Opcode::Gget => (m.global)(text::utf8_lossy(machine_string(p, machine_d(inst))->Some_0)),
        Opcode::Tgetv => (m.item)(regs(machine_b(inst)), regs(inst.c as int)),
        Opcode::Tgets => (m.item)(
            regs(machine_b(inst)),
            (m.of_name)(text::utf8_lossy(machine_string(p, inst.c as int)->Some_0)),
        ),
        Opcode::Tgetb => (m.item)(regs(machine_b(inst)), (m.of_int)(inst.c as int)),
        Opcode::Varg => m.varargs,
        _ => machine_arith(m, p, regs, inst),
    }
}

/// Whether an instruction computes a value that [`machine_result`] says.
pub open spec fn machine_computes(op: Opcode) -> bool {
    machine_arithmetic(op) || op == Opcode::Mov || op == Opcode::Len || op == Opcode::Pow || op
        == Opcode::Cat || op == Opcode::Kshort || op == Opcode::Knum || op == Opcode::Kstr || op
        == Opcode::Kpri || op == Opcode::Gget || op == Opcode::Tgetv || op == Opcode::Tgets || op
        == Opcode::Tgetb || op == Opcode::Varg
}

/// Whether all that an instruction reads is there.
pub open spec fn machine_reads(p: ProtoV, slots: Map<u8, ExprV>, inst: Instruction) -> bool {
    match inst.op {
        Opcode::Mov | Opcode::Len => known(slots, machine_b(inst)),
        Opcode::Pow | Opcode::Tgetv => known(slots, machine_b(inst)) && known(
            slots,
            inst.c as int,
        ),
        Opcode::Cat => machine_b(inst) <= inst.c && forall|r: int|
            machine_b(inst) <= r <= inst.c ==> known(slots, r),
        Opcode::Kshort => true,
        Opcode::Knum => machine_d(inst) < p.num_consts.len(),
        Opcode::Kstr | Opcode::Gget => machine_string(p, machine_d(inst)) is Some,
        Opcode::Kpri => machine_d(inst) <= 2,
        Opcode::Tgets => known(slots, machine_b(inst)) && machine_string(p, inst.c as int) is Some,
        Opcode::Tgetb => known(slots, machine_b(inst)),
        Opcode::Varg => machine_b(inst) == 0 || machine_b(inst) == 2,
        _ => {
            &&& if machine_group(inst.op) == 1 {
                machine_b(inst) < p.num_consts.len()
            } else {
                known(slots, machine_b(inst))
            }
            &&& if machine_group(inst.op) == 0 {
                inst.c < p.num_consts.len()
            } else {
                known(slots, inst.c as int)
            }
        },
    }
}

/// A concatenation has the value of its registers joined.
proof fn lemma_cat<V>(
    m: Meaning<V>,
    slots: Map<u8, ExprV>,
    regs: spec_fn(int) -> V,
    b: int,
    c: int,
)
    requires
        agrees(m, slots, regs),
        b <= c,
    ensures
        lower::concat_expr(slots, b, c) is Ok <==> forall|r: int| b <= r <= c ==> known(slots, r),
        lower::concat_expr(slots, b, c) matches Ok(e) ==> value(m, e) == machine_cat(m, regs, b, c),
    decreases c - b,
{
    if b < c {
        lemma_cat(m, slots, regs, b + 1, c);
        if lower::concat_expr(slots, b, c) is Ok {
            assert(known(slots, b));
        } else if known(slots, b) {
            let r = choose|r: int| b + 1 <= r <= c && !known(slots, r);
            assert(!known(slots, r));
        } else {
            assert(!known(slots, b));
        }
    } else {
        if lower::concat_expr(slots, b, c) is Err {
            assert(!known(slots, b));
        }
    }
}

/// The expression that an instruction computes has the value that the
/// machine computes from its registers and constants, and there is one
/// exactly when all that the instruction reads is there.
pub proof fn law_computed_value<V>(
    m: Meaning<V>,
    env: Env,
    slots: Map<u8, ExprV>,
    regs: spec_fn(int) -> V,
    inst: Instruction,
)
    requires
        agrees(m, slots, regs),
        machine_computes(inst.op),
    ensures
        lower::op_computes(inst.op),
        lower::computed(env, slots, inst) is Ok <==> machine_reads(env.proto(), slots, inst),
        lower::computed(env, slots, inst) matches Ok(e) ==> value(m, e) == machine_result(
            m,
            env.proto(),
            regs,
            inst,
        ),
{
    let p = env.proto();
    reveal_with_fuel(value, 3);
    if inst.op == Opcode::Cat {
        if machine_b(inst) <= inst.c {
            lemma_cat(m, slots, regs, machine_b(inst), inst.c as int);
        }
    }
    if inst.op == Opcode::Kpri {
        assert(machine_d(inst) == ir::inst_d(inst));
    }
}

// ---- Tests -------------------------------------------------------------------------

/// Whether a comparison or truth test of the machine succeeds, so that
/// the jump behind it is taken.
pub open spec fn machine_test<V>(
    m: Meaning<V>,
    p: ProtoV,
    regs: spec_fn(int) -> V,
    inst: Instruction,
) -> bool {
    let a = regs(inst.a as int);
    let d = regs(machine_b(inst));
    match inst.op {
        Opcode::Islt => (m.less)(a, d),
        Opcode::Isge => !(m.less)(a, d),
        Opcode::Isle => (m.at_most)(a, d),
        Opcode::Isgt => !(m.at_most)(a, d),
        Opcode::Iseqv => (m.equal)(a, d),
        Opcode::Isnev => !(m.equal)(a, d),
        Opcode::Iseqs => (m.equal)(a, (m.of_bytes)(machine_string(p, machine_d(inst))->Some_0)),
        Opcode::Isnes => !(m.equal)(a, (m.of_bytes)(machine_string(p, machine_d(inst))->Some_0)),
        Opcode::Iseqn => (m.equal)(a, machine_number(m, p, machine_d(inst))),
        Opcode::Isnen => !(m.equal)(a, machine_number(m, p, machine_d(inst))),
        Opcode::Iseqp => (m.equal)(a, machine_primitive(m, machine_d(inst))),
        Opcode::Isnep => !(m.equal)(a, machine_primitive(m, machine_d(inst))),
        Opcode::Isf => !(m.truthy)(d),
        _ => (m.truthy)(d),
    }
}

/// Whether an opcode is a comparison or truth test without a copy.
pub open spec fn machine_tests(op: Opcode) -> bool {
    ir::opcode_byte(op) <= 0x0b || op == Opcode::Ist || op == Opcode::Isf
}

/// Whether all that a test reads is there.
pub open spec fn machine_test_reads(p: ProtoV, slots: Map<u8, ExprV>, inst: Instruction) -> bool {
    let byte = ir::opcode_byte(inst.op);
    if byte <= 0x05 {
        known(slots, inst.a as int) && known(slots, machine_b(inst))
    } else if byte <= 0x07 {
        known(slots, inst.a as int) && machine_string(p, machine_d(inst)) is Some
    } else if byte <= 0x09 {
        known(slots, inst.a as int) && machine_d(inst) < p.num_consts.len()
    } else if byte <= 0x0b {
        known(slots, inst.a as int) && machine_d(inst) <= 2
    } else {
        known(slots, machine_b(inst))
    }
}

/// The test expression of an instruction holds exactly when the machine
/// takes the jump behind it, and the source condition exactly when it
/// does not. Both can be built exactly when all that the test reads is
/// there.
pub proof fn law_conditions_follow_the_jump<V>(
    m: Meaning<V>,
    p: ProtoV,
    slots: Map<u8, ExprV>,
    regs: spec_fn(int) -> V,
    inst: Instruction,
)
    requires
        sound(m),
        agrees(m, slots, regs),
        machine_tests(inst.op),
    ensures
        condition::test_expr(p, slots, inst) is Ok <==> machine_test_reads(p, slots, inst),
        condition::cond_expr(p, slots, inst) is Ok <==> machine_test_reads(p, slots, inst),
        condition::test_expr(p, slots, inst) matches Ok(e) ==> holds(m, e) == machine_test(
            m,
            p,
            regs,
            inst,
        ),
        condition::cond_expr(p, slots, inst) matches Ok(e) ==> holds(m, e) == !machine_test(
            m,
            p,
            regs,
            inst,
        ),
{
    reveal_with_fuel(value, 3);
    assert(condition::d_slot(inst) == machine_b(inst));
    assert(machine_d(inst) == ir::inst_d(inst));
}

} // verus!
