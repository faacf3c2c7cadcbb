//! Conditions: what the ISxx tests lower to.

use std::collections::HashMap;

use vstd::prelude::*;

use crate::ir;
use crate::ir::{Instruction, Opcode, Proto, ProtoV};
use crate::structure::ast::{BinOpKind, Expr, ExprV};
use crate::structure::operand;
use crate::structure::operand::{
    build_num_const_expr, build_pri_expr, build_str_expr, lookup_operand,
};
use crate::DecompilerError;
use crate::Fault;

verus! {

/// The register that the low byte of D names.
pub open spec fn d_slot(inst: Instruction) -> int {
    (ir::inst_d(inst) % 0x100) as int
}

/// Whether an opcode compares two registers.
pub open spec fn op_compares_slots(op: Opcode) -> bool {
    matches!(
            op,
            Opcode::Islt
                | Opcode::Isge
                | Opcode::Isle
                | Opcode::Isgt
                | Opcode::Iseqv
                | Opcode::Isnev
        )
}

/// Whether an opcode compares a register with a constant.
pub open spec fn op_compares_const(op: Opcode) -> bool {
    matches!(
            op,
            Opcode::Iseqs
                | Opcode::Isnes
                | Opcode::Iseqn
                | Opcode::Isnen
                | Opcode::Iseqp
                | Opcode::Isnep
        )
}

/// The operator that a comparing opcode tests.
pub open spec fn tested_kind(op: Opcode) -> BinOpKind {
    match op {
        Opcode::Islt => BinOpKind::LessThan,
        Opcode::Isge => BinOpKind::GreaterEqual,
        Opcode::Isle => BinOpKind::LessEqual,
        Opcode::Isgt => BinOpKind::GreaterThan,
        Opcode::Iseqv | Opcode::Iseqs | Opcode::Iseqn | Opcode::Iseqp => BinOpKind::Equal,
        _ => BinOpKind::NotEqual,
    }
}

/// The operator that holds exactly when a comparison does not.
pub open spec fn complement(op: BinOpKind) -> BinOpKind {
    match op {
        BinOpKind::Equal => BinOpKind::NotEqual,
        BinOpKind::NotEqual => BinOpKind::Equal,
        BinOpKind::LessThan => BinOpKind::GreaterEqual,
        BinOpKind::GreaterEqual => BinOpKind::LessThan,
        BinOpKind::GreaterThan => BinOpKind::LessEqual,
        BinOpKind::LessEqual => BinOpKind::GreaterThan,
        other => other,
    }
}

/// The right operand of a comparison: a register, a string constant
/// (reverse index), a number constant (forward index) or a primitive
/// tag. A reference to a constant that is not there is not modeled.
pub open spec fn right_operand(p: ProtoV, slots: Map<u8, ExprV>, inst: Instruction) -> Result<
    ExprV,
    Fault,
> {
    match inst.op {
        Opcode::Islt
        | Opcode::Isge
        | Opcode::Isle
        | Opcode::Isgt
        | Opcode::Iseqv
        | Opcode::Isnev => operand::operand(slots, d_slot(inst)),
        Opcode::Iseqs | Opcode::Isnes => match operand::str_expr(p, ir::inst_d(inst)) {
            Ok(e) => Ok(e),
            Err(f) => Err(Fault::NotImplemented),
        },
        Opcode::Iseqn | Opcode::Isnen => operand::num_expr(p, ir::inst_d(inst) as int),
        Opcode::Iseqp | Opcode::Isnep => operand::pri_expr(ir::inst_d(inst)),
        _ => Err(Fault::NotImplemented),
    }
}

/// Register A compared with the right operand.
pub open spec fn comparison(
    p: ProtoV,
    slots: Map<u8, ExprV>,
    inst: Instruction,
    kind: BinOpKind,
) -> Result<ExprV, Fault> {
    operand::binop_of(kind, operand::operand(slots, inst.a as int), right_operand(p, slots, inst))
}

/// The negation of an outcome.
pub open spec fn not_of(e: Result<ExprV, Fault>) -> Result<ExprV, Fault> {
    match e {
        Ok(v) => Ok(ExprV::Not(Box::new(v))),
        Err(f) => Err(f),
    }
}

/// What an ISxx instruction tests: the jump behind it is taken when
/// this holds.
pub open spec fn test_expr(p: ProtoV, slots: Map<u8, ExprV>, inst: Instruction) -> Result<
    ExprV,
    Fault,
> {
    if inst.op == Opcode::Ist {
        operand::operand(slots, d_slot(inst))
    } else if inst.op == Opcode::Isf {
        not_of(operand::operand(slots, d_slot(inst)))
    } else if op_compares_slots(inst.op) || op_compares_const(inst.op) {
        comparison(p, slots, inst, tested_kind(inst.op))
    } else {
        Err(Fault::NotImplemented)
    }
}

/// The condition under which the jump behind an ISxx instruction is not
/// taken: the complement of the test.
pub open spec fn cond_expr(p: ProtoV, slots: Map<u8, ExprV>, inst: Instruction) -> Result<
    ExprV,
    Fault,
> {
    if inst.op == Opcode::Ist {
        not_of(operand::operand(slots, d_slot(inst)))
    } else if inst.op == Opcode::Isf {
        operand::operand(slots, d_slot(inst))
    } else if op_compares_slots(inst.op) || op_compares_const(inst.op) {
        comparison(p, slots, inst, complement(tested_kind(inst.op)))
    } else {
        Err(Fault::NotImplemented)
    }
}

/// Whether one expression says the opposite of another: one is the
/// `not` of the other, or they compare the same operands by
/// complementary operators.
pub open spec fn opposite(a: ExprV, b: ExprV) -> bool {
    ||| a == ExprV::Not(Box::new(b))
    ||| b == ExprV::Not(Box::new(a))
    ||| {
        &&& a is BinOp
        &&& b is BinOp
        &&& a->BinOp_left == b->BinOp_left
        &&& a->BinOp_right == b->BinOp_right
        &&& a->BinOp_op == complement(b->BinOp_op)
        &&& b->BinOp_op == complement(a->BinOp_op)
        &&& a->BinOp_op != b->BinOp_op
    }
}

/// The source condition of an ISxx instruction is the opposite of what
/// the instruction tests, and one can be built exactly when the other
/// can, with the same fault otherwise.
pub proof fn law_condition_is_opposite_of_test(
    p: ProtoV,
    slots: Map<u8, ExprV>,
    inst: Instruction,
)
    ensures
        match (test_expr(p, slots, inst), cond_expr(p, slots, inst)) {
            (Ok(test), Ok(cond)) => opposite(cond, test),
            (Err(f), Err(g)) => f == g,
            _ => false,
        },
{
}

/// Complementing a comparison twice gives it back.
pub proof fn law_complement_undoes_itself(op: BinOpKind)
    ensures
        complement(complement(op)) == op,
{
}

/// Build the [`Expr`] for an ISxx instruction's right operand. Returns
/// [`DecompilerError::NotImplemented`] for opcodes outside the ISxx
/// family and for malformed constant references.
pub fn build_isxx_right_operand(
    proto: &Proto,
    slot_exprs: &HashMap<u8, Expr>,
    inst: &Instruction,
) -> (res: Result<Expr, DecompilerError>)
    ensures
        crate::yields(res, right_operand(proto@, operand::slots_v(slot_exprs@), *inst)),
{
    match inst.op {
        // V/V: D is a register.
        Opcode::Islt
        | Opcode::Isge
        | Opcode::Isle
        | Opcode::Isgt
        | Opcode::Iseqv
        | Opcode::Isnev => lookup_operand(slot_exprs, (inst.d() % 0x100) as u8),
        // V/STR: D is a reverse-indexed GC string constant.
        Opcode::Iseqs | Opcode::Isnes => match build_str_expr(proto, inst.d()) {
            Ok(e) => Ok(e),
            Err(_) => Err(DecompilerError::NotImplemented),
        },
        // V/NUM: D is a forward index into num_consts.
        Opcode::Iseqn | Opcode::Isnen => build_num_const_expr(proto, inst.d() as usize),
        // V/PRI: D is an inline KPRI tag.
        Opcode::Iseqp | Opcode::Isnep => build_pri_expr(inst.d()),
        // IST/ISF are unary: there is no right operand.
        _ => Err(DecompilerError::NotImplemented),
    }
}

/// Build a comparison [`Expr`] of register A with the right operand.
fn isxx_compare(
    proto: &Proto,
    slot_exprs: &HashMap<u8, Expr>,
    inst: &Instruction,
    op: BinOpKind,
) -> (res: Result<Expr, DecompilerError>)
    ensures
        crate::yields(res, comparison(proto@, operand::slots_v(slot_exprs@), *inst, op)),
{
    let left = lookup_operand(slot_exprs, inst.a)?;
    let right = build_isxx_right_operand(proto, slot_exprs, inst)?;
    Ok(Expr::BinOp { op, left: Box::new(left), right: Box::new(right) })
}

/// The operator that a comparing opcode tests, or `None` for another
/// opcode.
fn kind_for_isxx(op: Opcode) -> (kind: Option<BinOpKind>)
    ensures
        match kind {
            Some(k) => (op_compares_slots(op) || op_compares_const(op)) && k == tested_kind(op),
            None => !op_compares_slots(op) && !op_compares_const(op),
        },
{
    match op {
        Opcode::Islt => Some(BinOpKind::LessThan),
        Opcode::Isge => Some(BinOpKind::GreaterEqual),
        Opcode::Isle => Some(BinOpKind::LessEqual),
        Opcode::Isgt => Some(BinOpKind::GreaterThan),
        Opcode::Iseqv | Opcode::Iseqs | Opcode::Iseqn | Opcode::Iseqp => Some(BinOpKind::Equal),
        Opcode::Isnev | Opcode::Isnes | Opcode::Isnen | Opcode::Isnep => Some(
            BinOpKind::NotEqual,
        ),
        _ => None,
    }
}

/// The operator that holds exactly when a comparison does not.
pub fn binop_complement(op: BinOpKind) -> (out: BinOpKind)
    ensures
        out == complement(op),
{
    match op {
        BinOpKind::Equal => BinOpKind::NotEqual,
        BinOpKind::NotEqual => BinOpKind::Equal,
        BinOpKind::LessThan => BinOpKind::GreaterEqual,
        BinOpKind::GreaterEqual => BinOpKind::LessThan,
        BinOpKind::GreaterThan => BinOpKind::LessEqual,
        BinOpKind::LessEqual => BinOpKind::GreaterThan,
        other => other,
    }
}

/// Build the ISxx test expression: the condition the ISxx literally
/// checks, *without* negation. This is the expression that, when true,
/// causes the JMP to be taken.
///
/// The test surfaces directly only in the short-circuiting prefix of an
/// OR chain, where the JMP targets the then-body rather than the merge.
pub fn build_test_condition(
    proto: &Proto,
    slot_exprs: &HashMap<u8, Expr>,
    inst: &Instruction,
) -> (res: Result<Expr, DecompilerError>)
    ensures
        crate::yields(res, test_expr(proto@, operand::slots_v(slot_exprs@), *inst)),
{
    // Unary truthiness tests (A unused; D is the tested slot).
    if inst.op == Opcode::Ist {
        return lookup_operand(slot_exprs, (inst.d() % 0x100) as u8);
    }
    if inst.op == Opcode::Isf {
        let value = lookup_operand(slot_exprs, (inst.d() % 0x100) as u8)?;
        return Ok(Expr::Not(Box::new(value)));
    }
    match kind_for_isxx(inst.op) {
        Some(kind) => isxx_compare(proto, slot_exprs, inst, kind),
        None => Err(DecompilerError::NotImplemented),
    }
}

/// Build the if-condition expression from an ISxx instruction: the
/// **complement** of the ISxx test.
///
/// If the test holds, the JMP is taken (skip then-body). The
/// if-condition is what's left when the test fails. LuaJIT's codegen
/// picks the ISxx variant that lets the JMP encode the *negation* of the
/// source condition: `a < b` compiles to `ISGE`, `a == b` to `ISNEV`.
///
/// **LuaJIT canonicalizes ordered comparisons to `<`/`<=`** by swapping
/// operands when needed, so `a > b` in source comes back as `b < a`.
pub fn build_condition(
    proto: &Proto,
    slot_exprs: &HashMap<u8, Expr>,
    inst: &Instruction,
) -> (res: Result<Expr, DecompilerError>)
    ensures
        crate::yields(res, cond_expr(proto@, operand::slots_v(slot_exprs@), *inst)),
{
    if inst.op == Opcode::Ist {
        let value = lookup_operand(slot_exprs, (inst.d() % 0x100) as u8)?;
        return Ok(Expr::Not(Box::new(value)));
    }
    if inst.op == Opcode::Isf {
        return lookup_operand(slot_exprs, (inst.d() % 0x100) as u8);
    }
    match kind_for_isxx(inst.op) {
        Some(kind) => isxx_compare(proto, slot_exprs, inst, binop_complement(kind)),
        None => Err(DecompilerError::NotImplemented),
    }
}

} // verus!
