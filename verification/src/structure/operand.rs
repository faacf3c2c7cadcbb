//! Operands: the slot map, and what constants and arithmetic lower to.

use std::collections::HashMap;

use vstd::prelude::*;

use crate::ir;
use crate::ir::{GcConst, GcConstV, Instruction, NumConst, Opcode, Proto, ProtoV};
use crate::structure::ast;
use crate::structure::ast::{BinOpKind, Expr, ExprV, Stmt, StmtV};
use crate::text;
use crate::DecompilerError;
use crate::Fault;

verus! {

broadcast use vstd::std_specs::hash::group_hash_axioms;

/// The mathematical value of a slot map.
pub open spec fn slots_v(m: Map<u8, Expr>) -> Map<u8, ExprV> {
    m.map_values(|e: Expr| e@)
}

/// The expression recorded for a register. There are 256 registers; one
/// that holds nothing, or does not exist, cannot be reconstructed.
pub open spec fn operand(slots: Map<u8, ExprV>, slot: int) -> Result<ExprV, Fault> {
    if 0 <= slot <= 255 && slots.contains_key(slot as u8) {
        Ok(slots[slot as u8])
    } else {
        Err(Fault::NotImplemented)
    }
}

/// Setting a slot sets its value.
pub proof fn lemma_slots_insert(m: Map<u8, Expr>, slot: u8, e: Expr)
    ensures
        slots_v(m.insert(slot, e)) == slots_v(m).insert(slot, e@),
{
    assert(slots_v(m.insert(slot, e)) =~= slots_v(m).insert(slot, e@));
}

/// Resolve a register operand to its recorded [`Expr`]. A missing slot
/// means an instruction whose source cannot be reconstructed from what
/// was seen so far (an uninitialized register, or a slot populated by an
/// opcode that is not modeled).
pub fn lookup_operand(slot_exprs: &HashMap<u8, Expr>, slot: u8) -> (res: Result<
    Expr,
    DecompilerError,
>)
    ensures
        crate::yields(res, operand(slots_v(slot_exprs@), slot as int)),
{
    match slot_exprs.get(&slot) {
        Some(e) => Ok(e.clone()),
        None => Err(DecompilerError::NotImplemented),
    }
}

/// As [`lookup_operand`], for a register number that may be past the
/// last register.
pub fn lookup_wide(slot_exprs: &HashMap<u8, Expr>, slot: u16) -> (res: Result<
    Expr,
    DecompilerError,
>)
    ensures
        crate::yields(res, operand(slots_v(slot_exprs@), slot as int)),
{
    if slot > 255 {
        return Err(DecompilerError::NotImplemented);
    }
    lookup_operand(slot_exprs, slot as u8)
}

// ---- Constants ---------------------------------------------------------------

/// The number constant at a forward index.
pub open spec fn num_expr(p: ProtoV, idx: int) -> Result<ExprV, Fault> {
    if 0 <= idx < p.num_consts.len() {
        Ok(
            match p.num_consts[idx] {
                NumConst::Int(i) => ExprV::Int(i),
                NumConst::Num(bits) => ExprV::Float(bits),
            },
        )
    } else {
        Err(Fault::NotImplemented)
    }
}

/// The string constant that operand `d` refers to.
pub open spec fn str_expr(p: ProtoV, d: u16) -> Result<ExprV, Fault> {
    match ir::gc_const_at(p.gc_consts, d) {
        Err(f) => Err(f),
        Ok(GcConstV::Str(bytes)) => Ok(ExprV::Str(bytes)),
        Ok(_) => Err(Fault::NotImplemented),
    }
}

/// The name that operand `d` refers to: a string constant, as text.
pub open spec fn name_const(p: ProtoV, d: u16) -> Result<Seq<char>, Fault> {
    match ir::gc_const_at(p.gc_consts, d) {
        Err(f) => Err(f),
        Ok(GcConstV::Str(bytes)) => Ok(text::utf8_lossy(bytes)),
        Ok(_) => Err(Fault::NotImplemented),
    }
}

/// The primitive that a tag stands for: 0 is nil, 1 false, 2 true.
pub open spec fn pri_expr(d: u16) -> Result<ExprV, Fault> {
    if d == 0 {
        Ok(ExprV::Nil)
    } else if d == 1 {
        Ok(ExprV::False)
    } else if d == 2 {
        Ok(ExprV::True)
    } else {
        Err(Fault::NotImplemented)
    }
}

/// What a constant-load instruction loads. The D operand is the value
/// itself (KSHORT), a forward index (KNUM), a reverse index (KSTR), or a
/// primitive tag (KPRI).
pub open spec fn const_expr(p: ProtoV, inst: Instruction) -> Result<ExprV, Fault> {
    match inst.op {
        Opcode::Kshort => Ok(ExprV::Int(ir::signed16(ir::inst_d(inst)))),
        Opcode::Knum => num_expr(p, ir::inst_d(inst) as int),
        Opcode::Kstr => str_expr(p, ir::inst_d(inst)),
        Opcode::Kpri => pri_expr(ir::inst_d(inst)),
        _ => Err(Fault::NotImplemented),
    }
}

/// Build the source [`Expr`] for a number constant by forward index
/// into [`Proto::num_consts`].
pub fn build_num_const_expr(proto: &Proto, idx: usize) -> (res: Result<Expr, DecompilerError>)
    ensures
        crate::yields(res, num_expr(proto@, idx as int)),
{
    if idx >= proto.num_consts.len() {
        return Err(DecompilerError::NotImplemented);
    }
    match proto.num_consts[idx] {
        NumConst::Int(i) => Ok(Expr::Int(i)),
        NumConst::Num(bits) => Ok(Expr::Float(bits)),
    }
}

/// Build the source [`Expr`] for a string constant by reverse index.
pub fn build_str_expr(proto: &Proto, d: u16) -> (res: Result<Expr, DecompilerError>)
    ensures
        crate::yields(res, str_expr(proto@, d)),
{
    let gc = proto.gc_const_for_operand(d)?;
    match gc {
        GcConst::Str(bytes) => Ok(Expr::Str(ast::copy_bytes(bytes))),
        _ => Err(DecompilerError::NotImplemented),
    }
}

/// The name that a string constant spells.
pub fn read_name(proto: &Proto, d: u16) -> (res: Result<String, DecompilerError>)
    ensures
        crate::yields(res, name_const(proto@, d)),
{
    let gc = proto.gc_const_for_operand(d)?;
    match gc {
        GcConst::Str(bytes) => Ok(text::decode_lossy(bytes.as_slice())),
        _ => Err(DecompilerError::NotImplemented),
    }
}

/// Build the source [`Expr`] for a primitive tag.
pub fn build_pri_expr(d: u16) -> (res: Result<Expr, DecompilerError>)
    ensures
        crate::yields(res, pri_expr(d)),
{
    match d {
        0 => Ok(Expr::Nil),
        1 => Ok(Expr::False),
        2 => Ok(Expr::True),
        _ => Err(DecompilerError::NotImplemented),
    }
}

/// Build the source [`Expr`] produced by a constant-load instruction
/// (`KSHORT`/`KNUM`/`KSTR`/`KPRI`).
pub fn build_const_expr(proto: &Proto, load: &Instruction) -> (res: Result<Expr, DecompilerError>)
    ensures
        crate::yields(res, const_expr(proto@, *load)),
{
    match load.op {
        // D is a signed 16-bit immediate (the value itself).
        Opcode::Kshort => Ok(Expr::Int(ir::sign_extend16(load.d()))),
        // D is a forward index into num_consts.
        Opcode::Knum => build_num_const_expr(proto, load.d() as usize),
        // D is a reverse index into gc_consts.
        Opcode::Kstr => build_str_expr(proto, load.d()),
        Opcode::Kpri => build_pri_expr(load.d()),
        _ => Err(DecompilerError::NotImplemented),
    }
}

// ---- Arithmetic ----------------------------------------------------------------

/// The application of a binary operator.
pub open spec fn binop(op: BinOpKind, left: ExprV, right: ExprV) -> ExprV {
    ExprV::BinOp { op, left: Box::new(left), right: Box::new(right) }
}

/// The application of a binary operator to two outcomes; the left fault
/// comes first.
pub open spec fn binop_of(
    op: BinOpKind,
    left: Result<ExprV, Fault>,
    right: Result<ExprV, Fault>,
) -> Result<ExprV, Fault> {
    match left {
        Err(f) => Err(f),
        Ok(l) => match right {
            Err(f) => Err(f),
            Ok(r) => Ok(binop(op, l, r)),
        },
    }
}

/// Whether an opcode takes a register and a number constant.
pub open spec fn op_is_vn(op: Opcode) -> bool {
    matches!(
            op,
            Opcode::Addvn | Opcode::Subvn | Opcode::Mulvn | Opcode::Divvn | Opcode::Modvn
        )
}

/// Whether an opcode takes a number constant and a register.
pub open spec fn op_is_nv(op: Opcode) -> bool {
    matches!(
            op,
            Opcode::Addnv | Opcode::Subnv | Opcode::Mulnv | Opcode::Divnv | Opcode::Modnv
        )
}

/// Whether an opcode takes two registers.
pub open spec fn op_is_vv(op: Opcode) -> bool {
    matches!(
            op,
            Opcode::Addvv | Opcode::Subvv | Opcode::Mulvv | Opcode::Divvv | Opcode::Modvv
        )
}

/// Whether an opcode is one of the fifteen arithmetic ones.
pub open spec fn op_is_arith(op: Opcode) -> bool {
    op_is_vn(op) || op_is_nv(op) || op_is_vv(op)
}

/// The operator of an arithmetic opcode.
pub open spec fn arith_kind(op: Opcode) -> BinOpKind {
    match op {
        Opcode::Addvn | Opcode::Addnv | Opcode::Addvv => BinOpKind::Add,
        Opcode::Subvn | Opcode::Subnv | Opcode::Subvv => BinOpKind::Sub,
        Opcode::Mulvn | Opcode::Mulnv | Opcode::Mulvv => BinOpKind::Mul,
        Opcode::Divvn | Opcode::Divnv | Opcode::Divvv => BinOpKind::Div,
        _ => BinOpKind::Mod,
    }
}

/// What an arithmetic instruction computes: register B or constant B,
/// the operator, register C or constant C.
pub open spec fn arith_expr(p: ProtoV, slots: Map<u8, ExprV>, inst: Instruction) -> Result<
    ExprV,
    Fault,
> {
    let b = ir::inst_b(inst) as int;
    let c = inst.c as int;
    if op_is_vn(inst.op) {
        binop_of(arith_kind(inst.op), operand(slots, b), num_expr(p, c))
    } else if op_is_nv(inst.op) {
        binop_of(arith_kind(inst.op), num_expr(p, b), operand(slots, c))
    } else if op_is_vv(inst.op) {
        binop_of(arith_kind(inst.op), operand(slots, b), operand(slots, c))
    } else {
        Err(Fault::NotImplemented)
    }
}

/// Map an arithmetic opcode to its [`BinOpKind`].
pub fn binop_kind_for_arith(op: Opcode) -> (res: Result<BinOpKind, DecompilerError>)
    ensures
        match res {
            Ok(kind) => op_is_arith(op) && kind == arith_kind(op),
            Err(e) => !op_is_arith(op) && e@ == Fault::NotImplemented,
        },
{
    match op {
        Opcode::Addvn | Opcode::Addnv | Opcode::Addvv => Ok(BinOpKind::Add),
        Opcode::Subvn | Opcode::Subnv | Opcode::Subvv => Ok(BinOpKind::Sub),
        Opcode::Mulvn | Opcode::Mulnv | Opcode::Mulvv => Ok(BinOpKind::Mul),
        Opcode::Divvn | Opcode::Divnv | Opcode::Divvv => Ok(BinOpKind::Div),
        Opcode::Modvn | Opcode::Modnv | Opcode::Modvv => Ok(BinOpKind::Mod),
        _ => Err(DecompilerError::NotImplemented),
    }
}

/// Build a binary-arithmetic [`Expr`] for an arithmetic instruction.
pub fn build_arith_expr(
    proto: &Proto,
    slot_exprs: &HashMap<u8, Expr>,
    inst: &Instruction,
) -> (res: Result<Expr, DecompilerError>)
    ensures
        crate::yields(res, arith_expr(proto@, slots_v(slot_exprs@), *inst)),
{
    let op = binop_kind_for_arith(inst.op)?;
    match inst.op {
        // VN: left = reg[B], right = num_const[C].
        Opcode::Addvn | Opcode::Subvn | Opcode::Mulvn | Opcode::Divvn | Opcode::Modvn => {
            let left = lookup_operand(slot_exprs, inst.b())?;
            let right = build_num_const_expr(proto, inst.c as usize)?;
            Ok(Expr::BinOp { op, left: Box::new(left), right: Box::new(right) })
        },
        // NV: left = num_const[B], right = reg[C].
        Opcode::Addnv | Opcode::Subnv | Opcode::Mulnv | Opcode::Divnv | Opcode::Modnv => {
            let left = build_num_const_expr(proto, inst.b() as usize)?;
            let right = lookup_operand(slot_exprs, inst.c)?;
            Ok(Expr::BinOp { op, left: Box::new(left), right: Box::new(right) })
        },
        // VV: left = reg[B], right = reg[C].
        _ => {
            let left = lookup_operand(slot_exprs, inst.b())?;
            let right = lookup_operand(slot_exprs, inst.c)?;
            Ok(Expr::BinOp { op, left: Box::new(left), right: Box::new(right) })
        },
    }
}

// ---- Assignment ----------------------------------------------------------------

/// A point of the recovery within a body: what the slots hold, and the
/// statements so far.
pub struct Frame {
    pub slots: Map<u8, ExprV>,
    pub out: Seq<StmtV>,
}

/// The frame after `slot` got the value `e` at the real instruction
/// `index`. A slot that the debug section names there is declared or
/// reassigned, and stands for its name from then on; an unnamed one
/// just holds the expression.
pub open spec fn assigned(p: ProtoV, f: Frame, slot: u8, e: ExprV, index: int) -> Frame {
    match ir::live_name(p.debug, slot, index) {
        Some(name) => Frame {
            slots: f.slots.insert(slot, ExprV::Var(name)),
            out: f.out.push(
                if ir::declared_at(p.debug, slot, index) {
                    StmtV::LocalDecl { name, expr: e }
                } else {
                    StmtV::Assign { name, expr: e }
                },
            ),
        },
        None => Frame { slots: f.slots.insert(slot, e), out: f.out },
    }
}

/// The frame that executable state stands for.
pub open spec fn frame_v(slots: Map<u8, Expr>, out: Seq<Stmt>) -> Frame {
    Frame { slots: slots_v(slots), out: ast::stmts_v(out) }
}

/// Record a slot's expression.
///
/// If the proto's debug section names the slot as a live local at
/// `inst_index`, emit either a declaration (the index equals the
/// variable's `scope_begin`) or a reassignment (it is past it). Both
/// store [`Expr::Var`] under the slot, so that a later read references
/// the local rather than the original expression. When the slot has no
/// named local, the expression is recorded as an unnamed temporary that
/// only surfaces when a later instruction reads the slot.
pub fn assign_slot_ast(
    proto: &Proto,
    slot_exprs: &mut HashMap<u8, Expr>,
    stmts: &mut Vec<Stmt>,
    slot: u8,
    expr: Expr,
    inst_index: usize,
)
    ensures
        frame_v(final(slot_exprs)@, final(stmts)@) == assigned(
            proto@,
            frame_v(old(slot_exprs)@, old(stmts)@),
            slot,
            expr@,
            inst_index as int,
        ),
{
    match proto.var_name_at(slot, inst_index) {
        Some(name) => {
            let stmt = if proto.is_var_declaration_at(slot, inst_index) {
                Stmt::LocalDecl { name: name.clone(), expr }
            } else {
                Stmt::Assign { name: name.clone(), expr }
            };
            let var = Expr::Var(name.clone());
            proof {
                ast::lemma_stmts_push(stmts@, stmt);
                lemma_slots_insert(slot_exprs@, slot, var);
            }
            stmts.push(stmt);
            slot_exprs.insert(slot, var);
        },
        None => {
            proof {
                lemma_slots_insert(slot_exprs@, slot, expr);
            }
            slot_exprs.insert(slot, expr);
        },
    }
}

} // verus!
