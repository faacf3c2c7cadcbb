//! Lowering: what one instruction adds to the recovered source.

use std::collections::{HashMap, HashSet};

use vstd::prelude::*;
use vstd::string::StringExecFns;

use crate::cfg;
use crate::cfg::{Cfg, InstructionId};
use crate::ir;
use crate::ir::{GcConst, GcConstV, Instruction, Module, ModuleV, Opcode, Proto, ProtoV};
use crate::structure;
use crate::structure::ast;
use crate::structure::ast::{BinOpKind, Expr, ExprV, Stmt, StmtV, TableEntry};
use crate::structure::equality;
use crate::structure::function;
use crate::structure::function::{extract_params, resolve_child_proto, resolve_upvalue_names};
use crate::structure::operand;
use crate::structure::operand::{
    assign_slot_ast, build_arith_expr, build_const_expr, build_num_const_expr, build_pri_expr,
    build_str_expr, lookup_operand, lookup_wide, read_name, Frame,
};
use crate::structure::table;
use crate::structure::table::table_const_to_entries;
use crate::text;
use crate::DecompilerError;
use crate::Fault;

verus! {

broadcast use vstd::std_specs::hash::group_hash_axioms;

/// What recovery reads and never changes: the module, the prototype in
/// it, the frame convention, the names of the prototype's upvalues, and
/// what the bodies of earlier prototypes are recovered to.
pub struct Env {
    pub module: ModuleV,
    pub idx: nat,
    pub fr2: bool,
    pub names: Option<Seq<Seq<char>>>,
    pub kids: spec_fn(nat, Option<Seq<Seq<char>>>) -> Result<Seq<StmtV>, Fault>,
}

impl Env {
    /// The prototype being recovered.
    pub open spec fn proto(self) -> ProtoV {
        self.module.protos[self.idx as int]
    }
}

// ---- Values ------------------------------------------------------------------

/// The concatenation of the registers `b` to `c`, which leans to the
/// right as Lua's `..` does: `a .. (b .. c)`.
pub open spec fn concat_expr(slots: Map<u8, ExprV>, b: int, c: int) -> Result<ExprV, Fault>
    decreases c - b,
{
    if c < b {
        Err(Fault::NotImplemented)
    } else if c == b {
        operand::operand(slots, b)
    } else {
        operand::binop_of(
            BinOpKind::Concat,
            operand::operand(slots, b),
            concat_expr(slots, b + 1, c),
        )
    }
}

/// The operands in the registers from `from` up to `to`, after those of
/// `so_far`.
pub open spec fn operands(slots: Map<u8, ExprV>, from: int, to: int, so_far: Seq<ExprV>) -> Result<
    Seq<ExprV>,
    Fault,
>
    decreases to - from,
{
    if from >= to {
        Ok(so_far)
    } else {
        match operand::operand(slots, from) {
            Err(f) => Err(f),
            Ok(e) => operands(slots, from + 1, to, so_far.push(e)),
        }
    }
}

/// `obj.name`, where the name is a string constant.
pub open spec fn field_expr(obj: ExprV, name: Seq<char>) -> ExprV {
    ExprV::Field { obj: Box::new(obj), name }
}

/// `obj[key]`.
pub open spec fn index_expr(obj: ExprV, key: ExprV) -> ExprV {
    ExprV::Index { obj: Box::new(obj), key: Box::new(key) }
}

/// The names to give a child's upvalues: none when it has none.
pub open spec fn child_names(env: Env, slots: Map<u8, ExprV>, child: ProtoV) -> Result<
    Option<Seq<Seq<char>>>,
    Fault,
> {
    if child.upvalues.len() == 0 {
        Ok(None)
    } else {
        match function::upvalue_names(slots, env.names, child.upvalues) {
            Err(f) => Err(f),
            Ok(names) => Ok(Some(names)),
        }
    }
}

/// The parameter list of a function literal, with `...` behind it when
/// the function is vararg.
pub open spec fn param_list(child: ProtoV) -> Seq<Seq<char>> {
    if ir::proto_vararg(child.flags) {
        function::param_names(child).push("..."@)
    } else {
        function::param_names(child)
    }
}

/// The function literal that FNEW makes.
pub open spec fn function_expr(env: Env, slots: Map<u8, ExprV>, d: u16) -> Result<ExprV, Fault> {
    match function::child_index(env.module, env.idx as int, d) {
        Err(f) => Err(f),
        Ok(c) => {
            let child = env.module.protos[c as int];
            match child_names(env, slots, child) {
                Err(f) => Err(f),
                Ok(names) => match (env.kids)(c, names) {
                    Err(f) => Err(f),
                    Ok(body) => Ok(ExprV::Function { params: param_list(child), body }),
                },
            }
        },
    }
}

/// The table literal that TDUP copies.
pub open spec fn template_expr(p: ProtoV, d: u16) -> Result<ExprV, Fault> {
    match ir::gc_const_at(p.gc_consts, d) {
        Err(f) => Err(f),
        Ok(GcConstV::Tab(t)) => Ok(ExprV::Table { entries: table::table_entries(t) }),
        Ok(_) => Err(Fault::NotImplemented),
    }
}

/// Whether an opcode computes a value into register A.
pub open spec fn op_computes(op: Opcode) -> bool {
    operand::op_is_arith(op) || matches!(
            op,
            Opcode::Kshort
                | Opcode::Knum
                | Opcode::Kstr
                | Opcode::Kpri
                | Opcode::Gget
                | Opcode::Pow
                | Opcode::Cat
                | Opcode::Mov
                | Opcode::Tgets
                | Opcode::Tgetv
                | Opcode::Tgetb
                | Opcode::Tnew
                | Opcode::Tdup
                | Opcode::Len
                | Opcode::Fnew
                | Opcode::Varg
        )
}

/// What such an instruction computes.
pub open spec fn computed(env: Env, slots: Map<u8, ExprV>, inst: Instruction) -> Result<
    ExprV,
    Fault,
> {
    let p = env.proto();
    let b = ir::inst_b(inst) as int;
    let c = inst.c as int;
    let d = ir::inst_d(inst);
    match inst.op {
        Opcode::Kshort | Opcode::Knum | Opcode::Kstr | Opcode::Kpri => operand::const_expr(p, inst),
        Opcode::Gget => match operand::name_const(p, d) {
            Err(f) => Err(f),
            Ok(name) => Ok(ExprV::Global(name)),
        },
        Opcode::Pow => operand::binop_of(
            BinOpKind::Pow,
            operand::operand(slots, b),
            operand::operand(slots, c),
        ),
        Opcode::Cat => concat_expr(slots, b, c),
        Opcode::Mov => operand::operand(slots, b),
        Opcode::Tgets => match operand::name_const(p, inst.c as u16) {
            Err(f) => Err(f),
            Ok(name) => match operand::operand(slots, b) {
                Err(f) => Err(f),
                Ok(obj) => Ok(field_expr(obj, name)),
            },
        },
        Opcode::Tgetv => match operand::operand(slots, b) {
            Err(f) => Err(f),
            Ok(obj) => match operand::operand(slots, c) {
                Err(f) => Err(f),
                Ok(key) => Ok(index_expr(obj, key)),
            },
        },
        Opcode::Tgetb => match operand::operand(slots, b) {
            Err(f) => Err(f),
            Ok(obj) => Ok(index_expr(obj, ExprV::Int(inst.c as i32))),
        },
        Opcode::Tnew => Ok(ExprV::Table { entries: seq![] }),
        Opcode::Tdup => template_expr(p, d),
        Opcode::Len => match operand::operand(slots, b) {
            Err(f) => Err(f),
            Ok(e) => Ok(ExprV::Len(Box::new(e))),
        },
        Opcode::Fnew => function_expr(env, slots, d),
        Opcode::Varg => if b == 0 || b == 2 {
            Ok(ExprV::Vararg)
        } else {
            Err(Fault::NotImplemented)
        },
        _ => operand::arith_expr(p, slots, inst),
    }
}

// ---- Writes --------------------------------------------------------------------

/// The name of the prototype's upvalue `i`.
pub open spec fn own_upvalue(env: Env, i: int) -> Result<Seq<char>, Fault> {
    match env.names {
        Some(names) => if 0 <= i < names.len() {
            Ok(names[i])
        } else {
            Err(Fault::NotImplemented)
        },
        None => Err(Fault::NotImplemented),
    }
}

/// The assignment of an outcome to a name.
pub open spec fn assign_to(name: Result<Seq<char>, Fault>, value: Result<ExprV, Fault>) -> Result<
    StmtV,
    Fault,
> {
    match name {
        Err(f) => Err(f),
        Ok(n) => match value {
            Err(f) => Err(f),
            Ok(e) => Ok(StmtV::Assign { name: n, expr: e }),
        },
    }
}

/// Whether an opcode writes to a table, a global or an upvalue.
pub open spec fn op_writes(op: Opcode) -> bool {
    matches!(
            op,
            Opcode::Tsets
                | Opcode::Tsetb
                | Opcode::Tsetv
                | Opcode::Gset
                | Opcode::Usetv
                | Opcode::Usets
                | Opcode::Usetn
                | Opcode::Usetp
        )
}

/// The key of a table write, and where it is written.
pub open spec fn table_target(
    env: Env,
    slots: Map<u8, ExprV>,
    inst: Instruction,
    obj: ExprV,
) -> Result<ExprV, Fault> {
    match inst.op {
        Opcode::Tsets => match operand::name_const(env.proto(), inst.c as u16) {
            Err(f) => Err(f),
            Ok(name) => Ok(field_expr(obj, name)),
        },
        Opcode::Tsetb => Ok(index_expr(obj, ExprV::Int(inst.c as i32))),
        _ => match operand::operand(slots, inst.c as int) {
            Err(f) => Err(f),
            Ok(key) => Ok(index_expr(obj, key)),
        },
    }
}

/// The statement that such an instruction stands for. A table write has
/// its value in A, the table in B and the key in C; a global write has
/// its value in A; an upvalue write names the upvalue by A.
pub open spec fn written(env: Env, slots: Map<u8, ExprV>, inst: Instruction) -> Result<
    StmtV,
    Fault,
> {
    let p = env.proto();
    let d = ir::inst_d(inst);
    match inst.op {
        Opcode::Tsets | Opcode::Tsetb | Opcode::Tsetv => match operand::operand(
            slots,
            inst.a as int,
        ) {
            Err(f) => Err(f),
            Ok(value) => match operand::operand(slots, ir::inst_b(inst) as int) {
                Err(f) => Err(f),
                Ok(obj) => match table_target(env, slots, inst, obj) {
                    Err(f) => Err(f),
                    Ok(target) => Ok(StmtV::TableSet { target, value }),
                },
            },
        },
        Opcode::Gset => match operand::operand(slots, inst.a as int) {
            Err(f) => Err(f),
            Ok(value) => assign_to(operand::name_const(p, d), Ok(value)),
        },
        Opcode::Usetv => assign_to(
            own_upvalue(env, inst.a as int),
            operand::operand(slots, ir::inst_b(inst) as int),
        ),
        Opcode::Usets => assign_to(own_upvalue(env, inst.a as int), operand::str_expr(p, d)),
        Opcode::Usetn => assign_to(own_upvalue(env, inst.a as int), operand::num_expr(p, d as int)),
        _ => assign_to(own_upvalue(env, inst.a as int), operand::pri_expr(d)),
    }
}

// ---- Calls ---------------------------------------------------------------------

/// The register of a call's first argument: right behind the function,
/// or one further in the two-slot frame layout.
pub open spec fn arg_base(fr2: bool, a: u8) -> int {
    if fr2 {
        a + 2
    } else {
        a + 1
    }
}

/// The smaller of a register number and 255.
pub open spec fn clipped(slot: int) -> int {
    if slot < 255 {
        slot
    } else {
        255
    }
}

/// Whether a call is a method call: the function is a field, and the
/// first argument is the object that it is a field of.
pub open spec fn is_method(func: ExprV, slots: Map<u8, ExprV>, base: int) -> bool {
    match func {
        ExprV::Field { obj, name } => match operand::operand(slots, base) {
            Ok(this) => equality::same_expr(this, *obj),
            Err(f) => false,
        },
        _ => false,
    }
}

/// `func(args)`.
pub open spec fn call_expr(func: ExprV, args: Seq<ExprV>) -> ExprV {
    ExprV::Call { func: Box::new(func), args }
}

/// `obj:name(args)`, for the field `obj.name`.
pub open spec fn method_expr(func: ExprV, args: Seq<ExprV>) -> ExprV {
    match func {
        ExprV::Field { obj, name } => ExprV::MethodCall { obj, method: name, args },
        _ => func,
    }
}

/// A call as a statement of its own. No other expression is one.
pub open spec fn call_stmt(call: ExprV) -> Result<StmtV, Fault> {
    match call {
        ExprV::MethodCall { obj, method, args } => Ok(
            StmtV::MethodCall { obj: *obj, method, args },
        ),
        ExprV::Call { func, args } => Ok(StmtV::Call { func: *func, args }),
        _ => Err(Fault::NotImplemented),
    }
}

/// The names of the locals that the `n` registers from `a` on are
/// declared as at the real instruction `index`, if each is.
pub open spec fn declared_names(p: ProtoV, a: u8, n: nat, index: int) -> Option<Seq<Seq<char>>>
    decreases n,
{
    if n == 0 {
        Some(seq![])
    } else {
        let slot = (a + n - 1) as u8;
        match (declared_names(p, a, (n - 1) as nat, index), ir::live_name(p.debug, slot, index)) {
            (Some(init), Some(name)) => if a + n - 1 <= 255 && ir::declared_at(
                p.debug,
                slot,
                index,
            ) {
                Some(init.push(name))
            } else {
                None
            },
            _ => None,
        }
    }
}

/// The slots after the registers from `a` on got names.
pub open spec fn named_slots(slots: Map<u8, ExprV>, a: u8, names: Seq<Seq<char>>) -> Map<u8, ExprV>
    decreases names.len(),
{
    if names.len() == 0 {
        slots
    } else {
        named_slots(slots, a, names.drop_last()).insert(
            (a + names.len() - 1) as u8,
            ExprV::Var(names.last()),
        )
    }
}

/// What becomes of a call, by its B operand. 0: all results go to a
/// later consumer, which finds the call in register A. 1: no result, a
/// statement. 2: one result, assigned to register A. More: a declaration
/// of several locals, which a method call and registers that are not all
/// fresh locals do not have.
pub open spec fn routed(
    p: ProtoV,
    f: Frame,
    inst: Instruction,
    index: int,
    call: ExprV,
    method: bool,
) -> Result<Frame, Fault> {
    let b = ir::inst_b(inst);
    if b == 0 {
        Ok(Frame { slots: f.slots.insert(inst.a, call), out: f.out })
    } else if b == 1 {
        match call_stmt(call) {
            Err(e) => Err(e),
            Ok(stmt) => Ok(Frame { slots: f.slots, out: f.out.push(stmt) }),
        }
    } else if b == 2 {
        Ok(operand::assigned(p, f, inst.a, call, index))
    } else {
        match declared_names(p, inst.a, (b - 1) as nat, index) {
            Some(names) => if method {
                Err(Fault::NotImplemented)
            } else {
                Ok(
                    Frame {
                        slots: named_slots(f.slots, inst.a, names),
                        out: f.out.push(StmtV::LocalDeclMulti { names, expr: call }),
                    },
                )
            },
            None => Err(Fault::NotImplemented),
        }
    }
}

/// Whether the instruction behind `idx` is ISNEXT.
pub open spec fn before_isnext(p: ProtoV, idx: int) -> bool {
    idx + 1 < p.insts.len() && p.insts[idx + 1].op == Opcode::Isnext
}

/// What CALL does. It has the function in A and `C - 1` arguments from
/// the argument base on; a method call has its object, which the source
/// does not repeat, as the first. The call in front of ISNEXT makes the
/// iterator of a generic for, which finds it in register A.
pub open spec fn called(env: Env, f: Frame, idx: int) -> Result<Frame, Fault> {
    let p = env.proto();
    let inst = p.insts[idx];
    let base = arg_base(env.fr2, inst.a);
    if inst.c == 0 || base > 255 {
        Err(Fault::NotImplemented)
    } else {
        match operand::operand(f.slots, inst.a as int) {
            Err(e) => Err(e),
            Ok(func) => if is_method(func, f.slots, base) {
                let count = if inst.c >= 2 {
                    inst.c - 2
                } else {
                    0
                };
                match operands(f.slots, base + 1, clipped(base + 1 + count), seq![]) {
                    Err(e) => Err(e),
                    Ok(args) => routed(p, f, inst, idx - 1, method_expr(func, args), true),
                }
            } else {
                match operands(f.slots, base, clipped(base + inst.c - 1), seq![]) {
                    Err(e) => Err(e),
                    Ok(args) => if before_isnext(p, idx) {
                        Ok(
                            Frame {
                                slots: f.slots.insert(inst.a, call_expr(func, args)),
                                out: f.out,
                            },
                        )
                    } else {
                        routed(p, f, inst, idx - 1, call_expr(func, args), false)
                    },
                }
            },
        }
    }
}

/// What CALLM does: a call whose last argument is all the values of the
/// instruction before, which stands behind the `C` fixed ones. Fixed
/// arguments are modeled for method calls only.
pub open spec fn called_multi(env: Env, f: Frame, idx: int) -> Result<Frame, Fault> {
    let p = env.proto();
    let inst = p.insts[idx];
    let base = arg_base(env.fr2, inst.a);
    if base > 255 {
        Err(Fault::NotImplemented)
    } else {
        match operand::operand(f.slots, inst.a as int) {
            Err(e) => Err(e),
            Ok(func) => if is_method(func, f.slots, base) {
                let count = if inst.c >= 1 {
                    inst.c - 1
                } else {
                    0
                };
                match operands(f.slots, base + 1, clipped(base + 1 + count), seq![]) {
                    Err(e) => Err(e),
                    Ok(args) => match operand::operand(f.slots, clipped(base + inst.c)) {
                        Err(e) => Err(e),
                        Ok(last) => routed(
                            p,
                            f,
                            inst,
                            idx - 1,
                            method_expr(func, args.push(last)),
                            true,
                        ),
                    },
                }
            } else if inst.c == 0 {
                match operand::operand(f.slots, base) {
                    Err(e) => Err(e),
                    Ok(last) => routed(p, f, inst, idx - 1, call_expr(func, seq![last]), false),
                }
            } else {
                Err(Fault::NotImplemented)
            },
        }
    }
}

// ---- One instruction ---------------------------------------------------------------

/// What the instruction at `idx` does to a frame.
pub open spec fn step(env: Env, f: Frame, idx: int) -> Result<Frame, Fault> {
    let p = env.proto();
    let inst = p.insts[idx];
    if op_computes(inst.op) {
        match computed(env, f.slots, inst) {
            Err(e) => Err(e),
            Ok(value) => Ok(operand::assigned(p, f, inst.a, value, idx - 1)),
        }
    } else if op_writes(inst.op) {
        match written(env, f.slots, inst) {
            Err(e) => Err(e),
            Ok(stmt) => Ok(Frame { slots: f.slots, out: f.out.push(stmt) }),
        }
    } else if inst.op == Opcode::Uget {
        match own_upvalue(env, ir::inst_d(inst) as int) {
            Err(e) => Err(e),
            Ok(name) => Ok(Frame { slots: f.slots.insert(inst.a, ExprV::Var(name)), out: f.out }),
        }
    } else if inst.op == Opcode::Call {
        called(env, f, idx)
    } else if inst.op == Opcode::Callm {
        called_multi(env, f, idx)
    } else if inst.op == Opcode::Loop || inst.op == Opcode::Itern || inst.op == Opcode::Uclo {
        // Markers without a source form of their own.
        Ok(f)
    } else {
        Err(Fault::NotImplemented)
    }
}

/// Naming registers changes no others.
proof fn lemma_named_slots(slots: Map<u8, ExprV>, a: u8, names: Seq<Seq<char>>, s: u8)
    requires
        s < a || s >= a + names.len(),
        a + names.len() <= 256,
    ensures
        operand::operand(named_slots(slots, a, names), s as int) == operand::operand(
            slots,
            s as int,
        ),
    decreases names.len(),
{
    if names.len() > 0 {
        lemma_named_slots(slots, a, names.drop_last(), s);
    }
}

/// Registers that are declared as locals exist.
proof fn lemma_declared_names(p: ProtoV, a: u8, n: nat, index: int)
    ensures
        declared_names(p, a, n, index) matches Some(names) ==> names.len() == n && a + n <= 256,
    decreases n,
{
    if n > 0 {
        lemma_declared_names(p, a, (n - 1) as nat, index);
    }
}

/// An instruction adds at most one statement, and keeps those before.
pub proof fn law_instruction_adds_at_most_one_statement(env: Env, f: Frame, idx: int)
    ensures
        step(env, f, idx) matches Ok(g) ==> {
            &&& f.out.is_prefix_of(g.out)
            &&& g.out.len() <= f.out.len() + 1
        },
{
    assert(f.out =~= f.out.subrange(0, f.out.len() as int));
    if let Ok(g) = step(env, f, idx) {
        assert(g.out == f.out || g.out == f.out.push(g.out.last()));
        assert(f.out =~= g.out.subrange(0, f.out.len() as int));
    }
}

/// How many registers from A on an instruction may set: the results of
/// a call with several, or A alone.
pub open spec fn result_count(inst: Instruction) -> int {
    if (inst.op == Opcode::Call || inst.op == Opcode::Callm) && ir::inst_b(inst) > 2 {
        ir::inst_b(inst) - 1
    } else {
        1
    }
}

/// An instruction changes no register but its result registers: A, or,
/// for a call with several results, as many from A on.
pub proof fn law_instruction_sets_only_its_results(env: Env, f: Frame, idx: int, s: u8)
    requires
        s < env.proto().insts[idx].a || s >= env.proto().insts[idx].a + result_count(
            env.proto().insts[idx],
        ),
    ensures
        step(env, f, idx) matches Ok(g) ==> operand::operand(g.slots, s as int)
            == operand::operand(f.slots, s as int),
{
    let p = env.proto();
    let inst = p.insts[idx];
    let b = ir::inst_b(inst);
    if b > 2 {
        lemma_declared_names(p, inst.a, (b - 1) as nat, idx - 1);
        if let Some(names) = declared_names(p, inst.a, (b - 1) as nat, idx - 1) {
            if s < inst.a || s >= inst.a + names.len() {
                lemma_named_slots(f.slots, inst.a, names, s);
            }
        }
    }
}

// ---- Executable state ----------------------------------------------------------------

/// Walk-time state. Borrows the module and the graph, and owns the slot
/// map and the set of visited blocks for the duration of recovery.
pub struct RecoveryCtx<'a> {
    /// The full module: child protos live at earlier indices.
    pub module: &'a Module,
    /// The index of the proto being recovered.
    pub proto_idx: usize,
    pub cfg: &'a Cfg,
    /// Whether the proto uses the two-slot frame convention, which
    /// leaves a gap between a call's function and its first argument.
    pub is_fr2: bool,
    /// What each register holds.
    pub slot_exprs: HashMap<u8, Expr>,
    /// Blocks where a walk has started, or that one has passed over. An
    /// *unexpected* control-flow cycle returns
    /// [`DecompilerError::NotImplemented`] instead of recursing forever.
    pub visited: HashSet<u32>,
    /// Source-level names of the proto's own upvalues. `None` when it
    /// has none.
    pub upvalue_names: Option<&'a [String]>,
}

impl<'a> RecoveryCtx<'a> {
    /// What recovery reads.
    pub open spec fn env(self) -> Env {
        Env {
            module: self.module@,
            idx: self.proto_idx as nat,
            fr2: self.is_fr2,
            names: function::names_v(self.upvalue_names),
            kids: structure::earlier(self.module@, self.proto_idx as nat, self.is_fr2),
        }
    }

    /// The prototype is one of the module's, and the graph fits it.
    pub open spec fn wf(self) -> bool {
        &&& self.proto_idx < self.module.protos@.len()
        &&& cfg::module_fits(*self.module)
        &&& cfg::graph_fits(self.cfg@, self.module.protos@[self.proto_idx as int].insts@)
    }

    /// Whether nothing but the slots differs.
    pub open spec fn same_but_slots(self, other: RecoveryCtx<'a>) -> bool {
        &&& self.same_context(other)
        &&& self.visited@ == other.visited@
    }

    /// Whether nothing but the slots and the visited blocks differs.
    pub open spec fn same_context(self, other: RecoveryCtx<'a>) -> bool {
        &&& self.module == other.module
        &&& self.proto_idx == other.proto_idx
        &&& self.cfg == other.cfg
        &&& self.is_fr2 == other.is_fr2
        &&& self.upvalue_names == other.upvalue_names
    }

    /// The slots' values.
    pub open spec fn slots(self) -> Map<u8, ExprV> {
        operand::slots_v(self.slot_exprs@)
    }

    /// The frame that the slots and some statements make.
    pub open spec fn frame(self, stmts: Seq<Stmt>) -> Frame {
        operand::frame_v(self.slot_exprs@, stmts)
    }

    /// The proto being recovered.
    pub fn proto(&self) -> (p: &'a Proto)
        requires
            self.wf(),
        ensures
            *p == self.module.protos@[self.proto_idx as int],
            p@ == self.env().proto(),
    {
        &self.module.protos[self.proto_idx]
    }
}

/// Whether an executable step has the given outcome: the frame behind it
/// on success, the same fault on failure.
pub open spec fn steps(
    res: Result<(), DecompilerError>,
    outcome: Result<Frame, Fault>,
    frame: Frame,
) -> bool {
    match (res, outcome) {
        (Ok(()), Ok(expected)) => frame == expected,
        (Err(e), Err(f)) => e@ == f,
        _ => false,
    }
}

// ---- Values --------------------------------------------------------------------------

/// CAT concatenates regs[B..=C] (a range, not just two operands) into a
/// right-leaning chain.
fn build_concat(slot_exprs: &HashMap<u8, Expr>, b: u8, c: u8) -> (res: Result<
    Expr,
    DecompilerError,
>)
    ensures
        crate::yields(res, concat_expr(operand::slots_v(slot_exprs@), b as int, c as int)),
    decreases c - b,
{
    if c < b {
        return Err(DecompilerError::NotImplemented);
    }
    if c == b {
        return lookup_operand(slot_exprs, b);
    }
    let left = lookup_operand(slot_exprs, b)?;
    let right = build_concat(slot_exprs, b + 1, c)?;
    Ok(Expr::BinOp { op: BinOpKind::Concat, left: Box::new(left), right: Box::new(right) })
}

/// The operands in the registers from `from` up to `to`.
pub fn collect_operands(slot_exprs: &HashMap<u8, Expr>, from: u16, to: u16) -> (res: Result<
    Vec<Expr>,
    DecompilerError,
>)
    ensures
        match (res, operands(operand::slots_v(slot_exprs@), from as int, to as int, seq![])) {
            (Ok(args), Ok(expected)) => ast::exprs_v(args@) == expected,
            (Err(e), Err(f)) => e@ == f,
            _ => false,
        },
{
    let ghost slots = operand::slots_v(slot_exprs@);
    let mut args: Vec<Expr> = Vec::new();
    let mut slot: u16 = from;
    while slot < to
        invariant
            from <= slot,
            slots == operand::slots_v(slot_exprs@),
            operands(slots, from as int, to as int, seq![]) == operands(
                slots,
                slot as int,
                to as int,
                ast::exprs_v(args@),
            ),
        decreases to - slot,
    {
        let arg = lookup_wide(slot_exprs, slot)?;
        proof {
            ast::lemma_exprs_push(args@, arg);
        }
        args.push(arg);
        slot = slot + 1;
    }
    Ok(args)
}

/// FNEW: create a closure from the child proto. The child's body is
/// recovered recursively, with the names of its upvalues resolved
/// against this proto's context.
fn build_function(ctx: &RecoveryCtx, d: u16) -> (res: Result<Expr, DecompilerError>)
    requires
        ctx.wf(),
    ensures
        crate::yields(res, function_expr(ctx.env(), ctx.slots(), d)),
    decreases ctx.proto_idx, 0int,
{
    let child_idx = resolve_child_proto(ctx.module, ctx.proto_idx, d)?;
    let child = &ctx.module.protos[child_idx];
    assert(ctx.module@.protos[child_idx as int] == child@);
    let names = if child.upvalues.len() == 0 {
        None
    } else {
        Some(
            resolve_upvalue_names(
                &ctx.slot_exprs,
                ctx.upvalue_names,
                child.upvalues.as_slice(),
            )?,
        )
    };
    let child_cfg = Cfg::build(child);
    proof {
        cfg::law_built_graph_fits(child.insts@);
    }
    let body = structure::recover(ctx.module, child_idx, &child_cfg, ctx.is_fr2, names)?;
    let mut params = extract_params(child);
    if child.is_vararg() {
        let ghost before = text::views(params@);
        let dots = String::from_str("...");
        params.push(dots);
        assert(text::views(params@) =~= before.push("..."@));
    }
    Ok(Expr::Function { params, body })
}

/// TDUP: copy a template table.
fn build_template(proto: &Proto, d: u16) -> (res: Result<Expr, DecompilerError>)
    ensures
        crate::yields(res, template_expr(proto@, d)),
{
    let gc = proto.gc_const_for_operand(d)?;
    match gc {
        GcConst::Tab(t) => Ok(Expr::Table { entries: table_const_to_entries(t) }),
        _ => Err(DecompilerError::NotImplemented),
    }
}

/// A table read: TGETS, TGETV or TGETB.
fn build_index(ctx: &RecoveryCtx, inst: &Instruction) -> (res: Result<Expr, DecompilerError>)
    requires
        ctx.wf(),
        inst.op == Opcode::Tgets || inst.op == Opcode::Tgetv || inst.op == Opcode::Tgetb,
    ensures
        crate::yields(res, computed(ctx.env(), ctx.slots(), *inst)),
{
    let slots = &ctx.slot_exprs;
    match inst.op {
        Opcode::Tgets => {
            let name = read_name(ctx.proto(), inst.c as u16)?;
            let obj = lookup_operand(slots, inst.b())?;
            Ok(Expr::Field { obj: Box::new(obj), name })
        },
        Opcode::Tgetv => {
            let obj = lookup_operand(slots, inst.b())?;
            let key = lookup_operand(slots, inst.c)?;
            Ok(Expr::Index { obj: Box::new(obj), key: Box::new(key) })
        },
        _ => {
            // C is an inline integer literal key (NOT a register).
            let obj = lookup_operand(slots, inst.b())?;
            let key = Expr::Int(inst.c as i32);
            assert(key@ == ExprV::Int(inst.c as i32));
            Ok(Expr::Index { obj: Box::new(obj), key: Box::new(key) })
        },
    }
}

/// An operation on registers alone: POW, CAT, MOV or LEN.
fn build_slot_op(slots: &HashMap<u8, Expr>, inst: &Instruction) -> (res: Result<
    Expr,
    DecompilerError,
>)
    requires
        inst.op == Opcode::Pow || inst.op == Opcode::Cat || inst.op == Opcode::Mov || inst.op
            == Opcode::Len,
    ensures
        forall|env: Env|
            crate::yields(res, #[trigger] computed(env, operand::slots_v(slots@), *inst)),
{
    match inst.op {
        Opcode::Pow => {
            let left = lookup_operand(slots, inst.b())?;
            let right = lookup_operand(slots, inst.c)?;
            Ok(Expr::BinOp { op: BinOpKind::Pow, left: Box::new(left), right: Box::new(right) })
        },
        Opcode::Cat => build_concat(slots, inst.b(), inst.c),
        // MOV is AD format: the source register is the low byte of D.
        Opcode::Mov => lookup_operand(slots, inst.b()),
        _ => {
            let source = lookup_operand(slots, inst.b())?;
            Ok(Expr::Len(Box::new(source)))
        },
    }
}

/// The value that a value-computing instruction puts into register A.
fn compute_value(ctx: &RecoveryCtx, inst: &Instruction) -> (res: Result<Expr, DecompilerError>)
    requires
        ctx.wf(),
        op_computes(inst.op),
    ensures
        crate::yields(res, computed(ctx.env(), ctx.slots(), *inst)),
    decreases ctx.proto_idx, 1int,
{
    let proto = ctx.proto();
    match inst.op {
        Opcode::Kshort | Opcode::Knum | Opcode::Kstr | Opcode::Kpri => {
            build_const_expr(proto, inst)
        },
        Opcode::Gget => {
            // The global is named by a string constant.
            let name = read_name(proto, inst.d())?;
            Ok(Expr::Global(name))
        },
        Opcode::Pow | Opcode::Cat | Opcode::Mov | Opcode::Len => build_slot_op(
            &ctx.slot_exprs,
            inst,
        ),
        Opcode::Tgets | Opcode::Tgetv | Opcode::Tgetb => build_index(ctx, inst),
        // D is an array-size hint.
        Opcode::Tnew => {
            let entries: Vec<TableEntry> = Vec::new();
            assert(ast::entries_v(entries@) =~= seq![]);
            Ok(Expr::Table { entries })
        },
        Opcode::Tdup => build_template(proto, inst.d()),
        Opcode::Fnew => build_function(ctx, inst.d()),
        Opcode::Varg => {
            // B - 1 values; B == 0 is all of them, for a later consumer.
            if inst.b() == 0 || inst.b() == 2 {
                Ok(Expr::Vararg)
            } else {
                Err(DecompilerError::NotImplemented)
            }
        },
        _ => build_arith_expr(proto, &ctx.slot_exprs, inst),
    }
}

// ---- Writes ----------------------------------------------------------------------------

/// The name of the proto's own upvalue `i`.
fn upvalue_ref(ctx: &RecoveryCtx, i: usize) -> (res: Result<String, DecompilerError>)
    ensures
        crate::yields(res, own_upvalue(ctx.env(), i as int)),
{
    match ctx.upvalue_names {
        Some(names) => {
            if i < names.len() {
                assert(text::views(names@)[i as int] == names@[i as int]@);
                Ok(names[i].clone())
            } else {
                Err(DecompilerError::NotImplemented)
            }
        },
        None => Err(DecompilerError::NotImplemented),
    }
}

/// Where a table write goes.
fn build_target(ctx: &RecoveryCtx, inst: &Instruction, table: Expr) -> (res: Result<
    Expr,
    DecompilerError,
>)
    requires
        ctx.wf(),
    ensures
        crate::yields(res, table_target(ctx.env(), ctx.slots(), *inst, table@)),
{
    match inst.op {
        Opcode::Tsets => {
            let name = read_name(ctx.proto(), inst.c as u16)?;
            Ok(Expr::Field { obj: Box::new(table), name })
        },
        // C is an inline integer literal key (NOT a register).
        Opcode::Tsetb => {
            let key = Expr::Int(inst.c as i32);
            assert(key@ == ExprV::Int(inst.c as i32));
            Ok(Expr::Index { obj: Box::new(table), key: Box::new(key) })
        },
        _ => {
            let key = lookup_operand(&ctx.slot_exprs, inst.c)?;
            Ok(Expr::Index { obj: Box::new(table), key: Box::new(key) })
        },
    }
}

/// The statement that a writing instruction stands for.
fn build_write(ctx: &RecoveryCtx, inst: &Instruction) -> (res: Result<Stmt, DecompilerError>)
    requires
        ctx.wf(),
        op_writes(inst.op),
    ensures
        crate::yields(res, written(ctx.env(), ctx.slots(), *inst)),
{
    let proto = ctx.proto();
    let slots = &ctx.slot_exprs;
    match inst.op {
        Opcode::Tsets | Opcode::Tsetb | Opcode::Tsetv => {
            // A = value, B = table, C = key: REVERSED from TGET*, where
            // A is the destination.
            let value = lookup_operand(slots, inst.a)?;
            let table = lookup_operand(slots, inst.b())?;
            let target = build_target(ctx, inst, table)?;
            Ok(Stmt::TableSet { target, value })
        },
        Opcode::Gset => {
            // A global write is just `name = value`.
            let value = lookup_operand(slots, inst.a)?;
            let name = read_name(proto, inst.d())?;
            Ok(Stmt::Assign { name, expr: value })
        },
        Opcode::Usetv => {
            // A is the upvalue INDEX (not a register); the source
            // register is the low byte of D.
            let name = upvalue_ref(ctx, inst.a as usize)?;
            let value = lookup_operand(slots, inst.b())?;
            Ok(Stmt::Assign { name, expr: value })
        },
        Opcode::Usets => {
            let name = upvalue_ref(ctx, inst.a as usize)?;
            let value = build_str_expr(proto, inst.d())?;
            Ok(Stmt::Assign { name, expr: value })
        },
        Opcode::Usetn => {
            let name = upvalue_ref(ctx, inst.a as usize)?;
            let value = build_num_const_expr(proto, inst.d() as usize)?;
            Ok(Stmt::Assign { name, expr: value })
        },
        _ => {
            let name = upvalue_ref(ctx, inst.a as usize)?;
            let value = build_pri_expr(inst.d())?;
            Ok(Stmt::Assign { name, expr: value })
        },
    }
}

// ---- Calls -------------------------------------------------------------------------------

/// Read a slot's [`Expr`] without removing it.
fn slot_exprs_get(slot_exprs: &HashMap<u8, Expr>, slot: u8) -> (e: Option<&Expr>)
    ensures
        match (e, operand::operand(operand::slots_v(slot_exprs@), slot as int)) {
            (Some(x), Ok(y)) => x@ == y,
            (None, Err(f)) => true,
            _ => false,
        },
{
    slot_exprs.get(&slot)
}

/// Whether a call is a method call. The compiler lowers
/// `obj:method(args...)` to a move of `obj` into the self register and a
/// field read into the function register.
fn is_method_call(func: &Expr, slot_exprs: &HashMap<u8, Expr>, base: u8) -> (b: bool)
    ensures
        b == is_method(func@, operand::slots_v(slot_exprs@), base as int),
        b ==> func is Field,
{
    match func {
        Expr::Field { obj, name } => match slot_exprs_get(slot_exprs, base) {
            Some(this) => *this == **obj,
            None => false,
        },
        _ => false,
    }
}

/// `obj:name(args)`, for the field `obj.name`.
fn build_method(func: Expr, args: Vec<Expr>) -> (e: Expr)
    requires
        func is Field,
    ensures
        e@ == method_expr(func@, ast::exprs_v(args@)),
        e is MethodCall,
{
    match func {
        Expr::Field { obj, name } => Expr::MethodCall { obj, method: name, args },
        other => other,
    }
}

/// The smaller of a register number and 255.
fn clip(slot: u16) -> (out: u16)
    ensures
        out == clipped(slot as int),
{
    if slot < 255 {
        slot
    } else {
        255
    }
}

/// The names of the locals that the `n` registers from `a` on are
/// declared as, if each is.
fn collect_declared(proto: &Proto, a: u8, n: u8, index: usize) -> (names: Option<Vec<String>>)
    ensures
        match (names, declared_names(proto@, a, n as nat, index as int)) {
            (Some(out), Some(expected)) => text::views(out@) == expected && out@.len() == n && a + n
                <= 256,
            (None, None) => true,
            _ => false,
        },
        n == 0 ==> names is Some,
    decreases n,
{
    if n == 0 {
        let out: Vec<String> = Vec::new();
        assert(text::views(out@) =~= seq![]);
        return Some(out);
    }
    let slot: u16 = a as u16 + n as u16 - 1;
    if slot > 255 || !proto.is_var_declaration_at(slot as u8, index) {
        return None;
    }
    match collect_declared(proto, a, n - 1, index) {
        None => None,
        Some(init) => match proto.var_name_at(slot as u8, index) {
            None => None,
            Some(name) => {
                let mut out = init;
                let ghost before = text::views(out@);
                out.push(name.clone());
                assert(text::views(out@) =~= before.push(name@));
                Some(out)
            },
        },
    }
}

/// Make the registers from `a` on stand for names.
pub fn bind_names(slot_exprs: &mut HashMap<u8, Expr>, a: u8, names: &Vec<String>)
    requires
        a + names@.len() <= 256,
    ensures
        operand::slots_v(final(slot_exprs)@) == named_slots(
            operand::slots_v(old(slot_exprs)@),
            a,
            text::views(names@),
        ),
{
    let ghost all = text::views(names@);
    let ghost start = operand::slots_v(slot_exprs@);
    let mut i: usize = 0;
    proof {
        assert(all.take(0) =~= seq![]);
    }
    while i < names.len()
        invariant
            a + names@.len() <= 256,
            i <= names@.len(),
            all == text::views(names@),
            operand::slots_v(slot_exprs@) == named_slots(start, a, all.take(i as int)),
        decreases names@.len() - i,
    {
        let slot: u8 = (a as usize + i) as u8;
        let var = Expr::Var(names[i].clone());
        proof {
            operand::lemma_slots_insert(slot_exprs@, slot, var);
            assert(all.take(i + 1).drop_last() =~= all.take(i as int));
            assert(all.take(i + 1).last() == names@[i as int]@);
        }
        slot_exprs.insert(slot, var);
        i = i + 1;
    }
    assert(all.take(i as int) =~= all);
}

/// Route a CALL/CALLM result according to its B operand.
///
/// - **B == 0** (multres): store the call in slot A; the consumer
///   (RETM, CALLM, etc.) pulls it from there.
/// - **B == 1**: result discarded. Emit the call as a bare statement.
/// - **B == 2**: single result at slot A, through [`assign_slot_ast`].
/// - **B > 2**: known multiple results. A regular call whose result
///   slots are all declaration points of named locals is
///   `local a, b, c = f()`; anything else has no clean source form.
fn route_call_result(
    ctx: &mut RecoveryCtx,
    stmts: &mut Vec<Stmt>,
    inst: &Instruction,
    real_idx: usize,
    call_expr: Expr,
    method: bool,
) -> (res: Result<(), DecompilerError>)
    requires
        old(ctx).wf(),
        call_expr is Call || call_expr is MethodCall,
    ensures
        final(ctx).same_but_slots(*old(ctx)),
        steps(
            res,
            routed(
                old(ctx).env().proto(),
                old(ctx).frame(old(stmts)@),
                *inst,
                real_idx as int,
                call_expr@,
                method,
            ),
            final(ctx).frame(final(stmts)@),
        ),
        res is Err ==> final(ctx).frame(final(stmts)@) == old(ctx).frame(old(stmts)@),
{
    let proto = ctx.proto();
    let b: u8 = inst.b();
    if b == 0 {
        proof {
            operand::lemma_slots_insert(ctx.slot_exprs@, inst.a, call_expr);
        }
        ctx.slot_exprs.insert(inst.a, call_expr);
        return Ok(());
    }
    if b == 1 {
        let ghost call_v = call_expr@;
        let stmt = match call_expr {
            Expr::MethodCall { obj, method: name, args } => Stmt::MethodCall {
                obj: *obj,
                method: name,
                args,
            },
            Expr::Call { func, args } => Stmt::Call { func: *func, args },
            _ => {
                return Err(DecompilerError::NotImplemented);
            },
        };
        proof {
            assert(call_stmt(call_v) == Ok::<StmtV, Fault>(stmt@));
            ast::lemma_stmts_push(stmts@, stmt);
        }
        stmts.push(stmt);
        return Ok(());
    }
    if b == 2 {
        assign_slot_ast(proto, &mut ctx.slot_exprs, stmts, inst.a, call_expr, real_idx);
        return Ok(());
    }
    match collect_declared(proto, inst.a, b - 1, real_idx) {
        Some(names) => {
            if method {
                return Err(DecompilerError::NotImplemented);
            }
            bind_names(&mut ctx.slot_exprs, inst.a, &names);
            let stmt = Stmt::LocalDeclMulti { names, expr: call_expr };
            proof {
                ast::lemma_stmts_push(stmts@, stmt);
            }
            stmts.push(stmt);
            Ok(())
        },
        None => Err(DecompilerError::NotImplemented),
    }
}

/// CALL A B C: the function is at slot A, `C - 1` arguments follow at
/// the argument base, and B says what becomes of the results.
fn process_call(ctx: &mut RecoveryCtx, stmts: &mut Vec<Stmt>, idx: usize) -> (res: Result<
    (),
    DecompilerError,
>)
    requires
        old(ctx).wf(),
        1 <= idx < old(ctx).env().proto().insts.len(),
    ensures
        final(ctx).same_but_slots(*old(ctx)),
        steps(
            res,
            called(old(ctx).env(), old(ctx).frame(old(stmts)@), idx as int),
            final(ctx).frame(final(stmts)@),
        ),
        res is Err ==> final(ctx).frame(final(stmts)@) == old(ctx).frame(old(stmts)@),
{
    let proto = ctx.proto();
    let inst = proto.insts[idx];
    let base: u16 = if ctx.is_fr2 {
        inst.a as u16 + 2
    } else {
        inst.a as u16 + 1
    };
    if inst.c == 0 || base > 255 {
        return Err(DecompilerError::NotImplemented);
    }
    let func = lookup_operand(&ctx.slot_exprs, inst.a)?;
    if is_method_call(&func, &ctx.slot_exprs, base as u8) {
        // Explicit args start behind self.
        let count: u16 = if inst.c >= 2 {
            inst.c as u16 - 2
        } else {
            0
        };
        let args = collect_operands(&ctx.slot_exprs, base + 1, clip(base + 1 + count))?;
        let call = build_method(func, args);
        return route_call_result(ctx, stmts, &inst, idx - 1, call, true);
    }
    let args = collect_operands(&ctx.slot_exprs, base, clip(base + inst.c as u16 - 1))?;
    let call = Expr::Call { func: Box::new(func), args };
    // The call in front of ISNEXT produces the iterator of the
    // surrounding generic for; its result slots are no named locals.
    let total: usize = proto.insts.len();
    let next_is_isnext = idx + 1 < total && proto.insts[idx + 1].op == Opcode::Isnext;
    if next_is_isnext {
        proof {
            operand::lemma_slots_insert(ctx.slot_exprs@, inst.a, call);
        }
        ctx.slot_exprs.insert(inst.a, call);
        return Ok(());
    }
    route_call_result(ctx, stmts, &inst, idx - 1, call, false)
}

/// CALLM A B C: as CALL, with the results of the previous CALL/VARG
/// behind the C fixed arguments.
fn process_callm(ctx: &mut RecoveryCtx, stmts: &mut Vec<Stmt>, idx: usize) -> (res: Result<
    (),
    DecompilerError,
>)
    requires
        old(ctx).wf(),
        1 <= idx < old(ctx).env().proto().insts.len(),
    ensures
        final(ctx).same_but_slots(*old(ctx)),
        steps(
            res,
            called_multi(old(ctx).env(), old(ctx).frame(old(stmts)@), idx as int),
            final(ctx).frame(final(stmts)@),
        ),
        res is Err ==> final(ctx).frame(final(stmts)@) == old(ctx).frame(old(stmts)@),
{
    let proto = ctx.proto();
    let inst = proto.insts[idx];
    let base: u16 = if ctx.is_fr2 {
        inst.a as u16 + 2
    } else {
        inst.a as u16 + 1
    };
    if base > 255 {
        return Err(DecompilerError::NotImplemented);
    }
    let func = lookup_operand(&ctx.slot_exprs, inst.a)?;
    if is_method_call(&func, &ctx.slot_exprs, base as u8) {
        let count: u16 = if inst.c >= 1 {
            inst.c as u16 - 1
        } else {
            0
        };
        let mut args = collect_operands(&ctx.slot_exprs, base + 1, clip(base + 1 + count))?;
        let last = lookup_wide(&ctx.slot_exprs, clip(base + inst.c as u16))?;
        proof {
            ast::lemma_exprs_push(args@, last);
        }
        args.push(last);
        let call = build_method(func, args);
        return route_call_result(ctx, stmts, &inst, idx - 1, call, true);
    }
    if inst.c != 0 {
        // Fixed arguments in front of the trailing ones.
        return Err(DecompilerError::NotImplemented);
    }
    let last = lookup_operand(&ctx.slot_exprs, base as u8)?;
    let mut args: Vec<Expr> = Vec::new();
    proof {
        ast::lemma_exprs_push(args@, last);
        assert(ast::exprs_v(args@.push(last)) =~= seq![last@]);
    }
    args.push(last);
    let call = Expr::Call { func: Box::new(func), args };
    route_call_result(ctx, stmts, &inst, idx - 1, call, false)
}

// ---- One instruction -----------------------------------------------------------------------

/// Whether an opcode computes a value into register A.
fn is_computing(op: Opcode) -> (b: bool)
    ensures
        b == op_computes(op),
{
    operand::binop_kind_for_arith(op).is_ok() || matches!(
            op,
            Opcode::Kshort
                | Opcode::Knum
                | Opcode::Kstr
                | Opcode::Kpri
                | Opcode::Gget
                | Opcode::Pow
                | Opcode::Cat
                | Opcode::Mov
                | Opcode::Tgets
                | Opcode::Tgetv
                | Opcode::Tgetb
                | Opcode::Tnew
                | Opcode::Tdup
                | Opcode::Len
                | Opcode::Fnew
                | Opcode::Varg
        )
}

/// Whether an opcode writes to a table, a global or an upvalue.
fn is_writing(op: Opcode) -> (b: bool)
    ensures
        b == op_writes(op),
{
    matches!(
            op,
            Opcode::Tsets
                | Opcode::Tsetb
                | Opcode::Tsetv
                | Opcode::Gset
                | Opcode::Usetv
                | Opcode::Usets
                | Opcode::Usetn
                | Opcode::Usetp
        )
}

/// Process one non-terminator instruction: build its [`Expr`] and route
/// the destination slot through [`assign_slot_ast`], or emit its
/// statement.
///
/// `inst_id` is the absolute instruction index; debug-info lookups
/// index real instructions from 0 (excluding the FUNC* header at
/// in-memory slot 0).
pub fn process_inst(
    ctx: &mut RecoveryCtx,
    stmts: &mut Vec<Stmt>,
    inst_id: InstructionId,
) -> (res: Result<(), DecompilerError>)
    requires
        old(ctx).wf(),
        1 <= inst_id.0 < old(ctx).env().proto().insts.len(),
    ensures
        final(ctx).same_but_slots(*old(ctx)),
        steps(
            res,
            step(old(ctx).env(), old(ctx).frame(old(stmts)@), inst_id.0 as int),
            final(ctx).frame(final(stmts)@),
        ),
        res is Err ==> final(ctx).frame(final(stmts)@) == old(ctx).frame(old(stmts)@),
    decreases old(ctx).proto_idx, 2int,
{
    let idx: usize = inst_id.0 as usize;
    let proto = ctx.proto();
    let inst = proto.insts[idx];
    if is_computing(inst.op) {
        let value = compute_value(ctx, &inst)?;
        assign_slot_ast(proto, &mut ctx.slot_exprs, stmts, inst.a, value, idx - 1);
        return Ok(());
    }
    if is_writing(inst.op) {
        let stmt = build_write(ctx, &inst)?;
        proof {
            ast::lemma_stmts_push(stmts@, stmt);
        }
        stmts.push(stmt);
        return Ok(());
    }
    match inst.op {
        Opcode::Uget => {
            // The loaded value goes to a compiler temp, not a
            // source-level local: no statement.
            let name = upvalue_ref(ctx, inst.d() as usize)?;
            let var = Expr::Var(name);
            proof {
                operand::lemma_slots_insert(ctx.slot_exprs@, inst.a, var);
            }
            ctx.slot_exprs.insert(inst.a, var);
            Ok(())
        },
        Opcode::Call => process_call(ctx, stmts, idx),
        Opcode::Callm => process_callm(ctx, stmts, idx),
        // LOOP is a marker. ITERN advances the iterator that the
        // surrounding for drives. UCLO closes upvalues, which has no
        // source form.
        Opcode::Loop | Opcode::Itern | Opcode::Uclo => Ok(()),
        _ => Err(DecompilerError::NotImplemented),
    }
}

} // verus!
