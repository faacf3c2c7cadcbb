//! What one instruction does to the registers and adds to the source,
//! by what the machine does and what the debug section says.

use vstd::prelude::*;

use crate::ir;
use crate::ir::{Instruction, Opcode, ProtoV, VarKind};
use crate::structure::ast::{ExprV, StmtV};
use crate::structure::equality;
use crate::structure::function;
use crate::structure::lower;
use crate::structure::lower::Env;
use crate::structure::meaning;
use crate::structure::meaning::Meaning;
use crate::structure::operand;
use crate::structure::operand::Frame;
use crate::structure::table;
use crate::structure::walk;
use crate::text;
use crate::Fault;

verus! {

// ---- Locals by scope ------------------------------------------------------------

/// Whether record `i` of the debug section names a local in `slot` whose
/// scope, from its begin through its end, holds the real instruction
/// `index`.
pub open spec fn in_scope(p: ProtoV, i: int, slot: u8, index: int) -> bool {
    &&& p.debug is Some
    &&& 0 <= i < p.debug->Some_0.var_info.len()
    &&& {
        let v = p.debug->Some_0.var_info[i];
        &&& v.kind == VarKind::Name
        &&& v.name is Some
        &&& v.slot == slot
        &&& v.scope_begin <= index
        &&& index <= v.scope_end
    }
}

/// Whether no record names a local in `slot` at `index`.
pub open spec fn unnamed(p: ProtoV, slot: u8, index: int) -> bool {
    forall|i: int| !in_scope(p, i, slot, index)
}

/// Whether record `i` is the first that names a local in `slot` at
/// `index`, and `name` is its name.
pub open spec fn named_by(p: ProtoV, i: int, slot: u8, index: int, name: Seq<char>) -> bool {
    &&& in_scope(p, i, slot, index)
    &&& forall|j: int| 0 <= j < i ==> !in_scope(p, j, slot, index)
    &&& p.debug->Some_0.var_info[i].name == Some(name)
}

/// Whether a local in `slot` begins at exactly `index`.
pub open spec fn begins(p: ProtoV, slot: u8, index: int) -> bool {
    exists|i: int| #[trigger]
        in_scope(p, i, slot, index) && p.debug->Some_0.var_info[i].scope_begin == index
}

proof fn lemma_live_from(p: ProtoV, slot: u8, index: int, from: int)
    requires
        p.debug is Some,
        0 <= from <= p.debug->Some_0.var_info.len(),
    ensures
        match ir::live_name_from(p.debug->Some_0.var_info, slot, index, from) {
            None => forall|i: int| from <= i ==> !in_scope(p, i, slot, index),
            Some(name) => exists|i: int|
                from <= i && #[trigger] in_scope(p, i, slot, index) && (forall|j: int|
                    from <= j < i ==> !in_scope(p, j, slot, index))
                    && p.debug->Some_0.var_info[i].name == Some(name),
        },
    decreases p.debug->Some_0.var_info.len() - from,
{
    let records = p.debug->Some_0.var_info;
    if from < records.len() {
        if ir::record_live(records[from], slot, index) {
            assert(in_scope(p, from, slot, index));
        } else {
            assert(!in_scope(p, from, slot, index));
            lemma_live_from(p, slot, index, from + 1);
            if let Some(name) = ir::live_name_from(records, slot, index, from) {
                let i = choose|i: int|
                    from + 1 <= i && #[trigger] in_scope(p, i, slot, index) && (forall|j: int|
                        from + 1 <= j < i ==> !in_scope(p, j, slot, index))
                        && records[i].name == Some(name);
                assert(in_scope(p, i, slot, index));
                assert forall|j: int| from <= j < i implies !in_scope(p, j, slot, index) by {
                    if j > from {
                    }
                }
            }
        }
    }
}

/// A register has a name at an instruction exactly when the scope of
/// some local in it holds that instruction, and the name is that of the
/// first such local. Past the end of its scope a local names nothing.
pub proof fn law_names_by_scope(p: ProtoV, slot: u8, index: int)
    ensures
        ir::live_name(p.debug, slot, index) is None <==> unnamed(p, slot, index),
        ir::live_name(p.debug, slot, index) matches Some(name) ==> exists|i: int| #[trigger]
            named_by(p, i, slot, index, name),
        ir::declared_at(p.debug, slot, index) <==> begins(p, slot, index),
{
    if p.debug is Some {
        let records = p.debug->Some_0.var_info;
        lemma_live_from(p, slot, index, 0);
        match ir::live_name(p.debug, slot, index) {
            None => {
                assert forall|i: int| !in_scope(p, i, slot, index) by {
                    if i >= 0 {
                    }
                }
            },
            Some(name) => {
                let i = choose|i: int|
                    0 <= i && #[trigger] in_scope(p, i, slot, index) && (forall|j: int|
                        0 <= j < i ==> !in_scope(p, j, slot, index)) && records[i].name == Some(
                        name,
                    );
                assert(named_by(p, i, slot, index, name));
            },
        }
        if ir::declared_at(p.debug, slot, index) {
            let i = choose|i: int|
                0 <= i < records.len() && ir::record_declares(#[trigger] records[i], slot, index);
            assert(in_scope(p, i, slot, index));
        }
        if begins(p, slot, index) {
            let i = choose|i: int| #[trigger]
                in_scope(p, i, slot, index) && records[i].scope_begin == index;
            assert(ir::record_declares(records[i], slot, index));
        }
    }
}

/// Whether register `slot` got `e` at `index`, between two frames: a
/// register without a name keeps the expression and adds no statement;
/// one with a name gets one statement that gives `e` to that name, a
/// declaration exactly where a local begins, and stands for the name.
/// No other register changes.
pub open spec fn puts(p: ProtoV, f: Frame, g: Frame, slot: u8, e: ExprV, index: int) -> bool {
    &&& forall|r: int|
        r != slot ==> (#[trigger] operand::operand(g.slots, r)) == operand::operand(f.slots, r)
    &&& unnamed(p, slot, index) ==> g.out == f.out && operand::operand(g.slots, slot as int) == Ok::<
        ExprV,
        Fault,
    >(e)
    &&& !unnamed(p, slot, index) ==> exists|i: int, name: Seq<char>|
        {
            &&& #[trigger] named_by(p, i, slot, index, name)
            &&& operand::operand(g.slots, slot as int) == Ok::<ExprV, Fault>(ExprV::Var(name))
            &&& g.out == f.out.push(
                if begins(p, slot, index) {
                    StmtV::LocalDecl { name, expr: e }
                } else {
                    StmtV::Assign { name, expr: e }
                },
            )
        }
}

/// A write to a register is a statement only while a local lives there.
pub proof fn law_register_writes_by_scope(p: ProtoV, f: Frame, slot: u8, e: ExprV, index: int)
    ensures
        puts(p, f, operand::assigned(p, f, slot, e, index), slot, e, index),
{
    law_names_by_scope(p, slot, index);
    if let Some(name) = ir::live_name(p.debug, slot, index) {
        let i = choose|i: int| #[trigger] named_by(p, i, slot, index, name);
        assert(named_by(p, i, slot, index, name));
    }
}

// ---- Computing instructions ----------------------------------------------------------

/// Whether register A got an expression with the given value at `index`.
pub open spec fn puts_value<V>(
    m: Meaning<V>,
    p: ProtoV,
    f: Frame,
    g: Frame,
    slot: u8,
    v: V,
    index: int,
) -> bool {
    exists|e: ExprV| #[trigger] puts(p, f, g, slot, e, index) && meaning::value(m, e) == v
}

/// An instruction that computes a value puts an expression with that
/// value into register A, and does so whenever all that it reads is
/// there.
pub proof fn law_results_reach_their_register<V>(
    m: Meaning<V>,
    env: Env,
    f: Frame,
    regs: spec_fn(int) -> V,
    idx: int,
)
    requires
        meaning::agrees(m, f.slots, regs),
        meaning::machine_computes(env.proto().insts[idx].op),
    ensures
        lower::step(env, f, idx) is Ok <==> meaning::machine_reads(
            env.proto(),
            f.slots,
            env.proto().insts[idx],
        ),
        lower::step(env, f, idx) matches Ok(g) ==> puts_value(
            m,
            env.proto(),
            f,
            g,
            env.proto().insts[idx].a,
            meaning::machine_result(m, env.proto(), regs, env.proto().insts[idx]),
            idx - 1,
        ),
{
    let p = env.proto();
    let inst = p.insts[idx];
    let result = meaning::machine_result(m, p, regs, inst);
    meaning::law_computed_value(m, env, f.slots, regs, inst);
    lemma_step_computes(env, f, idx);
    if let Ok(e) = lower::computed(env, f.slots, inst) {
        let g = operand::assigned(p, f, inst.a, e, idx - 1);
        law_register_writes_by_scope(p, f, inst.a, e, idx - 1);
        assert(puts(p, f, g, inst.a, e, idx - 1));
        assert(puts_value(m, p, f, g, inst.a, result, idx - 1));
    }
}

/// A computing instruction assigns what it computes to register A.
proof fn lemma_step_computes(env: Env, f: Frame, idx: int)
    requires
        lower::op_computes(env.proto().insts[idx].op),
    ensures
        lower::step(env, f, idx) == match lower::computed(env, f.slots, env.proto().insts[idx]) {
            Err(e) => Err(e),
            Ok(value) => Ok(
                operand::assigned(env.proto(), f, env.proto().insts[idx].a, value, idx - 1),
            ),
        },
{
}

/// A register that is loaded from an upvalue stands for the upvalue's
/// name, and no statement is added.
pub proof fn law_upvalue_reads(env: Env, f: Frame, idx: int)
    requires
        env.proto().insts[idx].op == Opcode::Uget,
    ensures
        ({
            let inst = env.proto().insts[idx];
            let i = meaning::machine_d(inst);
            &&& lower::step(env, f, idx) is Ok <==> env.names is Some && i < env.names->Some_0.len()
            &&& lower::step(env, f, idx) matches Ok(g) ==> {
                &&& g.out == f.out
                &&& forall|r: int| #[trigger]
                    operand::operand(g.slots, r) == if r == inst.a {
                        Ok(ExprV::Var(env.names->Some_0[i]))
                    } else {
                        operand::operand(f.slots, r)
                    }
            }
        }),
{
}

/// Markers change nothing.
pub proof fn law_markers_do_nothing(env: Env, f: Frame, idx: int)
    requires
        ({
            let op = env.proto().insts[idx].op;
            op == Opcode::Loop || op == Opcode::Itern || op == Opcode::Uclo
        }),
    ensures
        lower::step(env, f, idx) == Ok::<Frame, Fault>(f),
{
}

// ---- Writing instructions ------------------------------------------------------------

/// What a statement stores: a value under a name, or a value in a table
/// under a key.
pub enum Store<V> {
    Named(Seq<char>, V),
    Entry(V, V, V),
}

/// What an assignment stores.
pub open spec fn stored<V>(m: Meaning<V>, s: StmtV) -> Option<Store<V>> {
    match s {
        StmtV::Assign { name, expr } => Some(Store::Named(name, meaning::value(m, expr))),
        StmtV::TableSet { target: ExprV::Field { obj, name }, value } => Some(
            Store::Entry(meaning::value(m, *obj), (m.of_name)(name), meaning::value(m, value)),
        ),
        StmtV::TableSet { target: ExprV::Index { obj, key }, value } => Some(
            Store::Entry(
                meaning::value(m, *obj),
                meaning::value(m, *key),
                meaning::value(m, value),
            ),
        ),
        _ => None,
    }
}

/// Whether an instruction writes to a table, a global or an upvalue.
pub open spec fn machine_writes(op: Opcode) -> bool {
    op == Opcode::Tsetv || op == Opcode::Tsets || op == Opcode::Tsetb || op == Opcode::Gset || op
        == Opcode::Usetv || op == Opcode::Usets || op == Opcode::Usetn || op == Opcode::Usetp
}

/// What such an instruction stores.
pub open spec fn machine_store<V>(
    m: Meaning<V>,
    env: Env,
    regs: spec_fn(int) -> V,
    inst: Instruction,
) -> Store<V> {
    let p = env.proto();
    let a = regs(inst.a as int);
    let b = regs(meaning::machine_b(inst));
    let d = meaning::machine_d(inst);
    match inst.op {
        Opcode::Tsetv => Store::Entry(b, regs(inst.c as int), a),
        Opcode::Tsets => Store::Entry(
            b,
            (m.of_name)(text::utf8_lossy(meaning::machine_string(p, inst.c as int)->Some_0)),
            a,
        ),
        Opcode::Tsetb => Store::Entry(b, (m.of_int)(inst.c as int), a),
        Opcode::Gset => Store::Named(
            text::utf8_lossy(meaning::machine_string(p, d)->Some_0),
            a,
        ),
        Opcode::Usetv => Store::Named(env.names->Some_0[inst.a as int], b),
        Opcode::Usets => Store::Named(
            env.names->Some_0[inst.a as int],
            (m.of_bytes)(meaning::machine_string(p, d)->Some_0),
        ),
        Opcode::Usetn => Store::Named(
            env.names->Some_0[inst.a as int],
            meaning::machine_number(m, p, d),
        ),
        _ => Store::Named(
            env.names->Some_0[inst.a as int],
            meaning::machine_primitive(m, d),
        ),
    }
}

/// Whether all that such an instruction reads is there.
pub open spec fn machine_store_reads(env: Env, slots: Map<u8, ExprV>, inst: Instruction) -> bool {
    let p = env.proto();
    let a = meaning::known(slots, inst.a as int);
    let b = meaning::known(slots, meaning::machine_b(inst));
    let d = meaning::machine_d(inst);
    let named = env.names is Some && inst.a < env.names->Some_0.len();
    match inst.op {
        Opcode::Tsetv => a && b && meaning::known(slots, inst.c as int),
        Opcode::Tsets => a && b && meaning::machine_string(p, inst.c as int) is Some,
        Opcode::Tsetb => a && b,
        Opcode::Gset => a && meaning::machine_string(p, d) is Some,
        Opcode::Usetv => named && b,
        Opcode::Usets => named && meaning::machine_string(p, d) is Some,
        Opcode::Usetn => named && d < p.num_consts.len(),
        _ => named && d <= 2,
    }
}

/// An instruction that writes to a table, a global or an upvalue adds
/// one statement, which stores what the machine stores, and changes no
/// register. It does so whenever all that it reads is there.
pub proof fn law_writes_store_what_the_machine_does<V>(
    m: Meaning<V>,
    env: Env,
    f: Frame,
    regs: spec_fn(int) -> V,
    idx: int,
)
    requires
        meaning::agrees(m, f.slots, regs),
        machine_writes(env.proto().insts[idx].op),
    ensures
        ({
            let inst = env.proto().insts[idx];
            &&& lower::step(env, f, idx) is Ok <==> machine_store_reads(env, f.slots, inst)
            &&& lower::step(env, f, idx) matches Ok(g) ==> {
                &&& g.slots == f.slots
                &&& g.out.len() == f.out.len() + 1
                &&& f.out == g.out.drop_last()
                &&& stored(m, g.out.last()) == Some(machine_store(m, env, regs, inst))
            }
        }),
{
    let inst = env.proto().insts[idx];
    assert(meaning::machine_d(inst) == ir::inst_d(inst));
    reveal_with_fuel(meaning::value, 3);
    if let Ok(g) = lower::step(env, f, idx) {
        assert(f.out =~= g.out.drop_last());
    }
}

// ---- Calls -----------------------------------------------------------------------

/// The register of a call's first argument.
pub open spec fn first_argument(env: Env, inst: Instruction) -> int {
    if env.fr2 {
        inst.a + 2
    } else {
        inst.a + 1
    }
}

/// Whether a call has the function in register `a` and exactly the `n`
/// arguments in the registers from `base` on, in order. A method call has
/// its object as the first argument, and does not repeat it.
pub open spec fn passes(call: ExprV, slots: Map<u8, ExprV>, a: int, base: int, n: int) -> bool {
    match call {
        ExprV::Call { func, args } => {
            &&& operand::operand(slots, a) == Ok::<ExprV, Fault>(*func)
            &&& args.len() == n
            &&& forall|i: int|
                0 <= i < n ==> operand::operand(slots, base + i) == Ok::<ExprV, Fault>(
                    #[trigger] args[i],
                )
        },
        ExprV::MethodCall { obj, method, args } => {
            &&& operand::operand(slots, a) == Ok::<ExprV, Fault>(
                ExprV::Field { obj, name: method },
            )
            &&& operand::operand(slots, base) matches Ok(this) && equality::same_expr(this, *obj)
            &&& args.len() == n - 1
            &&& forall|i: int|
                0 <= i < n - 1 ==> operand::operand(slots, base + 1 + i) == Ok::<ExprV, Fault>(
                    #[trigger] args[i],
                )
        },
        _ => false,
    }
}

/// Whether a call reads as a method call: the function is a field of the
/// first argument.
pub open spec fn on_object(slots: Map<u8, ExprV>, a: int, base: int) -> bool {
    match (operand::operand(slots, a), operand::operand(slots, base)) {
        (Ok(ExprV::Field { obj, name }), Ok(this)) => equality::same_expr(this, *obj),
        _ => false,
    }
}

/// Whether a statement is the bare call.
pub open spec fn bare(s: StmtV, call: ExprV) -> bool {
    match (s, call) {
        (StmtV::Call { func, args }, ExprV::Call { func: f, args: xs }) => func == *f && args == xs,
        (
            StmtV::MethodCall { obj, method, args },
            ExprV::MethodCall { obj: o, method: n, args: xs },
        ) => obj == *o && method == n && args == xs,
        _ => false,
    }
}

/// Whether the results of a call went where its B operand says: all of
/// them to a later reader of register A, none, one to register A, or
/// `B - 1` to as many fresh locals from register A on.
pub open spec fn delivers(
    p: ProtoV,
    f: Frame,
    g: Frame,
    inst: Instruction,
    call: ExprV,
    index: int,
) -> bool {
    let b = meaning::machine_b(inst);
    if b == 0 {
        held(f, g, inst.a, call)
    } else if b == 1 {
        g.slots == f.slots && g.out.len() == f.out.len() + 1 && g.out.drop_last() == f.out && bare(
            g.out.last(),
            call,
        )
    } else if b == 2 {
        puts(p, f, g, inst.a, call, index)
    } else {
        declares_all(p, f, g, inst.a, b - 1, call, index)
    }
}

/// Whether register `a` holds `e`, and nothing else changed.
pub open spec fn held(f: Frame, g: Frame, a: u8, e: ExprV) -> bool {
    &&& g.out == f.out
    &&& forall|r: int| #[trigger]
        operand::operand(g.slots, r) == if r == a {
            Ok(e)
        } else {
            operand::operand(f.slots, r)
        }
}

/// Whether one statement declares the `n` registers from `a` on as the
/// locals that begin there, and each stands for its name.
pub open spec fn declares_all(
    p: ProtoV,
    f: Frame,
    g: Frame,
    a: u8,
    n: int,
    e: ExprV,
    index: int,
) -> bool {
    &&& g.out.len() == f.out.len() + 1
    &&& g.out.drop_last() == f.out
    &&& match g.out.last() {
        StmtV::LocalDeclMulti { names, expr } => {
            &&& expr == e
            &&& names.len() == n
            &&& forall|i: int|
                0 <= i < n ==> {
                    &&& operand::operand(g.slots, a + i) == Ok::<ExprV, Fault>(
                        ExprV::Var(#[trigger] names[i]),
                    )
                    &&& begins(p, (a + i) as u8, index)
                    &&& ir::live_name(p.debug, (a + i) as u8, index) == Some(names[i])
                }
        },
        _ => false,
    }
}

/// Collecting operands gives those of every register of the range.
proof fn lemma_operands(slots: Map<u8, ExprV>, from: int, to: int, so_far: Seq<ExprV>)
    requires
        from <= to,
    ensures
        lower::operands(slots, from, to, so_far) is Ok <==> forall|r: int|
            from <= r < to ==> meaning::known(slots, r),
        lower::operands(slots, from, to, so_far) matches Ok(args) ==> {
            &&& args.len() == so_far.len() + (to - from)
            &&& forall|i: int| 0 <= i < so_far.len() ==> args[i] == so_far[i]
            &&& forall|i: int|
                so_far.len() <= i < args.len() ==> operand::operand(
                    slots,
                    from + i - so_far.len(),
                ) == Ok::<ExprV, Fault>(#[trigger] args[i])
        },
    decreases to - from,
{
    if from < to {
        match operand::operand(slots, from) {
            Err(f) => {
                assert(!meaning::known(slots, from));
            },
            Ok(e) => {
                lemma_operands(slots, from + 1, to, so_far.push(e));
                if lower::operands(slots, from, to, so_far) is Err {
                    let r = choose|r: int| from + 1 <= r < to && !meaning::known(slots, r);
                    assert(!meaning::known(slots, r));
                } else {
                    assert forall|r: int| from <= r < to implies meaning::known(slots, r) by {
                        if r > from {
                        }
                    }
                    let args = lower::operands(slots, from, to, so_far)->Ok_0;
                    assert forall|i: int| 0 <= i < so_far.len() implies args[i] == so_far[i] by {
                        assert(args[i] == so_far.push(e)[i]);
                    }
                    assert forall|i: int| so_far.len() <= i < args.len() implies operand::operand(
                        slots,
                        from + i - so_far.len(),
                    ) == Ok::<ExprV, Fault>(#[trigger] args[i]) by {
                        if i == so_far.len() {
                            assert(args[i] == so_far.push(e)[i]);
                        }
                    }
                }
            },
        }
    }
}

/// The locals of a declaration of several, one by one.
proof fn lemma_declared(p: ProtoV, a: u8, n: nat, index: int)
    ensures
        lower::declared_names(p, a, n, index) is Some <==> a + n <= 256 && (forall|i: int|
            0 <= i < n ==> #[trigger] begins(p, (a + i) as u8, index)),
        lower::declared_names(p, a, n, index) matches Some(names) ==> {
            &&& names.len() == n
            &&& a + n <= 256
            &&& forall|i: int|
                0 <= i < n ==> ir::live_name(p.debug, (a + i) as u8, index) == Some(
                    #[trigger] names[i],
                ) && begins(p, (a + i) as u8, index)
        },
    decreases n,
{
    if n > 0 {
        let slot = (a + n - 1) as u8;
        lemma_declared(p, a, (n - 1) as nat, index);
        law_names_by_scope(p, slot, index);
        if lower::declared_names(p, a, n, index) is Some {
            assert forall|i: int| 0 <= i < n implies #[trigger] begins(
                p,
                (a + i) as u8,
                index,
            ) by {
                if i < n - 1 {
                }
            }
        } else if a + n <= 256 {
            if begins(p, slot, index) {
                let j = choose|j: int| #[trigger]
                    in_scope(p, j, slot, index) && p.debug->Some_0.var_info[j].scope_begin == index;
                assert(in_scope(p, j, slot, index));
                assert(ir::live_name(p.debug, slot, index) is Some);
                assert(lower::declared_names(p, a, (n - 1) as nat, index) is None);
                let i = choose|i: int|
                    0 <= i < n - 1 && !(#[trigger] begins(p, (a + i) as u8, index));
                assert(!begins(p, (a + i) as u8, index));
            } else {
                assert((a + (n - 1)) as u8 == slot);
                assert(!begins(p, (a + (n - 1)) as u8, index));
            }
        }
    }
}

/// The registers that got names stand for them.
pub proof fn lemma_named(slots: Map<u8, ExprV>, a: u8, names: Seq<Seq<char>>)
    requires
        a + names.len() <= 256,
    ensures
        forall|r: int| #[trigger]
            operand::operand(lower::named_slots(slots, a, names), r) == if a <= r < a
                + names.len() {
                Ok(ExprV::Var(names[r - a]))
            } else {
                operand::operand(slots, r)
            },
    decreases names.len(),
{
    if names.len() > 0 {
        lemma_named(slots, a, names.drop_last());
        let before = lower::named_slots(slots, a, names.drop_last());
        let after = lower::named_slots(slots, a, names);
        assert forall|r: int| #[trigger]
            operand::operand(after, r) == if a <= r < a + names.len() {
                Ok(ExprV::Var(names[r - a]))
            } else {
                operand::operand(slots, r)
            } by {
            assert(operand::operand(before, r) == if a <= r < a + names.len() - 1 {
                Ok(ExprV::Var(names.drop_last()[r - a]))
            } else {
                operand::operand(slots, r)
            });
        }
    }
}

/// Whether the results of a call can go where its B operand says.
pub open spec fn deliverable(p: ProtoV, inst: Instruction, method: bool, index: int) -> bool {
    let b = meaning::machine_b(inst);
    b > 2 ==> !method && inst.a + b - 1 <= 256 && (forall|i: int|
        0 <= i < b - 1 ==> #[trigger] begins(p, (inst.a + i) as u8, index))
}

/// The results of a call go where its B operand says.
pub proof fn law_results_follow_b(
    p: ProtoV,
    f: Frame,
    inst: Instruction,
    index: int,
    call: ExprV,
    method: bool,
)
    requires
        call is Call || call is MethodCall,
    ensures
        lower::routed(p, f, inst, index, call, method) is Ok <==> deliverable(
            p,
            inst,
            method,
            index,
        ),
        lower::routed(p, f, inst, index, call, method) matches Ok(g) ==> delivers(
            p,
            f,
            g,
            inst,
            call,
            index,
        ),
{
    let b = meaning::machine_b(inst);
    if b == 1 {
        if let Ok(g) = lower::routed(p, f, inst, index, call, method) {
            assert(g.out.drop_last() =~= f.out);
        }
    } else if b == 2 {
        law_register_writes_by_scope(p, f, inst.a, call, index);
    } else if b > 2 {
        lemma_declared(p, inst.a, (b - 1) as nat, index);
        if let Ok(g) = lower::routed(p, f, inst, index, call, method) {
            let names = lower::declared_names(p, inst.a, (b - 1) as nat, index)->Some_0;
            lemma_named(f.slots, inst.a, names);
            assert(g.out.drop_last() =~= f.out);
            assert forall|i: int| 0 <= i < b - 1 implies operand::operand(g.slots, inst.a + i)
                == Ok::<ExprV, Fault>(ExprV::Var(#[trigger] names[i])) by {}
        }
    }
}

/// Whether the next instruction makes a call the iterator of a generic
/// for.
pub open spec fn before_isnext(p: ProtoV, idx: int) -> bool {
    idx + 1 < p.insts.len() && ir::opcode_byte(p.insts[idx + 1].op) == 0x48
}

/// CALL passes on every argument: `C - 1` of them, from the argument base
/// on, and its results go where B says. It is a method call exactly when
/// the function is a field of the first argument. A call is refused only
/// when a register that it reads is not known, or its results have no
/// place.
pub proof fn law_call_passes_every_argument(env: Env, f: Frame, idx: int)
    requires
        ({
            let inst = env.proto().insts[idx];
            &&& inst.op == Opcode::Call
            &&& inst.c >= 1
            &&& first_argument(env, inst) + inst.c - 1 <= 255
            &&& on_object(f.slots, inst.a as int, first_argument(env, inst)) ==> inst.c >= 2
        }),
    ensures
        ({
            let p = env.proto();
            let inst = p.insts[idx];
            let base = first_argument(env, inst);
            let method = on_object(f.slots, inst.a as int, base);
            &&& lower::step(env, f, idx) matches Ok(g) ==> exists|call: ExprV|
                {
                    &&& #[trigger] passes(call, f.slots, inst.a as int, base, inst.c - 1)
                    &&& call is MethodCall <==> method
                    &&& if !method && before_isnext(p, idx) {
                        held(f, g, inst.a, call)
                    } else {
                        delivers(p, f, g, inst, call, idx - 1)
                    }
                }
            &&& lower::step(env, f, idx) is Ok <==> {
                &&& meaning::known(f.slots, inst.a as int)
                &&& forall|r: int| base <= r < base + inst.c - 1 ==> meaning::known(f.slots, r)
                &&& (!method && before_isnext(p, idx)) || deliverable(p, inst, method, idx - 1)
            }
        }),
{
    let p = env.proto();
    let inst = p.insts[idx];
    let base = first_argument(env, inst);
    assert(base == lower::arg_base(env.fr2, inst.a));
    assert(before_isnext(p, idx) == lower::before_isnext(p, idx));
    if let Ok(func) = operand::operand(f.slots, inst.a as int) {
        if lower::is_method(func, f.slots, base) {
            lemma_operands(f.slots, base + 1, base + inst.c - 1, seq![]);
            assert(meaning::known(f.slots, base));
            if let Ok(args) = lower::operands(f.slots, base + 1, base + inst.c - 1, seq![]) {
                let call = lower::method_expr(func, args);
                law_results_follow_b(p, f, inst, idx - 1, call, true);
                assert(passes(call, f.slots, inst.a as int, base, inst.c - 1));
                assert forall|r: int| base <= r < base + inst.c - 1 implies meaning::known(
                    f.slots,
                    r,
                ) by {
                    if r > base {
                    }
                }
            } else {
                let r = choose|r: int|
                    base + 1 <= r < base + inst.c - 1 && !meaning::known(f.slots, r);
                assert(!meaning::known(f.slots, r));
            }
        } else {
            lemma_operands(f.slots, base, base + inst.c - 1, seq![]);
            if let Ok(args) = lower::operands(f.slots, base, base + inst.c - 1, seq![]) {
                let call = lower::call_expr(func, args);
                law_results_follow_b(p, f, inst, idx - 1, call, false);
                assert(passes(call, f.slots, inst.a as int, base, inst.c - 1));
            } else {
                let r = choose|r: int| base <= r < base + inst.c - 1 && !meaning::known(f.slots, r);
                assert(!meaning::known(f.slots, r));
            }
        }
    }
}

/// CALLM passes on the `C` fixed arguments and, as the last, all values
/// of the instruction before. Fixed arguments are modeled for method
/// calls only.
pub proof fn law_multi_call_passes_every_argument(env: Env, f: Frame, idx: int)
    requires
        ({
            let inst = env.proto().insts[idx];
            &&& inst.op == Opcode::Callm
            &&& first_argument(env, inst) + inst.c < 255
            &&& on_object(f.slots, inst.a as int, first_argument(env, inst)) ==> inst.c >= 1
        }),
    ensures
        ({
            let p = env.proto();
            let inst = p.insts[idx];
            let base = first_argument(env, inst);
            let method = on_object(f.slots, inst.a as int, base);
            &&& lower::step(env, f, idx) matches Ok(g) ==> exists|call: ExprV|
                {
                    &&& #[trigger] passes(call, f.slots, inst.a as int, base, inst.c + 1)
                    &&& call is MethodCall <==> method
                    &&& delivers(p, f, g, inst, call, idx - 1)
                }
            &&& lower::step(env, f, idx) is Ok <==> {
                &&& meaning::known(f.slots, inst.a as int)
                &&& method || inst.c == 0
                &&& forall|r: int| base <= r <= base + inst.c ==> meaning::known(f.slots, r)
                &&& deliverable(p, inst, method, idx - 1)
            }
        }),
{
    let p = env.proto();
    let inst = p.insts[idx];
    let base = first_argument(env, inst);
    assert(base == lower::arg_base(env.fr2, inst.a));
    if let Ok(func) = operand::operand(f.slots, inst.a as int) {
        if lower::is_method(func, f.slots, base) {
            lemma_operands(f.slots, base + 1, base + inst.c, seq![]);
            assert(meaning::known(f.slots, base));
            match lower::operands(f.slots, base + 1, base + inst.c, seq![]) {
                Ok(args) => {
                    match operand::operand(f.slots, base + inst.c) {
                        Ok(last) => {
                            let call = lower::method_expr(func, args.push(last));
                            law_results_follow_b(p, f, inst, idx - 1, call, true);
                            assert(passes(call, f.slots, inst.a as int, base, inst.c + 1));
                            assert forall|r: int|
                                base <= r <= base + inst.c implies meaning::known(f.slots, r) by {
                                if base < r < base + inst.c {
                                }
                            }
                        },
                        Err(e) => {
                            assert(!meaning::known(f.slots, base + inst.c));
                        },
                    }
                },
                Err(e) => {
                    let r = choose|r: int|
                        base + 1 <= r < base + inst.c && !meaning::known(f.slots, r);
                    assert(!meaning::known(f.slots, r));
                },
            }
        } else if inst.c == 0 {
            match operand::operand(f.slots, base) {
                Ok(last) => {
                    let call = lower::call_expr(func, seq![last]);
                    law_results_follow_b(p, f, inst, idx - 1, call, false);
                    assert(passes(call, f.slots, inst.a as int, base, 1));
                },
                Err(e) => {
                    assert(!meaning::known(f.slots, base));
                },
            }
        }
    }
}

/// A tail call is a return of the call, which passes on `D - 1`
/// arguments.
pub proof fn law_tail_call_passes_every_argument(env: Env, f: Frame, idx: int)
    requires
        ({
            let inst = env.proto().insts[idx];
            let d = meaning::machine_d(inst);
            &&& d <= 0x100
            &&& d >= 1
            &&& first_argument(env, inst) + d - 1 <= 255
        }),
    ensures
        ({
            let inst = env.proto().insts[idx];
            let base = first_argument(env, inst);
            let n = meaning::machine_d(inst) - 1;
            &&& walk::tail_called(env, f, idx) matches Ok(g) ==> exists|call: ExprV|
                {
                    &&& #[trigger] passes(call, f.slots, inst.a as int, base, n)
                    &&& call is Call
                    &&& g.slots == f.slots
                    &&& g.out == f.out.push(StmtV::Return(Some(call)))
                }
            &&& walk::tail_called(env, f, idx) is Ok <==> {
                &&& meaning::known(f.slots, inst.a as int)
                &&& forall|r: int| base <= r < base + n ==> meaning::known(f.slots, r)
            }
        }),
{
    let inst = env.proto().insts[idx];
    let base = first_argument(env, inst);
    let n = meaning::machine_d(inst) - 1;
    assert(n == ir::inst_d(inst) - 1);
    lemma_operands(f.slots, base, base + n, seq![]);
    if let Ok(func) = operand::operand(f.slots, inst.a as int) {
        if let Ok(args) = lower::operands(f.slots, base, base + n, seq![]) {
            assert(passes(lower::call_expr(func, args), f.slots, inst.a as int, base, n));
        } else {
            let r = choose|r: int| base <= r < base + n && !meaning::known(f.slots, r);
            assert(!meaning::known(f.slots, r));
        }
    }
}

/// RET0 adds nothing; RET1 with one value, and RETM with all values of
/// the instruction before, return what register A holds. No other return
/// is modeled.
pub proof fn law_returns(p: ProtoV, f: Frame, idx: int)
    ensures
        ({
            let inst = p.insts[idx];
            let byte = ir::opcode_byte(inst.op);
            let one = byte == 0x4c && meaning::machine_d(inst) == 2;
            let all = byte == 0x49 && meaning::machine_d(inst) == 0;
            match walk::returned(p, f, idx) {
                Ok(g) => if byte == 0x4b {
                    g == f
                } else {
                    &&& one || all
                    &&& g.slots == f.slots
                    &&& exists|e: ExprV|
                        operand::operand(f.slots, inst.a as int) == Ok::<ExprV, Fault>(e)
                            && g.out == #[trigger] f.out.push(StmtV::Return(Some(e)))
                },
                Err(fault) => {
                    &&& fault == Fault::NotImplemented
                    &&& byte != 0x4b
                    &&& (one || all) ==> !meaning::known(f.slots, inst.a as int)
                },
            }
        }),
{
}

// ---- Literals ---------------------------------------------------------------------

/// TNEW makes an empty table; TDUP makes the literal of its template.
pub proof fn law_table_literals(env: Env, f: Frame, idx: int)
    requires
        ({
            let byte = ir::opcode_byte(env.proto().insts[idx].op);
            byte == 0x34 || byte == 0x35
        }),
    ensures
        ({
            let p = env.proto();
            let inst = p.insts[idx];
            let i = meaning::machine_d(inst);
            let k = p.gc_consts[p.gc_consts.len() - 1 - i];
            if ir::opcode_byte(inst.op) == 0x34 {
                lower::step(env, f, idx) matches Ok(g) && puts(
                    p,
                    f,
                    g,
                    inst.a,
                    (ExprV::Table { entries: seq![] }),
                    idx - 1,
                )
            } else {
                &&& lower::step(env, f, idx) is Ok <==> i < p.gc_consts.len() && k is Tab
                &&& lower::step(env, f, idx) matches Ok(g) ==> puts(
                    p,
                    f,
                    g,
                    inst.a,
                    (ExprV::Table { entries: table::table_entries(k->Tab_0) }),
                    idx - 1,
                )
            }
        }),
{
    let p = env.proto();
    let inst = p.insts[idx];
    lemma_step_computes(env, f, idx);
    if let Ok(e) = lower::computed(env, f.slots, inst) {
        law_register_writes_by_scope(p, f, inst.a, e, idx - 1);
    }
}

/// Whether `name` is that of the variable which the upvalue descriptor
/// `raw` captures: with its top bit set, what a register of the parent
/// stands for; else an upvalue of the parent.
pub open spec fn captures(
    slots: Map<u8, ExprV>,
    parent: Option<Seq<Seq<char>>>,
    raw: u16,
    name: Seq<char>,
) -> bool {
    let i = (raw & 0x3fff) as int;
    if raw & 0x8000 != 0 {
        ||| operand::operand(slots, i) == Ok::<ExprV, Fault>(ExprV::Var(name))
        ||| operand::operand(slots, i) == Ok::<ExprV, Fault>(ExprV::Global(name))
    } else {
        parent is Some && i < parent->Some_0.len() && parent->Some_0[i] == name
    }
}

/// Whether an upvalue descriptor captures a named variable.
pub open spec fn capturable(
    slots: Map<u8, ExprV>,
    parent: Option<Seq<Seq<char>>>,
    raw: u16,
) -> bool {
    exists|name: Seq<char>| #[trigger] captures(slots, parent, raw, name)
}

proof fn lemma_upvalues_from(
    slots: Map<u8, ExprV>,
    parent: Option<Seq<Seq<char>>>,
    uvs: Seq<ir::UpvalDesc>,
    from: int,
    so_far: Seq<Seq<char>>,
)
    requires
        0 <= from <= uvs.len(),
        so_far.len() == from,
        forall|i: int| 0 <= i < from ==> captures(slots, parent, uvs[i].raw, #[trigger] so_far[i]),
    ensures
        function::upvalue_names_from(slots, parent, uvs, from, so_far) matches Ok(names) ==> {
            &&& names.len() == uvs.len()
            &&& forall|i: int|
                0 <= i < uvs.len() ==> captures(slots, parent, uvs[i].raw, #[trigger] names[i])
        },
        function::upvalue_names_from(slots, parent, uvs, from, so_far) is Err ==> exists|i: int|
            from <= i < uvs.len() && !capturable(slots, parent, (#[trigger] uvs[i]).raw),
    decreases uvs.len() - from,
{
    if from < uvs.len() {
        match function::upvalue_name(slots, parent, uvs[from]) {
            Err(f) => {
                assert(!capturable(slots, parent, uvs[from].raw));
            },
            Ok(name) => {
                assert(captures(slots, parent, uvs[from].raw, name));
                lemma_upvalues_from(slots, parent, uvs, from + 1, so_far.push(name));
            },
        }
    }
}

/// A child's upvalues get the names of the variables that they capture,
/// in order, and are refused only when one captures no named variable.
pub proof fn law_upvalues_are_named_by_capture(
    slots: Map<u8, ExprV>,
    parent: Option<Seq<Seq<char>>>,
    uvs: Seq<ir::UpvalDesc>,
)
    ensures
        function::upvalue_names(slots, parent, uvs) matches Ok(names) ==> {
            &&& names.len() == uvs.len()
            &&& forall|i: int|
                0 <= i < uvs.len() ==> captures(slots, parent, uvs[i].raw, #[trigger] names[i])
        },
        function::upvalue_names(slots, parent, uvs) is Err ==> exists|i: int|
            0 <= i < uvs.len() && !capturable(slots, parent, (#[trigger] uvs[i]).raw),
{
    lemma_upvalues_from(slots, parent, uvs, 0, seq![]);
}

/// Whether register A got a function literal.
pub open spec fn makes(
    p: ProtoV,
    f: Frame,
    g: Frame,
    slot: u8,
    params: Seq<Seq<char>>,
    body: Seq<StmtV>,
    index: int,
) -> bool {
    puts(p, f, g, slot, (ExprV::Function { params, body }), index)
}

/// Whether `names` are those of a child's upvalues: none when it has
/// none, else what they capture.
pub open spec fn names_upvalues(
    env: Env,
    slots: Map<u8, ExprV>,
    child: ProtoV,
    names: Option<Seq<Seq<char>>>,
) -> bool {
    match names {
        None => child.upvalues.len() == 0,
        Some(ns) => {
            &&& ns.len() == child.upvalues.len()
            &&& ns.len() > 0
            &&& forall|i: int|
                0 <= i < ns.len() ==> captures(
                    slots,
                    env.names,
                    child.upvalues[i].raw,
                    #[trigger] ns[i],
                )
        },
    }
}

/// Whether `params` are a child's parameters, with `...` behind them when
/// the child is vararg.
pub open spec fn lists_parameters(child: ProtoV, params: Seq<Seq<char>>) -> bool {
    let n = child.numparams as int;
    if child.flags & 0x02 != 0 {
        params.len() == n + 1 && params.last() == "..."@ && params.drop_last()
            == function::param_names(child)
    } else {
        params == function::param_names(child)
    }
}

/// FNEW makes a function literal: its body is that of the child which the
/// operand names, its parameters are the child's, with `...` behind them
/// when the child is vararg, and its upvalues are named by what they
/// capture.
pub proof fn law_function_literals(env: Env, f: Frame, idx: int) -> (r: (
    nat,
    Option<Seq<Seq<char>>>,
    Seq<Seq<char>>,
    Seq<StmtV>,
))
    requires
        ir::opcode_byte(env.proto().insts[idx].op) == 0x33,
    ensures
        lower::step(env, f, idx) matches Ok(g) ==> {
            let (c, names, params, body) = r;
            &&& function::child_index(
                env.module,
                env.idx as int,
                ir::inst_d(env.proto().insts[idx]),
            ) == Ok::<nat, Fault>(c)
            &&& makes(env.proto(), f, g, env.proto().insts[idx].a, params, body, idx - 1)
            &&& (env.kids)(c, names) == Ok::<Seq<StmtV>, Fault>(body)
            &&& names_upvalues(env, f.slots, env.module.protos[c as int], names)
            &&& lists_parameters(env.module.protos[c as int], params)
        },
{
    let p = env.proto();
    let inst = p.insts[idx];
    let d = ir::inst_d(inst);
    let c = function::child_index(env.module, env.idx as int, d)->Ok_0;
    let child = env.module.protos[c as int];
    let names = lower::child_names(env, f.slots, child)->Ok_0;
    let params = lower::param_list(child);
    let body = (env.kids)(c, names)->Ok_0;
    lemma_step_computes(env, f, idx);
    if let Ok(e) = lower::computed(env, f.slots, inst) {
        law_register_writes_by_scope(p, f, inst.a, e, idx - 1);
        law_upvalues_are_named_by_capture(f.slots, env.names, child.upvalues);
        function::law_one_name_per_parameter(child);
        assert(function::param_names(child).push("..."@).drop_last() =~= function::param_names(
            child,
        ));
        assert(e == (ExprV::Function { params, body }));
    }
    (c, names, params, body)
}

/// No other instruction is modeled inside a body.
pub proof fn law_other_instructions_are_refused(env: Env, f: Frame, idx: int)
    requires
        ({
            let op = env.proto().insts[idx].op;
            let byte = ir::opcode_byte(op);
            &&& !meaning::machine_computes(op)
            &&& !machine_writes(op)
            &&& byte != 0x2d && byte != 0x32 && byte != 0x33 && byte != 0x34 && byte != 0x35
            &&& byte != 0x41 && byte != 0x42 && byte != 0x46 && byte != 0x55
        }),
    ensures
        lower::step(env, f, idx) == Err::<Frame, Fault>(Fault::NotImplemented),
{
}

} // verus!
