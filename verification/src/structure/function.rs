//! Function literals: child prototypes, parameters, upvalues.

use std::collections::HashMap;

use vstd::prelude::*;

use crate::ir;
use crate::ir::{GcConst, GcConstV, Module, ModuleV, Proto, ProtoV, UpvalDesc, VarInfoV};
use crate::structure::ast::{Expr, ExprV};
use crate::structure::operand;
use crate::text;
use crate::DecompilerError;
use crate::Fault;

verus! {

broadcast use vstd::std_specs::hash::group_hash_axioms;

// ---- Child prototypes -----------------------------------------------------------

/// How many of the constants are child markers.
pub open spec fn child_count(gc_consts: Seq<GcConstV>) -> nat
    decreases gc_consts.len(),
{
    if gc_consts.len() == 0 {
        0
    } else {
        child_count(gc_consts.drop_last()) + if gc_consts.last() is Child {
            1nat
        } else {
            0nat
        }
    }
}

/// Whether a prototype has children of its own.
pub open spec fn has_children(p: ProtoV) -> bool {
    exists|i: int| 0 <= i < p.gc_consts.len() && #[trigger] p.gc_consts[i] is Child
}

/// Whether a prototype before `parent` has children of its own.
pub open spec fn nested_below(m: ModuleV, parent: int) -> bool {
    exists|i: int| 0 <= i < parent && has_children(#[trigger] m.protos[i])
}

/// The prototype that FNEW refers to by `d`. The markers of a parent's
/// children are in reverse of the order of the prototypes, which stand
/// immediately before the parent: the `k`-th marker in file order is the
/// prototype `k` places before the parent. That holds only as long as no
/// child has children of its own.
pub open spec fn child_index(m: ModuleV, parent: int, d: u16) -> Result<nat, Fault> {
    let gcs = m.protos[parent].gc_consts;
    match ir::gc_const_at(gcs, d) {
        Err(f) => Err(f),
        Ok(gc) => {
            let k = child_count(gcs.take(gcs.len() - d));
            if gc !is Child || nested_below(m, parent) || k > parent {
                Err(Fault::NotImplemented)
            } else {
                Ok((parent - k) as nat)
            }
        },
    }
}

/// A function literal always refers to a prototype before its own.
pub proof fn law_children_come_first(m: ModuleV, parent: int, d: u16)
    requires
        0 <= parent < m.protos.len(),
    ensures
        child_index(m, parent, d) matches Ok(child) ==> child < parent,
{
    let gcs = m.protos[parent].gc_consts;
    if d < gcs.len() {
        let upto = gcs.take(gcs.len() - d);
        assert(upto.last() == gcs[gcs.len() - 1 - d]);
    }
}

/// Constants that are no child markers do not count.
proof fn lemma_child_count(gcs: Seq<GcConstV>, from: int, to: int)
    requires
        0 <= from <= to <= gcs.len(),
        forall|i: int| from <= i < to ==> !(#[trigger] gcs[i] is Child),
    ensures
        child_count(gcs.take(to)) == child_count(gcs.take(from)),
    decreases to - from,
{
    if from < to {
        lemma_child_count(gcs, from, to - 1);
        assert(gcs.take(to).drop_last() =~= gcs.take(to - 1));
        assert(gcs.take(to).last() == gcs[to - 1]);
    }
}

/// There are no more child markers than constants.
proof fn lemma_child_count_bound(gcs: Seq<GcConstV>)
    ensures
        child_count(gcs) <= gcs.len(),
    decreases gcs.len(),
{
    if gcs.len() > 0 {
        lemma_child_count_bound(gcs.drop_last());
    }
}

/// The first child marker of a table stands for the prototype right
/// before the parent. Only a marker stands for a child, and only while
/// no earlier prototype has children; with enough prototypes in front it
/// always does.
pub proof fn law_first_marker_is_the_nearest_child(m: ModuleV, parent: int, d: u16)
    requires
        0 <= parent < m.protos.len(),
        d < m.protos[parent].gc_consts.len(),
    ensures
        ({
            let gcs = m.protos[parent].gc_consts;
            let q = gcs.len() - 1 - d;
            let alone = forall|i: int, j: int|
                0 <= i < parent && 0 <= j < m.protos[i].gc_consts.len() ==> !(
                #[trigger] m.protos[i].gc_consts[j] is Child);
            &&& child_index(m, parent, d) is Ok ==> gcs[q] is Child && alone
            &&& gcs[q] is Child && alone && parent > q ==> child_index(m, parent, d) is Ok
            &&& child_index(m, parent, d) is Ok && (forall|i: int|
                0 <= i < q ==> !(#[trigger] gcs[i] is Child)) ==> child_index(m, parent, d)->Ok_0
                == parent - 1
        }),
{
    let gcs = m.protos[parent].gc_consts;
    let q = gcs.len() - 1 - d;
    let upto = gcs.take(q + 1);
    assert(upto.last() == gcs[q]);
    assert(upto.drop_last() =~= gcs.take(q));
    lemma_child_count_bound(upto);
    assert(gcs.take(0) =~= seq![]);
    if forall|i: int| 0 <= i < q ==> !(#[trigger] gcs[i] is Child) {
        lemma_child_count(gcs, 0, q);
    }
    if nested_below(m, parent) {
        let i = choose|i: int| 0 <= i < parent && has_children(#[trigger] m.protos[i]);
        let j = choose|j: int|
            0 <= j < m.protos[i].gc_consts.len() && #[trigger] m.protos[i].gc_consts[j] is Child;
        assert(m.protos[i].gc_consts[j] is Child);
    } else {
        assert forall|i: int, j: int|
            0 <= i < parent && 0 <= j < m.protos[i].gc_consts.len() implies !(
        #[trigger] m.protos[i].gc_consts[j] is Child) by {
            assert(!has_children(m.protos[i]));
        }
    }
}

/// Of two neighbouring child markers, the one further back in the table
/// stands for the prototype that is one place further from the parent.
pub proof fn law_markers_count_away_from_the_parent(m: ModuleV, parent: int, d: u16, e: u16)
    requires
        0 <= parent < m.protos.len(),
        e < d < m.protos[parent].gc_consts.len(),
        child_index(m, parent, d) is Ok,
        child_index(m, parent, e) is Ok,
        forall|i: int|
            m.protos[parent].gc_consts.len() - 1 - d < i < m.protos[parent].gc_consts.len() - 1 - e
                ==> !(#[trigger] m.protos[parent].gc_consts[i] is Child),
    ensures
        child_index(m, parent, e)->Ok_0 == child_index(m, parent, d)->Ok_0 - 1,
{
    let gcs = m.protos[parent].gc_consts;
    let q = gcs.len() - 1 - e;
    assert(gcs.take(q + 1).last() == gcs[q]);
    assert(gcs.take(q + 1).drop_last() =~= gcs.take(q));
    lemma_child_count(gcs, gcs.len() - d, q);
}

/// Whether a prototype has children of its own.
fn proto_has_children(proto: &Proto) -> (found: bool)
    ensures
        found == has_children(proto@),
{
    let mut i: usize = 0;
    while i < proto.gc_consts.len()
        invariant
            i <= proto.gc_consts@.len(),
            forall|k: int| 0 <= k < i ==> !(#[trigger] proto@.gc_consts[k] is Child),
        decreases proto.gc_consts@.len() - i,
    {
        assert(proto@.gc_consts[i as int] == proto.gc_consts@[i as int]@);
        if matches!(proto.gc_consts[i], GcConst::Child) {
            return true;
        }
        i = i + 1;
    }
    false
}

/// Resolve a FNEW's child proto to its index in `module.protos`.
pub fn resolve_child_proto(module: &Module, parent_idx: usize, fnew_d: u16) -> (res: Result<
    usize,
    DecompilerError,
>)
    requires
        parent_idx < module.protos@.len(),
    ensures
        match (res, child_index(module@, parent_idx as int, fnew_d)) {
            (Ok(child), Ok(expected)) => child == expected && child < parent_idx,
            (Err(e), Err(f)) => e@ == f,
            _ => false,
        },
{
    proof {
        law_children_come_first(module@, parent_idx as int, fnew_d);
    }
    let parent = &module.protos[parent_idx];
    assert(module@.protos[parent_idx as int] == parent@);
    let ghost gcs = parent@.gc_consts;
    // The gc_consts entry must be a Child marker.
    let gc = parent.gc_const_for_operand(fnew_d)?;
    if !matches!(gc, GcConst::Child) {
        return Err(DecompilerError::NotImplemented);
    }
    // If any proto before the parent has its own children, the index
    // formula doesn't apply.
    let mut i: usize = 0;
    while i < parent_idx
        invariant
            i <= parent_idx < module.protos@.len(),
            forall|k: int| 0 <= k < i ==> !has_children(#[trigger] module@.protos[k]),
            gcs == module@.protos[parent_idx as int].gc_consts,
            fnew_d < gcs.len(),
            gcs[gcs.len() - 1 - fnew_d] is Child,
        decreases parent_idx - i,
    {
        assert(module@.protos[i as int] == module.protos@[i as int]@);
        if proto_has_children(&module.protos[i]) {
            return Err(DecompilerError::NotImplemented);
        }
        i = i + 1;
    }
    // Count Child markers up to and including the target.
    let upto: usize = parent.gc_consts.len() - fnew_d as usize;
    let mut count: usize = 0;
    let mut j: usize = 0;
    proof {
        assert(gcs.take(0) =~= seq![]);
    }
    while j < upto
        invariant
            j <= upto <= parent.gc_consts@.len(),
            gcs == parent@.gc_consts,
            count <= j,
            count == child_count(gcs.take(j as int)),
        decreases upto - j,
    {
        proof {
            assert(gcs.take(j + 1).drop_last() =~= gcs.take(j as int));
            assert(gcs.take(j + 1).last() == parent.gc_consts@[j as int]@);
        }
        if matches!(parent.gc_consts[j], GcConst::Child) {
            count = count + 1;
        }
        j = j + 1;
    }
    if count > parent_idx {
        return Err(DecompilerError::NotImplemented);
    }
    Ok(parent_idx - count)
}

// ---- Parameters -------------------------------------------------------------------

/// The names of the first `n` parameter records, leaving out records
/// without a name.
pub open spec fn named_params(records: Seq<VarInfoV>, n: nat) -> Seq<Seq<char>>
    decreases records.len(),
{
    if records.len() == 0 || n == 0 {
        seq![]
    } else if records[0].is_parameter {
        (match records[0].name {
            Some(name) => seq![name],
            None => seq![],
        }) + named_params(records.drop_first(), (n - 1) as nat)
    } else {
        named_params(records.drop_first(), n)
    }
}

/// The names `_1`, `_2`, and so on.
pub open spec fn synthetic_params(n: nat) -> Seq<Seq<char>> {
    Seq::new(n, |i: int| seq!['_'] + text::decimal((i + 1) as nat))
}

/// The names that the debug section gives to parameters.
pub open spec fn debug_params(p: ProtoV) -> Seq<Seq<char>> {
    match p.debug {
        Some(d) => named_params(d.var_info, p.numparams as nat),
        None => seq![],
    }
}

/// The parameter names of a prototype: those of the debug section when
/// it has all of them, else synthetic ones.
pub open spec fn param_names(p: ProtoV) -> Seq<Seq<char>> {
    if debug_params(p).len() == p.numparams {
        debug_params(p)
    } else {
        synthetic_params(p.numparams as nat)
    }
}

/// There is one name per parameter.
pub proof fn law_one_name_per_parameter(p: ProtoV)
    ensures
        param_names(p).len() == p.numparams,
{
}

/// How many of the records are parameters.
pub open spec fn parameters_in(records: Seq<VarInfoV>) -> nat
    decreases records.len(),
{
    if records.len() == 0 {
        0
    } else {
        parameters_in(records.drop_first()) + if records[0].is_parameter {
            1nat
        } else {
            0nat
        }
    }
}

/// Whether the first `n` parameters all have a record with a name.
pub open spec fn all_named(records: Seq<VarInfoV>, n: nat) -> bool {
    &&& parameters_in(records) >= n
    &&& forall|j: int|
        0 <= j < records.len() && (#[trigger] records[j]).is_parameter && parameters_in(
            records.take(j),
        ) < n ==> records[j].name is Some
}

proof fn lemma_named_params(records: Seq<VarInfoV>, n: nat)
    ensures
        named_params(records, n).len() <= n,
        named_params(records, n).len() == n <==> all_named(records, n),
        all_named(records, n) ==> forall|j: int|
            0 <= j < records.len() && (#[trigger] records[j]).is_parameter && parameters_in(
                records.take(j),
            ) < n ==> records[j].name == Some(
                named_params(records, n)[parameters_in(records.take(j)) as int],
            ),
    decreases records.len(),
{
    if records.len() > 0 && n > 0 {
        let rest = records.drop_first();
        let k = if records[0].is_parameter {
            (n - 1) as nat
        } else {
            n
        };
        lemma_named_params(rest, k);
        assert(records.take(0) =~= seq![]);
        assert forall|j: int| 1 <= j < records.len() implies parameters_in(
            #[trigger] records.take(j),
        ) == parameters_in(rest.take(j - 1)) + (n - k) by {
            assert(records.take(j).drop_first() =~= rest.take(j - 1));
            assert(records.take(j)[0] == records[0]);
        }
        if all_named(records, n) {
            assert forall|j: int|
                0 <= j < rest.len() && (#[trigger] rest[j]).is_parameter && parameters_in(
                    rest.take(j),
                ) < k implies rest[j].name is Some by {
                assert(rest[j] == records[j + 1]);
                assert(parameters_in(records.take(j + 1)) == parameters_in(rest.take(j)) + (n - k));
            }
            assert(all_named(rest, k));
            if records[0].is_parameter {
                assert(records[0].name is Some);
            }
            assert forall|j: int|
                0 <= j < records.len() && (#[trigger] records[j]).is_parameter && parameters_in(
                    records.take(j),
                ) < n implies records[j].name == Some(
                named_params(records, n)[parameters_in(records.take(j)) as int],
            ) by {
                if j > 0 {
                    assert(records[j] == rest[j - 1]);
                    assert(parameters_in(records.take(j)) == parameters_in(rest.take(j - 1)) + (n
                        - k));
                }
            }
        } else if records[0].is_parameter && records[0].name is None {
        } else {
            if all_named(rest, k) {
                assert forall|j: int|
                    0 <= j < records.len() && (#[trigger] records[j]).is_parameter && parameters_in(
                        records.take(j),
                    ) < n implies records[j].name is Some by {
                    if j > 0 {
                        assert(records[j] == rest[j - 1]);
                        assert(parameters_in(records.take(j)) == parameters_in(rest.take(j - 1))
                            + (n - k));
                    }
                }
            }
        }
    }
}

/// Parameters have the names of their records, in the order of the
/// records, when every parameter has one; otherwise they are called by
/// their number.
pub proof fn law_parameters_are_named_in_order(p: ProtoV)
    ensures
        ({
            let n = p.numparams as nat;
            if p.debug is Some && all_named(p.debug->Some_0.var_info, n) {
                let records = p.debug->Some_0.var_info;
                forall|j: int|
                    0 <= j < records.len() && (#[trigger] records[j]).is_parameter
                        && parameters_in(records.take(j)) < n ==> records[j].name == Some(
                        param_names(p)[parameters_in(records.take(j)) as int],
                    )
            } else {
                forall|i: int|
                    0 <= i < n ==> #[trigger] param_names(p)[i] == seq!['_'] + text::decimal(
                        (i + 1) as nat,
                    )
            }
        }),
{
    if let Some(d) = p.debug {
        lemma_named_params(d.var_info, p.numparams as nat);
    }
}

/// The names that the debug section gives to the first `numparams`
/// parameters.
fn debug_param_names(child: &Proto) -> (names: Vec<String>)
    ensures
        text::views(names@) == debug_params(child@),
{
    let mut names: Vec<String> = Vec::new();
    proof {
        assert(text::views(names@) =~= seq![]);
    }
    if let Some(debug) = &child.debug {
        let ghost all = debug@.var_info;
        let mut left: u8 = child.numparams;
        let mut i: usize = 0;
        proof {
            assert(all.skip(0) =~= all);
            assert(text::views(names@) + named_params(all, left as nat) =~= named_params(
                all,
                left as nat,
            ));
        }
        while i < debug.var_info.len() && left > 0
            invariant
                i <= debug.var_info@.len(),
                all == debug@.var_info,
                named_params(all, child.numparams as nat) == text::views(names@) + named_params(
                    all.skip(i as int),
                    left as nat,
                ),
            decreases debug.var_info@.len() - i,
        {
            let ghost before = text::views(names@);
            let ghost rest = named_params(all.skip(i + 1), (left - 1) as nat);
            let v = &debug.var_info[i];
            proof {
                assert(all.skip(i as int)[0] == v@);
                assert(all.skip(i as int).drop_first() =~= all.skip(i + 1));
            }
            if v.is_parameter {
                left = left - 1;
                if let Some(name) = &v.name {
                    names.push(name.clone());
                    assert(text::views(names@) =~= before.push(name@));
                    assert(before + (seq![name@] + rest) =~= before.push(name@) + rest);
                } else {
                    assert(before + (Seq::<Seq<char>>::empty() + rest) =~= before + rest);
                }
            }
            i = i + 1;
        }
        assert(text::views(names@) + Seq::<Seq<char>>::empty() =~= text::views(names@));
    }
    names
}

/// Extract parameter names for a child proto.
///
/// The child's debug `var_info` carries records with
/// `is_parameter == true`; the first `numparams` such records name the
/// parameters. When debug info is absent (stripped proto) or doesn't
/// carry enough parameter names, fall back to synthetic names `_1`,
/// `_2`, ... so decompilation doesn't bail just because names were
/// stripped.
pub fn extract_params(child: &Proto) -> (params: Vec<String>)
    ensures
        text::views(params@) == param_names(child@),
{
    let names = debug_param_names(child);
    if names.len() == child.numparams as usize {
        return names;
    }
    let mut params: Vec<String> = Vec::new();
    let mut i: u8 = 0;
    while i < child.numparams
        invariant
            i <= child.numparams,
            params@.len() == i,
            forall|k: int|
                0 <= k < i ==> (#[trigger] params@[k])@ == seq!['_'] + text::decimal(
                    (k + 1) as nat,
                ),
        decreases child.numparams - i,
    {
        let mut name = String::new();
        name.push('_');
        assert(name@ =~= seq!['_']);
        text::push_decimal(&mut name, i as u64 + 1);
        params.push(name);
        i = i + 1;
    }
    assert(text::views(params@) =~= synthetic_params(child.numparams as nat));
    params
}

// ---- Upvalues -----------------------------------------------------------------------

/// The name of the variable that an upvalue captures. An open upvalue
/// is a register of the parent, which must stand for a name; a closed
/// one is an upvalue of the parent.
pub open spec fn upvalue_name(
    slots: Map<u8, ExprV>,
    names: Option<Seq<Seq<char>>>,
    uv: UpvalDesc,
) -> Result<Seq<char>, Fault> {
    let index = ir::upval_index(uv) as int;
    if ir::upval_open(uv) {
        match operand::operand(slots, index) {
            Ok(ExprV::Var(name)) => Ok(name),
            Ok(ExprV::Global(name)) => Ok(name),
            _ => Err(Fault::NotImplemented),
        }
    } else {
        match names {
            Some(parent) => if index < parent.len() {
                Ok(parent[index])
            } else {
                Err(Fault::NotImplemented)
            },
            None => Err(Fault::NotImplemented),
        }
    }
}

/// The names of the variables that the upvalues from `from` on capture,
/// after those of `so_far`.
pub open spec fn upvalue_names_from(
    slots: Map<u8, ExprV>,
    names: Option<Seq<Seq<char>>>,
    uvs: Seq<UpvalDesc>,
    from: int,
    so_far: Seq<Seq<char>>,
) -> Result<Seq<Seq<char>>, Fault>
    decreases uvs.len() - from,
{
    if from < 0 || from >= uvs.len() {
        Ok(so_far)
    } else {
        match upvalue_name(slots, names, uvs[from]) {
            Err(f) => Err(f),
            Ok(name) => upvalue_names_from(slots, names, uvs, from + 1, so_far.push(name)),
        }
    }
}

/// The names of the variables that a prototype's upvalues capture.
pub open spec fn upvalue_names(
    slots: Map<u8, ExprV>,
    names: Option<Seq<Seq<char>>>,
    uvs: Seq<UpvalDesc>,
) -> Result<Seq<Seq<char>>, Fault> {
    upvalue_names_from(slots, names, uvs, 0, seq![])
}

/// The values of a list of names that may be absent.
pub open spec fn names_v(names: Option<&[String]>) -> Option<Seq<Seq<char>>> {
    match names {
        Some(n) => Some(text::views(n@)),
        None => None,
    }
}

/// The name of the variable that an upvalue captures.
fn resolve_upvalue_name(
    parent_slot_exprs: &HashMap<u8, Expr>,
    parent_upvalue_names: Option<&[String]>,
    uv: &UpvalDesc,
) -> (res: Result<String, DecompilerError>)
    ensures
        crate::yields(
            res,
            upvalue_name(
                operand::slots_v(parent_slot_exprs@),
                names_v(parent_upvalue_names),
                *uv,
            ),
        ),
{
    let idx: u16 = uv.index();
    if uv.is_open() {
        // Registers are 8-bit; an index outside u8 range is malformed
        // bytecode.
        if idx > 255 {
            return Err(DecompilerError::NotImplemented);
        }
        match parent_slot_exprs.get(&(idx as u8)) {
            Some(Expr::Var(n)) => Ok(n.clone()),
            Some(Expr::Global(n)) => Ok(n.clone()),
            // The parent's local isn't named or isn't in scope at the
            // FNEW.
            _ => Err(DecompilerError::NotImplemented),
        }
    } else {
        match parent_upvalue_names {
            Some(names) => {
                if (idx as usize) < names.len() {
                    assert(text::views(names@)[idx as int] == names@[idx as int]@);
                    Ok(names[idx as usize].clone())
                } else {
                    Err(DecompilerError::NotImplemented)
                }
            },
            None => Err(DecompilerError::NotImplemented),
        }
    }
}

/// Resolve a child proto's upvalue descriptors to source-level names
/// using the PARENT's recovery context, so that UGET/USETx inside the
/// child can emit the right identifier. The result is parallel to
/// `child_upvalues`.
pub fn resolve_upvalue_names(
    parent_slot_exprs: &HashMap<u8, Expr>,
    parent_upvalue_names: Option<&[String]>,
    child_upvalues: &[UpvalDesc],
) -> (res: Result<Vec<String>, DecompilerError>)
    ensures
        match (
            res,
            upvalue_names(
                operand::slots_v(parent_slot_exprs@),
                names_v(parent_upvalue_names),
                child_upvalues@,
            ),
        ) {
            (Ok(names), Ok(expected)) => text::views(names@) == expected,
            (Err(e), Err(f)) => e@ == f,
            _ => false,
        },
{
    let ghost slots = operand::slots_v(parent_slot_exprs@);
    let ghost parent = names_v(parent_upvalue_names);
    let mut names: Vec<String> = Vec::new();
    let mut i: usize = 0;
    proof {
        assert(text::views(names@) =~= seq![]);
    }
    while i < child_upvalues.len()
        invariant
            i <= child_upvalues@.len(),
            slots == operand::slots_v(parent_slot_exprs@),
            parent == names_v(parent_upvalue_names),
            upvalue_names(slots, parent, child_upvalues@) == upvalue_names_from(
                slots,
                parent,
                child_upvalues@,
                i as int,
                text::views(names@),
            ),
        decreases child_upvalues@.len() - i,
    {
        let ghost before = text::views(names@);
        let name = resolve_upvalue_name(
            parent_slot_exprs,
            parent_upvalue_names,
            &child_upvalues[i],
        )?;
        names.push(name);
        assert(text::views(names@) =~= before.push(name@));
        i = i + 1;
    }
    Ok(names)
}

} // verus!
