//! Structural recovery.

use luadejit_core::DecompilerError;
use luadejit_core::cfg::{BasicBlock, BlockId, Cfg, InstructionId, Terminator};
use luadejit_core::emit::emit_module;
use luadejit_core::ir::{
    DebugInfo, GcConst, Instruction, KtabK, Module, ModuleHeader, NumConst, Opcode, Proto,
    TableConst, UpvalDesc, VarInfo, VarKind, FLAG_FR2,
};
use luadejit_core::structure::condition::{build_condition, build_test_condition};
use luadejit_core::structure::function::{extract_params, resolve_upvalue_names};
use luadejit_core::structure::walk::branch_shape;
use luadejit_core::structure::{BinOpKind, Expr, Stmt, TableEntry, recover};
use std::collections::HashMap;

// ---- shared test builders ------------------------------------------

/// Build a `VarInfo` record naming `slot` as `name` with a scope
/// covering real instructions `begin..=end` (inclusive).
fn named_local(slot: u8, name: &str, begin: u32, end: u32) -> VarInfo {
    VarInfo {
        kind: VarKind::Name,
        name: Some(name.to_string()),
        is_parameter: false,
        slot,
        scope_begin: begin,
        scope_end: end,
    }
}

fn module_with(
    real_insts: Vec<Instruction>,
    var_info: Vec<VarInfo>,
    gc_consts: Vec<GcConst>,
    num_consts: Vec<NumConst>,
    framesize: u8,
) -> Module {
    let mut insts = vec![Instruction::synthetic_header(Opcode::Funcv, framesize)];
    insts.extend(real_insts);
    Module {
        header: ModuleHeader {
            flags: FLAG_FR2,
            chunkname: None,
        },
        protos: vec![Proto {
            flags: 0,
            numparams: 0,
            framesize,
            upvalues: Vec::<UpvalDesc>::new(),
            gc_consts,
            num_consts,
            insts,
            debug: Some(DebugInfo {
                var_info,
                ..DebugInfo::default()
            }),
        }],
    }
}

/// Convenience: build an arithmetic instruction in ABC form.
fn abc(op: Opcode, a: u8, b: u8, c: u8) -> Instruction {
    Instruction {
        op,
        a,
        b_or_d: u32::from(b),
        c,
    }
}

/// Convenience: build an AD-format instruction (D = 16-bit
/// immediate / index).
fn ad(op: Opcode, a: u8, d: u16) -> Instruction {
    Instruction {
        op,
        a,
        b_or_d: u32::from(d),
        c: 0,
    }
}

fn emit(module: &Module) -> String {
    emit_module(module).expect("emit should succeed for supported shape")
}

#[test]
fn emit_ret0_only_returns_empty_source() {
    let module = module_with(
        vec![ad(Opcode::Ret0, 0, 1)],
        Vec::new(),
        Vec::new(),
        Vec::new(),
        1,
    );
    assert_eq!(emit(&module), "");
}

fn return_const_module(
    load: Instruction,
    gc_consts: Vec<GcConst>,
    num_consts: Vec<NumConst>,
) -> Module {
    module_with(
        vec![load, ad(Opcode::Ret1, 0, 2)],
        Vec::new(),
        gc_consts,
        num_consts,
        1,
    )
}

#[test]
fn emit_return_const_kshort() {
    let module = return_const_module(ad(Opcode::Kshort, 0, 5), Vec::new(), Vec::new());
    assert_eq!(emit(&module), "return 5");
}

#[test]
fn emit_return_const_kshort_negative() {
    // -7 as i16 is 0xFFF9 = 65529 as u16.
    let module = return_const_module(ad(Opcode::Kshort, 0, 0xFFF9), Vec::new(), Vec::new());
    assert_eq!(emit(&module), "return -7");
}

#[test]
fn emit_return_const_kpri_nil() {
    let module = return_const_module(ad(Opcode::Kpri, 0, 0), Vec::new(), Vec::new());
    assert_eq!(emit(&module), "return nil");
}

#[test]
fn emit_return_const_kpri_true() {
    let module = return_const_module(ad(Opcode::Kpri, 0, 2), Vec::new(), Vec::new());
    assert_eq!(emit(&module), "return true");
}

#[test]
fn emit_return_const_kpri_false() {
    let module = return_const_module(ad(Opcode::Kpri, 0, 1), Vec::new(), Vec::new());
    assert_eq!(emit(&module), "return false");
}

#[test]
fn emit_return_const_knum() {
    // KNUM's D is a FORWARD index.
    let module = return_const_module(
        ad(Opcode::Knum, 0, 0),
        Vec::new(),
        vec![NumConst::Num((3.14_f64).to_bits())],
    );
    assert_eq!(emit(&module), "return 3.14");
}

#[test]
fn emit_return_const_knum_int_const() {
    // A boxed-int num const should format as an integer.
    let module =
        return_const_module(ad(Opcode::Knum, 0, 0), Vec::new(), vec![NumConst::Int(42)]);
    assert_eq!(emit(&module), "return 42");
}

#[test]
fn emit_return_const_kstr() {
    // KSTR's D is a REVERSE index - operand 0 -> gc_consts[0]
    // when len == 1.
    let module = return_const_module(
        ad(Opcode::Kstr, 0, 0),
        vec![GcConst::Str(b"foo".to_vec())],
        Vec::new(),
    );
    assert_eq!(emit(&module), "return \"foo\"");
}

#[test]
fn emit_return_const_not_implemented_for_non_zero_ret_a() {
    // RET1 1 2: A != 0 - not the single-const-return shape.
    let mut module = return_const_module(ad(Opcode::Kshort, 0, 5), Vec::new(), Vec::new());
    module.protos[0].insts[2].a = 1;
    let result = emit_module(&module);
    assert!(
        matches!(result, Err(DecompilerError::NotImplemented)),
        "expected NotImplemented for RET1 with A != 0, got {:?}",
        result
    );
}

#[test]
fn emit_return_const_not_implemented_for_wrong_ret_d() {
    // RET1 0 3: D != 2 - not the single-value-return convention.
    let mut module = return_const_module(ad(Opcode::Kshort, 0, 5), Vec::new(), Vec::new());
    module.protos[0].insts[2].b_or_d = 3;
    let result = emit_module(&module);
    assert!(
        matches!(result, Err(DecompilerError::NotImplemented)),
        "expected NotImplemented for RET1 with D != 2, got {:?}",
        result
    );
}

#[test]
fn emit_return_const_not_implemented_for_load_to_nonzero_reg() {
    // KSHORT 1 5: load targets r1, but RET1 reads r0 - no
    // recorded expression for the RET1 slot.
    let mut module = return_const_module(ad(Opcode::Kshort, 0, 5), Vec::new(), Vec::new());
    module.protos[0].insts[1].a = 1;
    let result = emit_module(&module);
    assert!(
        matches!(result, Err(DecompilerError::NotImplemented)),
        "expected NotImplemented for load targeting r != 0, got {:?}",
        result
    );
}

#[test]
fn emit_return_const_not_implemented_for_unsupported_load_op() {
    // Unsupported load opcode (e.g. MOV) in the load slot.
    let module = return_const_module(ad(Opcode::Mov, 0, 0), Vec::new(), Vec::new());
    let result = emit_module(&module);
    assert!(
        matches!(result, Err(DecompilerError::NotImplemented)),
        "expected NotImplemented for unsupported load op, got {:?}",
        result
    );
}

#[test]
fn emit_returns_not_implemented_for_other_inputs() {
    // A module whose main proto has a non-RET0 instruction with
    // no recorded expression for RET1's slot.
    let mut module = module_with(
        vec![ad(Opcode::Ret0, 0, 1)],
        Vec::new(),
        Vec::new(),
        Vec::new(),
        1,
    );
    module.protos[0].insts[1] = ad(Opcode::Ret1, 0, 2);
    let result = emit_module(&module);
    assert!(
        matches!(result, Err(DecompilerError::NotImplemented)),
        "expected NotImplemented, got {:?}",
        result
    );
}

fn local_module(
    load: Instruction,
    ret: Instruction,
    name: &str,
    gc_consts: Vec<GcConst>,
    num_consts: Vec<NumConst>,
) -> Module {
    module_with(
        vec![load, ret],
        vec![named_local(0, name, 0, 1)],
        gc_consts,
        num_consts,
        1,
    )
}

#[test]
fn emit_local_int() {
    let module = local_module(
        ad(Opcode::Kshort, 0, 5),
        ad(Opcode::Ret1, 0, 2),
        "x",
        Vec::new(),
        Vec::new(),
    );
    assert_eq!(emit(&module), "local x = 5\nreturn x");
}

#[test]
fn emit_local_no_return() {
    // `local x = 5` with implicit return: KSHORT 0 5; RET0 0 1.
    let module = module_with(
        vec![ad(Opcode::Kshort, 0, 5), ad(Opcode::Ret0, 0, 1)],
        vec![named_local(0, "x", 0, 1)],
        Vec::new(),
        Vec::new(),
        1,
    );
    assert_eq!(emit(&module), "local x = 5");
}

#[test]
fn emit_local_str() {
    let module = local_module(
        ad(Opcode::Kstr, 0, 0),
        ad(Opcode::Ret1, 0, 2),
        "x",
        vec![GcConst::Str(b"foo".to_vec())],
        Vec::new(),
    );
    assert_eq!(emit(&module), "local x = \"foo\"\nreturn x");
}

#[test]
fn emit_local_with_ret1_wrong_slot() {
    // var_info names slot 0, but RET1 reads slot 1.
    let module = local_module(
        ad(Opcode::Kshort, 0, 5),
        Instruction {
            op: Opcode::Ret1,
            a: 1,
            b_or_d: 2,
            c: 0,
        },
        "x",
        Vec::new(),
        Vec::new(),
    );
    let result = emit_module(&module);
    assert!(
        matches!(result, Err(DecompilerError::NotImplemented)),
        "expected NotImplemented for RET1 reading wrong slot, got {:?}",
        result
    );
}

#[test]
fn emit_local_with_ret1_wrong_d() {
    let module = local_module(
        ad(Opcode::Kshort, 0, 5),
        Instruction {
            op: Opcode::Ret1,
            a: 0,
            b_or_d: 3,
            c: 0,
        },
        "x",
        Vec::new(),
        Vec::new(),
    );
    let result = emit_module(&module);
    assert!(
        matches!(result, Err(DecompilerError::NotImplemented)),
        "expected NotImplemented for RET1 with wrong D, got {:?}",
        result
    );
}

#[test]
fn emit_stage2_return_const_with_empty_var_info_still_works() {
    let module = return_const_module(ad(Opcode::Kshort, 0, 5), Vec::new(), Vec::new());
    assert_eq!(emit(&module), "return 5");
}

#[test]
fn emit_arith_addvn() {
    // `local a = 5; return a + 3`:
    //   KSHORT 0 5; ADDVN 1 0 0; RET1 1 2.
    let insts = vec![
        ad(Opcode::Kshort, 0, 5),
        abc(Opcode::Addvn, 1, 0, 0),
        ad(Opcode::Ret1, 1, 2),
    ];
    let module = module_with(
        insts,
        vec![named_local(0, "a", 0, 2)],
        Vec::new(),
        vec![NumConst::Int(3)],
        2,
    );
    assert_eq!(emit(&module), "local a = 5\nreturn a + 3");
}

#[test]
fn emit_arith_addnv() {
    // `local a = 5; return 3 + a`:
    let insts = vec![
        ad(Opcode::Kshort, 0, 5),
        abc(Opcode::Addnv, 1, 0, 0),
        ad(Opcode::Ret1, 1, 2),
    ];
    let module = module_with(
        insts,
        vec![named_local(0, "a", 0, 2)],
        Vec::new(),
        vec![NumConst::Int(3)],
        2,
    );
    assert_eq!(emit(&module), "local a = 5\nreturn 3 + a");
}

#[test]
fn emit_arith_addvv_two_locals() {
    // `local a = 1; local b = 2; return a + b`:
    let insts = vec![
        ad(Opcode::Kshort, 0, 1),
        ad(Opcode::Kshort, 1, 2),
        abc(Opcode::Addvv, 2, 0, 1),
        ad(Opcode::Ret1, 2, 2),
    ];
    let module = module_with(
        insts,
        vec![named_local(0, "a", 0, 3), named_local(1, "b", 1, 3)],
        Vec::new(),
        Vec::new(),
        3,
    );
    assert_eq!(emit(&module), "local a = 1\nlocal b = 2\nreturn a + b");
}

#[test]
fn emit_arith_div_mod_mul_use_correct_symbols() {
    let div_mod = module_with(
        vec![
            ad(Opcode::Kshort, 0, 10),
            abc(Opcode::Divvn, 1, 0, 0),
            ad(Opcode::Ret1, 1, 2),
        ],
        vec![named_local(0, "a", 0, 2)],
        Vec::new(),
        vec![NumConst::Int(3)],
        2,
    );
    assert_eq!(emit(&div_mod), "local a = 10\nreturn a / 3");

    let mul_mod = module_with(
        vec![
            ad(Opcode::Kshort, 0, 10),
            abc(Opcode::Mulvn, 1, 0, 0),
            ad(Opcode::Ret1, 1, 2),
        ],
        vec![named_local(0, "a", 0, 2)],
        Vec::new(),
        vec![NumConst::Int(3)],
        2,
    );
    assert_eq!(emit(&mul_mod), "local a = 10\nreturn a * 3");

    let mod_mod = module_with(
        vec![
            ad(Opcode::Kshort, 0, 10),
            abc(Opcode::Modvn, 1, 0, 0),
            ad(Opcode::Ret1, 1, 2),
        ],
        vec![named_local(0, "a", 0, 2)],
        Vec::new(),
        vec![NumConst::Int(3)],
        2,
    );
    assert_eq!(emit(&mod_mod), "local a = 10\nreturn a % 3");
}

#[test]
fn emit_arith_pow() {
    // `local a = 2; return a ^ 10`:
    //   KSHORT 0 2; KSHORT 1 10; POW 1 0 1; RET1 1 2.
    let insts = vec![
        ad(Opcode::Kshort, 0, 2),
        ad(Opcode::Kshort, 1, 10),
        abc(Opcode::Pow, 1, 0, 1),
        ad(Opcode::Ret1, 1, 2),
    ];
    let module = module_with(
        insts,
        vec![named_local(0, "a", 0, 3)],
        Vec::new(),
        Vec::new(),
        2,
    );
    assert_eq!(emit(&module), "local a = 2\nreturn a ^ 10");
}

#[test]
fn emit_arith_cat_overwrites_source_slot() {
    // `return "hello" .. " world"`:
    //   KSTR 0 0; KSTR 1 1; CAT 0 0 1; RET1 0 2.
    // KSTR reverse-index: operand 0 -> gc_consts[1], operand 1 -> gc_consts[0].
    let insts = vec![
        ad(Opcode::Kstr, 0, 0),
        ad(Opcode::Kstr, 1, 1),
        abc(Opcode::Cat, 0, 0, 1),
        ad(Opcode::Ret1, 0, 2),
    ];
    let module = module_with(
        insts,
        Vec::new(),
        vec![
            GcConst::Str(b" world".to_vec()),
            GcConst::Str(b"hello".to_vec()),
        ],
        Vec::new(),
        2,
    );
    assert_eq!(emit(&module), "return \"hello\" .. \" world\"");
}

#[test]
fn emit_arith_with_float_const_uses_lua_formatter() {
    let insts = vec![
        ad(Opcode::Kshort, 0, 1),
        abc(Opcode::Divvn, 1, 0, 0),
        ad(Opcode::Ret1, 1, 2),
    ];
    let module = module_with(
        insts,
        vec![named_local(0, "a", 0, 2)],
        Vec::new(),
        vec![NumConst::Num((10.0_f64 / 3.0).to_bits())],
        2,
    );
    assert_eq!(emit(&module), "local a = 1\nreturn a / 3.3333333333333");
}

#[test]
fn emit_arithmetic_result_to_unread_slot_emits_nothing() {
    // ADDVN writes to slot 1, but RET0 follows. The arithmetic
    // executes but the dead result produces no emitted line.
    let insts = vec![
        ad(Opcode::Kshort, 0, 5),
        abc(Opcode::Addvn, 1, 0, 0),
        ad(Opcode::Ret0, 0, 1),
    ];
    let module = module_with(
        insts,
        vec![named_local(0, "a", 0, 2)],
        Vec::new(),
        vec![NumConst::Int(3)],
        2,
    );
    assert_eq!(emit(&module), "local a = 5");
}

#[test]
fn emit_not_implemented_for_unsupported_opcode() {
    // TGETV (table get) isn't in the recovery's match arms;
    // the default case bails with NotImplemented.
    let insts = vec![ad(Opcode::Tgetv, 0, 0), ad(Opcode::Ret1, 0, 2)];
    // ^-- Tgetv is ABC, but `ad` only sets D; that's fine for
    // testing NotImplemented routing - the opcode dispatch
    // bails before operand interpretation.
    let module = module_with(insts, Vec::new(), Vec::new(), Vec::new(), 1);
    let result = emit_module(&module);
    assert!(
        matches!(result, Err(DecompilerError::NotImplemented)),
        "expected NotImplemented for TGETV, got {:?}",
        result
    );
}

#[test]
fn emit_arithmetic_not_implemented_for_missing_operand_slot() {
    // ADDVV reads slots 0 and 1, but only slot 0 has a recorded
    // expression - slot 1 was never written by a handled opcode.
    let insts = vec![
        ad(Opcode::Kshort, 0, 1),
        abc(Opcode::Addvv, 2, 0, 1),
        ad(Opcode::Ret1, 2, 2),
    ];
    let module = module_with(
        insts,
        vec![named_local(0, "a", 0, 2)],
        Vec::new(),
        Vec::new(),
        3,
    );
    let result = emit_module(&module);
    assert!(
        matches!(result, Err(DecompilerError::NotImplemented)),
        "expected NotImplemented for ADDVV with uninitialized slot 1, got {:?}",
        result
    );
}

#[test]
fn emit_arithmetic_not_implemented_for_missing_num_const() {
    let insts = vec![
        ad(Opcode::Kshort, 0, 5),
        abc(Opcode::Addvn, 1, 0, 0),
        ad(Opcode::Ret1, 1, 2),
    ];
    let module = module_with(
        insts,
        vec![named_local(0, "a", 0, 2)],
        Vec::new(),
        Vec::new(),
        2,
    );
    let result = emit_module(&module);
    assert!(
        matches!(result, Err(DecompilerError::NotImplemented)),
        "expected NotImplemented for ADDVN with missing num_const, got {:?}",
        result
    );
}

#[test]
fn emit_named_local_arithmetic() {
    // `local a = 1; local b = a + 2; return b`.
    let insts = vec![
        ad(Opcode::Kshort, 0, 1),
        abc(Opcode::Addvn, 1, 0, 0),
        ad(Opcode::Ret1, 1, 2),
    ];
    let module = module_with(
        insts,
        vec![named_local(0, "a", 0, 2), named_local(1, "b", 1, 2)],
        Vec::new(),
        vec![NumConst::Int(2)],
        2,
    );
    assert_eq!(emit(&module), "local a = 1\nlocal b = a + 2\nreturn b");
}

#[test]
fn emit_mov_to_named_local() {
    // `local a = 1; local b = a; return b`.
    let insts = vec![
        ad(Opcode::Kshort, 0, 1),
        ad(Opcode::Mov, 1, 0),
        ad(Opcode::Ret1, 1, 2),
    ];
    let module = module_with(
        insts,
        vec![named_local(0, "a", 0, 2), named_local(1, "b", 1, 2)],
        Vec::new(),
        Vec::new(),
        2,
    );
    assert_eq!(emit(&module), "local a = 1\nlocal b = a\nreturn b");
}

#[test]
fn emit_mov_to_temporary() {
    // Slot 1 has NO var_info entry, so the MOV stores the source
    // expression as an unnamed temporary; no `local` line.
    let insts = vec![
        ad(Opcode::Kshort, 0, 5),
        ad(Opcode::Mov, 1, 0),
        ad(Opcode::Ret1, 1, 2),
    ];
    let module = module_with(
        insts,
        vec![named_local(0, "a", 0, 2)],
        Vec::new(),
        Vec::new(),
        2,
    );
    assert_eq!(emit(&module), "local a = 5\nreturn a");
}

#[test]
fn emit_mov_not_implemented_for_uninitialized_source() {
    let insts = vec![ad(Opcode::Mov, 1, 0), ad(Opcode::Ret1, 1, 2)];
    let module = module_with(insts, Vec::new(), Vec::new(), Vec::new(), 2);
    let result = emit_module(&module);
    assert!(
        matches!(result, Err(DecompilerError::NotImplemented)),
        "expected NotImplemented for MOV with uninitialized source, got {:?}",
        result
    );
}

#[test]
fn emit_arith_unnamed_temporary_preserved() {
    // `local a = 1; local b = 2; return a + b` - ADDVV result
    // lands in slot 2, which has NO var_info entry.
    let insts = vec![
        ad(Opcode::Kshort, 0, 1),
        ad(Opcode::Kshort, 1, 2),
        abc(Opcode::Addvv, 2, 0, 1),
        ad(Opcode::Ret1, 2, 2),
    ];
    let module = module_with(
        insts,
        vec![named_local(0, "a", 0, 3), named_local(1, "b", 1, 3)],
        Vec::new(),
        Vec::new(),
        3,
    );
    assert_eq!(emit(&module), "local a = 1\nlocal b = 2\nreturn a + b");
}

#[test]
fn emit_walk_regression_stage1_ret0_only() {
    let module = module_with(
        vec![ad(Opcode::Ret0, 0, 1)],
        Vec::new(),
        Vec::new(),
        Vec::new(),
        1,
    );
    assert_eq!(emit(&module), "");
}

#[test]
fn emit_walk_regression_stage2_return_const() {
    let module = module_with(
        vec![ad(Opcode::Kshort, 0, 5), ad(Opcode::Ret1, 0, 2)],
        Vec::new(),
        Vec::new(),
        Vec::new(),
        1,
    );
    assert_eq!(emit(&module), "return 5");
}

#[test]
fn emit_walk_regression_no_return_after_load() {
    // A load with no following RET0/RET1: the proto's only block
    // ends with a non-RET instruction. CFG classifies it as
    // Return (no successor) with the load as the last
    // instruction; process_return_inst bails because the last
    // instruction isn't a RET*.
    let module = module_with(
        vec![ad(Opcode::Kshort, 0, 5)],
        Vec::new(),
        Vec::new(),
        Vec::new(),
        1,
    );
    let result = emit_module(&module);
    assert!(
        matches!(result, Err(DecompilerError::NotImplemented)),
        "expected NotImplemented for chunk without return, got {:?}",
        result
    );
}

#[test]
fn emit_reassignment_omits_local_keyword() {
    // `local a = 1; a = 2; return a`:
    let insts = vec![
        ad(Opcode::Kshort, 0, 1),
        ad(Opcode::Kshort, 0, 2),
        ad(Opcode::Ret1, 0, 2),
    ];
    let module = module_with(
        insts,
        vec![named_local(0, "a", 0, 2)],
        Vec::new(),
        Vec::new(),
        1,
    );
    assert_eq!(emit(&module), "local a = 1\na = 2\nreturn a");
}

#[test]
fn emit_reassignment_with_arith() {
    // `local a = 1; a = a + 1; return a`:
    let insts = vec![
        ad(Opcode::Kshort, 0, 1),
        abc(Opcode::Addvn, 0, 0, 0),
        ad(Opcode::Ret1, 0, 2),
    ];
    let module = module_with(
        insts,
        vec![named_local(0, "a", 0, 2)],
        Vec::new(),
        vec![NumConst::Int(1)],
        1,
    );
    assert_eq!(emit(&module), "local a = 1\na = a + 1\nreturn a");
}

fn if_then_module(body_insts: Vec<Instruction>, gc_consts: Vec<GcConst>) -> Module {
    if_then_module_with_test_op(Opcode::Isf, body_insts, gc_consts)
}

/// Variant of `if_then_module` that lets the caller swap in a
/// different ISxx opcode (default ISF). Used to exercise IST
/// and the compound-condition NotImplemented path.
fn if_then_module_with_test_op(
    test_op: Opcode,
    body_insts: Vec<Instruction>,
    gc_consts: Vec<GcConst>,
) -> Module {
    // Layout (abs idx):
    //   0: FUNC* (synthetic header)
    //   1: GGET 0 0     (entry block)
    //   2: <test_op> 0
    //   3: JMP => idx_of_RET0
    //   4..(4+body_len-1): body_insts
    //   4+body_len: RET0 0 1   (the merge / implicit return)
    let body_len = body_insts.len();
    let ret0_idx = 1 + 3 + body_len; // abs idx of the RET0
                                     // JMP formula (see cfg::Cfg docs): target = jmp_idx + 1 + j,
                                     // so j = target - (jmp_idx + 1) = ret0_idx - 4. D = 0x8000 + j.
    let jmp_d = 0x8000u16 + (ret0_idx as u16 - 4);
    let mut real_insts = vec![
        ad(Opcode::Gget, 0, 0),
        ad(test_op, 0, 0),
        ad(Opcode::Jmp, 1, jmp_d),
    ];
    real_insts.extend(body_insts);
    real_insts.push(ad(Opcode::Ret0, 0, 1));
    module_with(real_insts, Vec::new(), gc_consts, Vec::new(), 2)
}

#[test]
fn recover_if_then_return() {
    let module = if_then_module(
        vec![ad(Opcode::Kshort, 0, 1), ad(Opcode::Ret1, 0, 2)],
        vec![GcConst::Str(b"x".to_vec())],
    );
    assert_eq!(emit(&module), "if x then\n    return 1\nend");
}

#[test]
fn recover_if_then_return_ast_shape() {
    let module = if_then_module(
        vec![ad(Opcode::Kshort, 0, 1), ad(Opcode::Ret1, 0, 2)],
        vec![GcConst::Str(b"x".to_vec())],
    );
    let proto = module.main_proto();
    let cfg = Cfg::build(proto);
    let ast = recover(&module, 0, &cfg, true, None).expect("recover should succeed");

    assert_eq!(ast.len(), 1, "expected just [If] (implicit RET0 -> no Stmt)");
    match &ast[0] {
        Stmt::If {
            cond,
            then_body,
            else_body,
        } => {
            assert_eq!(*cond, Expr::Global("x".to_string()), "cond");
            assert_eq!(*else_body, None, "else_body");
            assert_eq!(then_body.len(), 1, "then_body len");
            match &then_body[0] {
                Stmt::Return(Some(expr)) => {
                    assert_eq!(*expr, Expr::Int(1), "return expr");
                }
                other => panic!("expected Return(Some(Int(1))), got {:?}", other),
            }
        }
        other => panic!("expected If, got {:?}", other),
    }
}

#[test]
fn recover_if_then_fallthrough_merge() {
    let insts = vec![
        ad(Opcode::Kshort, 0, 0),
        ad(Opcode::Gget, 1, 0),
        ad(Opcode::Isf, 0, 1),
        // JMP at abs idx 4; target = abs idx 6 (the RET1).
        // j = target - (jmp_idx + 1) = 6 - 5 = 1; D = 0x8001.
        ad(Opcode::Jmp, 2, 0x8001),
        ad(Opcode::Kshort, 0, 1),
        ad(Opcode::Ret1, 0, 2),
    ];
    let module = module_with(
        insts,
        // y is declared at real-idx 0 (the first KSHORT); scope
        // covers the whole chunk so the second KSHORT reads as
        // a reassignment.
        vec![named_local(0, "y", 0, 4)],
        vec![GcConst::Str(b"x".to_vec())],
        Vec::new(),
        2,
    );
    assert_eq!(
        emit(&module),
        "local y = 0\nif x then\n    y = 1\nend\nreturn y"
    );
}

/// `if not x then return 1 end` - the IST case. The IST tests
/// "is slot truthy?"; JMP taken means the then-body is skipped,
/// so the user's condition is the negation: `not <expr>`.
#[test]
fn recover_if_not_x_uses_ist() {
    // Bytecode: GGET 0 0; IST 0; JMP => 0006; KSHORT 0 1; RET1; RET0.
    let module = if_then_module_with_test_op(
        Opcode::Ist,
        vec![ad(Opcode::Kshort, 0, 1), ad(Opcode::Ret1, 0, 2)],
        vec![GcConst::Str(b"x".to_vec())],
    );
    assert_eq!(emit(&module), "if not x then\n    return 1\nend");
}

#[test]
fn recover_islt_compound_condition() {
    let module = if_then_module_with_test_op(
        Opcode::Islt,
        vec![ad(Opcode::Kshort, 0, 1), ad(Opcode::Ret1, 0, 2)],
        vec![GcConst::Str(b"x".to_vec())],
    );
    assert_eq!(emit(&module), "if x >= x then\n    return 1\nend");
}

#[test]
fn recover_if_else_both_return() {
    let insts = vec![
        ad(Opcode::Gget, 0, 0),     // idx 1
        ad(Opcode::Isf, 0, 0),      // idx 2
        ad(Opcode::Jmp, 1, 0x8003), // idx 3: target = idx 7
        ad(Opcode::Kshort, 0, 1),   // idx 4
        ad(Opcode::Ret1, 0, 2),     // idx 5
        ad(Opcode::Jmp, 0, 0x8002), // idx 6: dead, target = idx 9
        ad(Opcode::Kshort, 0, 2),   // idx 7
        ad(Opcode::Ret1, 0, 2),     // idx 8
        ad(Opcode::Ret0, 0, 1),     // idx 9
    ];
    let module = module_with(
        insts,
        Vec::new(),
        vec![GcConst::Str(b"x".to_vec())],
        Vec::new(),
        1,
    );
    assert_eq!(
        emit(&module),
        "if x then\n    return 1\nelse\n    return 2\nend"
    );
}

#[test]
fn recover_if_else_both_return_ast_shape() {
    let insts = vec![
        ad(Opcode::Gget, 0, 0),     // idx 1
        ad(Opcode::Isf, 0, 0),      // idx 2
        ad(Opcode::Jmp, 1, 0x8003), // idx 3
        ad(Opcode::Kshort, 0, 1),   // idx 4
        ad(Opcode::Ret1, 0, 2),     // idx 5
        ad(Opcode::Jmp, 0, 0x8002), // idx 6: dead
        ad(Opcode::Kshort, 0, 2),   // idx 7
        ad(Opcode::Ret1, 0, 2),     // idx 8
        ad(Opcode::Ret0, 0, 1),     // idx 9
    ];
    let module = module_with(
        insts,
        Vec::new(),
        vec![GcConst::Str(b"x".to_vec())],
        Vec::new(),
        1,
    );
    let proto = module.main_proto();
    let cfg = Cfg::build(proto);
    let ast = recover(&module, 0, &cfg, true, None).expect("recover should succeed");

    assert_eq!(ast.len(), 1, "expected just [If] (implicit RET0 -> no Stmt)");
    match &ast[0] {
        Stmt::If {
            cond,
            then_body,
            else_body,
        } => {
            assert_eq!(*cond, Expr::Global("x".to_string()), "cond");
            assert_eq!(then_body.len(), 1, "then_body len");
            match &then_body[0] {
                Stmt::Return(Some(expr)) => {
                    assert_eq!(*expr, Expr::Int(1), "then return expr");
                }
                other => panic!("expected Return(Some(Int(1))), got {:?}", other),
            }
            let else_stmts = else_body.as_ref().expect("else_body should be populated");
            assert_eq!(else_stmts.len(), 1, "else_body len");
            match &else_stmts[0] {
                Stmt::Return(Some(expr)) => {
                    assert_eq!(*expr, Expr::Int(2), "else return expr");
                }
                other => panic!("expected Return(Some(Int(2))), got {:?}", other),
            }
        }
        other => panic!("expected If, got {:?}", other),
    }
}

#[test]
fn recover_if_else_fallthrough() {
    let insts = vec![
        ad(Opcode::Kshort, 0, 0),   // idx 1 - y = 0
        ad(Opcode::Gget, 1, 0),     // idx 2 - load x
        ad(Opcode::Isf, 0, 1),      // idx 3 - tests slot 1 (x)
        ad(Opcode::Jmp, 2, 0x8002), // idx 4: target = idx 7 (else)
        ad(Opcode::Kshort, 0, 1),   // idx 5 - then: y = 1
        ad(Opcode::Jmp, 1, 0x8001), // idx 6: target = idx 8 (merge)
        ad(Opcode::Kshort, 0, 2),   // idx 7 - else: y = 2
        ad(Opcode::Ret1, 0, 2),     // idx 8 - merge: return y
    ];
    let module = module_with(
        insts,
        // y is declared at real-idx 0 (the first KSHORT); scope
        // covers the whole chunk so both then-body and else-body
        // KSHORTs read as reassignments.
        vec![named_local(0, "y", 0, 7)],
        vec![GcConst::Str(b"x".to_vec())],
        Vec::new(),
        2,
    );
    assert_eq!(
        emit(&module),
        "local y = 0\nif x then\n    y = 1\nelse\n    y = 2\nend\nreturn y"
    );
}

/// The detection algorithm ([`branch_shape`]) must distinguish
/// if/then from if/else based on the then-body's terminal
/// block. This test exercises all four detection paths directly:
///
/// 1. **If/else via live Jump**: then-body's terminator is
///    `Jump(merge)` -> if/else, merge = Jump target.
/// 2. **If/else via dead Jump**: then-body's terminator is
///    `Return`, and the block immediately after has `Jump(merge)`
///    -> if/else, merge = dead Jump target.
/// 3. **If/then via Return (no dead Jump)**: then-body's
///    terminator is `Return`, no dead Jump follows -> if/then,
///    merge = entry's true_edge.
/// 4. **If/then via Fallthrough**: then-body's terminator is
///    `Fallthrough(merge)` -> if/then, merge = fallthrough target.
#[test]
fn recover_if_else_detection() {
    let cfg = Cfg::build(&Proto {
        flags: 0,
        numparams: 0,
        framesize: 2,
        upvalues: Vec::new(),
        gc_consts: vec![GcConst::Str(b"x".to_vec())],
        num_consts: Vec::new(),
        insts: {
            let mut v = vec![Instruction::synthetic_header(Opcode::Funcv, 2)];
            v.extend([
                ad(Opcode::Kshort, 0, 0),
                ad(Opcode::Gget, 1, 0),
                ad(Opcode::Isf, 0, 1),
                ad(Opcode::Jmp, 2, 0x8002),
                ad(Opcode::Kshort, 0, 1),
                ad(Opcode::Jmp, 1, 0x8001),
                ad(Opcode::Kshort, 0, 2),
                ad(Opcode::Ret1, 0, 2),
            ]);
            v
        },
        debug: None,
    });
    // entry = Block 0, then-body = Block 1, else-body = Block 2,
    // merge = Block 3. Then-body's terminator is Jump(Block 3).
    let (else_start, merge) = branch_shape(&cfg, BlockId(1), BlockId(2)).unwrap();
    assert_eq!(else_start, Some(BlockId(2)), "live Jump -> if/else");
    assert_eq!(merge, BlockId(3), "merge = Jump target");

    let cfg = Cfg::build(&Proto {
        flags: 0,
        numparams: 0,
        framesize: 1,
        upvalues: Vec::new(),
        gc_consts: vec![GcConst::Str(b"x".to_vec())],
        num_consts: Vec::new(),
        insts: {
            let mut v = vec![Instruction::synthetic_header(Opcode::Funcv, 1)];
            v.extend([
                ad(Opcode::Gget, 0, 0),
                ad(Opcode::Isf, 0, 0),
                ad(Opcode::Jmp, 1, 0x8003),
                ad(Opcode::Kshort, 0, 1),
                ad(Opcode::Ret1, 0, 2),
                ad(Opcode::Jmp, 0, 0x8002),
                ad(Opcode::Kshort, 0, 2),
                ad(Opcode::Ret1, 0, 2),
                ad(Opcode::Ret0, 0, 1),
            ]);
            v
        },
        debug: None,
    });
    // entry = Block 0, then-body = Block 1, dead-jump = Block 2,
    // else-body = Block 3, merge = Block 4.
    let (else_start, merge) = branch_shape(&cfg, BlockId(1), BlockId(3)).unwrap();
    assert_eq!(else_start, Some(BlockId(3)), "dead Jump -> if/else");
    assert_eq!(merge, BlockId(4), "merge = dead Jump target");

    let cfg = Cfg::build(&Proto {
        flags: 0,
        numparams: 0,
        framesize: 1,
        upvalues: Vec::new(),
        gc_consts: vec![GcConst::Str(b"x".to_vec())],
        num_consts: Vec::new(),
        insts: {
            let mut v = vec![Instruction::synthetic_header(Opcode::Funcv, 1)];
            v.extend([
                ad(Opcode::Gget, 0, 0),
                ad(Opcode::Isf, 0, 0),
                ad(Opcode::Jmp, 1, 0x8002),
                ad(Opcode::Kshort, 0, 1),
                ad(Opcode::Ret1, 0, 2),
                ad(Opcode::Ret0, 0, 1),
            ]);
            v
        },
        debug: None,
    });
    // entry = Block 0, then-body = Block 1, merge = Block 2.
    let (else_start, merge) = branch_shape(&cfg, BlockId(1), BlockId(2)).unwrap();
    assert_eq!(else_start, None, "no dead Jump -> if/then");
    assert_eq!(merge, BlockId(2), "merge = entry true_edge");

    let cfg = Cfg::build(&Proto {
        flags: 0,
        numparams: 0,
        framesize: 1,
        upvalues: Vec::new(),
        gc_consts: vec![GcConst::Str(b"x".to_vec())],
        num_consts: Vec::new(),
        insts: {
            let mut v = vec![Instruction::synthetic_header(Opcode::Funcv, 1)];
            v.extend([
                ad(Opcode::Gget, 0, 0),
                ad(Opcode::Isf, 0, 0),
                ad(Opcode::Jmp, 1, 0x8001),
                ad(Opcode::Kshort, 0, 1),
                ad(Opcode::Ret1, 0, 2),
            ]);
            v
        },
        debug: None,
    });
    // entry = Block 0, then-body = Block 1, merge = Block 2.
    // Then-body's terminator is Fallthrough(Block 2).
    let (else_start, merge) = branch_shape(&cfg, BlockId(1), BlockId(2)).unwrap();
    assert_eq!(else_start, None, "Fallthrough -> if/then");
    assert_eq!(merge, BlockId(2), "merge = Fallthrough target");
}

/// Nested if (a ConditionalBranch inside a then-body) isn't
/// supported. The recovery bails in [`recover`] via the
/// ConditionalBranch-count check before the walk even starts.
#[test]
fn recover_nested_if_is_not_supported() {
    // Outer if/then with an inner if/then as the body:
    //   GGET 0 0; ISF 0; JMP => 0009  (outer)
    //   GGET 1 1; ISF 1; JMP => 0008  (inner)
    //   KSHORT 0 1; RET1               (inner then-body)
    //   RET0                            (inner merge = outer body end)
    //   RET0                            (outer merge)
    // The CFG has two ConditionalBranch terminators (outer + inner),
    // so recover() rejects it up front via the count check.
    let insts = vec![
        ad(Opcode::Gget, 0, 0),     // idx 1 - outer cond slot 0
        ad(Opcode::Isf, 0, 0),      // idx 2
        ad(Opcode::Jmp, 1, 0x8005), // idx 3: target = idx 9 (outer merge)
        ad(Opcode::Gget, 1, 1),     // idx 4 - inner cond slot 1
        ad(Opcode::Isf, 1, 0),      // idx 5
        ad(Opcode::Jmp, 1, 0x8001), // idx 6: target = idx 8 (inner merge)
        ad(Opcode::Kshort, 0, 1),   // idx 7 - inner then-body
        ad(Opcode::Ret1, 0, 2),     // idx 8 (also inner merge target - conflict)
        ad(Opcode::Ret0, 0, 1),     // idx 9 (outer merge)
    ];
    // The above layout is a bit contrived (the inner merge and
    // then-body-end coincide). What matters for this test is
    // that the CFG has two ConditionalBranch blocks - that
    // triggers the count check's NotImplemented.
    let module = module_with(
        insts,
        Vec::new(),
        vec![GcConst::Str(b"x".to_vec()), GcConst::Str(b"y".to_vec())],
        Vec::new(),
        2,
    );
    let result = emit_module(&module);
    assert!(
        matches!(result, Err(DecompilerError::NotImplemented)),
        "expected NotImplemented for nested if, got {:?}",
        result
    );
}

/// A standalone JMP (loops, gotos) classifies as Terminator::Jump;
/// the recovery bails on sight.
#[test]
fn recover_standalone_jmp_is_not_supported() {
    //   KSHORT 0 1; JMP => 0004; KSHORT 0 2; RET0.
    let insts = vec![
        ad(Opcode::Kshort, 0, 1),   // idx 1
        ad(Opcode::Jmp, 0, 0x8001), // idx 2: target = idx 4
        ad(Opcode::Kshort, 0, 2),   // idx 3
        ad(Opcode::Ret0, 0, 1),     // idx 4
    ];
    let module = module_with(insts, Vec::new(), Vec::new(), Vec::new(), 1);
    let result = emit_module(&module);
    assert!(
        matches!(result, Err(DecompilerError::NotImplemented)),
        "expected NotImplemented for standalone JMP, got {:?}",
        result
    );
}

/// GGET with a non-string GC constant isn't supported.
#[test]
fn recover_gget_non_string_gc_const_is_not_supported() {
    let module = module_with(
        vec![ad(Opcode::Gget, 0, 0), ad(Opcode::Ret0, 0, 1)],
        Vec::new(),
        vec![GcConst::Child],
        Vec::new(),
        1,
    );
    let result = emit_module(&module);
    assert!(
        matches!(result, Err(DecompilerError::NotImplemented)),
        "expected NotImplemented for GGET with non-Str GC const, got {:?}",
        result
    );
}

#[test]
fn recover_isge_compound_condition() {
    let module = if_then_module_with_test_op(
        Opcode::Isge,
        vec![ad(Opcode::Kshort, 0, 1), ad(Opcode::Ret1, 0, 2)],
        vec![GcConst::Str(b"x".to_vec())],
    );
    assert_eq!(emit(&module), "if x < x then\n    return 1\nend");
}

/// Slot-expr map populated with two globals `a` and `b` in
/// slots 0 and 1 - the typical precondition for a comparison
/// `if a <op> b then`. Helpers below share it via this setup.
fn slots_ab() -> HashMap<u8, Expr> {
    let mut m = HashMap::new();
    m.insert(0, Expr::Global("a".to_string()));
    m.insert(1, Expr::Global("b".to_string()));
    m
}

// ---- build_test_condition: ISxx test (no negation) ---------------

#[test]
fn build_test_condition_islt_yields_less_than() {
    // ISLT 0 1 -> R[0] < R[1] -> `a < b`.
    let slots = slots_ab();
    let inst = ad(Opcode::Islt, 0, 1);
    assert_eq!(
        build_test_condition(&empty_proto(), &slots, &inst).unwrap(),
        Expr::BinOp {
            op: BinOpKind::LessThan,
            left: Box::new(Expr::Global("a".to_string())),
            right: Box::new(Expr::Global("b".to_string())),
        }
    );
}

#[test]
fn build_test_condition_iseqv_yields_equal() {
    // ISEQV 0 1 -> R[0] == R[1] -> `a == b`.
    let slots = slots_ab();
    let inst = ad(Opcode::Iseqv, 0, 1);
    assert_eq!(
        build_test_condition(&empty_proto(), &slots, &inst).unwrap(),
        Expr::BinOp {
            op: BinOpKind::Equal,
            left: Box::new(Expr::Global("a".to_string())),
            right: Box::new(Expr::Global("b".to_string())),
        }
    );
}

#[test]
fn build_test_condition_ist_yields_value() {
    // IST 0 -> truthy(R[0]) -> just `a` (no wrapping).
    let slots = slots_ab();
    let inst = ad(Opcode::Ist, 0, 0);
    assert_eq!(
        build_test_condition(&empty_proto(), &slots, &inst).unwrap(),
        Expr::Global("a".to_string())
    );
}

#[test]
fn build_test_condition_isf_yields_not_value() {
    // ISF 0 -> falsy(R[0]) -> `not a`.
    let slots = slots_ab();
    let inst = ad(Opcode::Isf, 0, 0);
    assert_eq!(
        build_test_condition(&empty_proto(), &slots, &inst).unwrap(),
        Expr::Not(Box::new(Expr::Global("a".to_string())))
    );
}

// ---- build_condition: ISxx test complement (user's if-cond) ------

#[test]
fn build_condition_islt_yields_greater_equal() {
    // ISLT test is `<`; complement is `>=`.
    let slots = slots_ab();
    let inst = ad(Opcode::Islt, 0, 1);
    assert_eq!(
        build_condition(&empty_proto(), &slots, &inst).unwrap(),
        Expr::BinOp {
            op: BinOpKind::GreaterEqual,
            left: Box::new(Expr::Global("a".to_string())),
            right: Box::new(Expr::Global("b".to_string())),
        }
    );
}

#[test]
fn build_condition_isge_yields_less_than() {
    // ISGE test is `>=`; complement is `<`.
    let slots = slots_ab();
    let inst = ad(Opcode::Isge, 0, 1);
    assert_eq!(
        build_condition(&empty_proto(), &slots, &inst).unwrap(),
        Expr::BinOp {
            op: BinOpKind::LessThan,
            left: Box::new(Expr::Global("a".to_string())),
            right: Box::new(Expr::Global("b".to_string())),
        }
    );
}

#[test]
fn build_condition_iseqv_yields_not_equal() {
    // ISEQV test is `==`; complement is `~=`.
    let slots = slots_ab();
    let inst = ad(Opcode::Iseqv, 0, 1);
    assert_eq!(
        build_condition(&empty_proto(), &slots, &inst).unwrap(),
        Expr::BinOp {
            op: BinOpKind::NotEqual,
            left: Box::new(Expr::Global("a".to_string())),
            right: Box::new(Expr::Global("b".to_string())),
        }
    );
}

#[test]
fn build_condition_isnev_yields_equal() {
    // ISNEV test is `!=`; complement is `==`.
    let slots = slots_ab();
    let inst = ad(Opcode::Isnev, 0, 1);
    assert_eq!(
        build_condition(&empty_proto(), &slots, &inst).unwrap(),
        Expr::BinOp {
            op: BinOpKind::Equal,
            left: Box::new(Expr::Global("a".to_string())),
            right: Box::new(Expr::Global("b".to_string())),
        }
    );
}

#[test]
fn build_condition_isle_isgt_pair() {
    // ISLE test is `<=`; complement is `>`. ISGT test is `>`;
    // complement is `<=`. Verify both directions.
    let slots = slots_ab();
    let isle = ad(Opcode::Isle, 0, 1);
    assert_eq!(
        build_condition(&empty_proto(), &slots, &isle).unwrap(),
        Expr::BinOp {
            op: BinOpKind::GreaterThan,
            left: Box::new(Expr::Global("a".to_string())),
            right: Box::new(Expr::Global("b".to_string())),
        }
    );
    let isgt = ad(Opcode::Isgt, 0, 1);
    assert_eq!(
        build_condition(&empty_proto(), &slots, &isgt).unwrap(),
        Expr::BinOp {
            op: BinOpKind::LessEqual,
            left: Box::new(Expr::Global("a".to_string())),
            right: Box::new(Expr::Global("b".to_string())),
        }
    );
}

#[test]
fn build_condition_ist_isf_unary_pair() {
    // IST test is `truthy`; complement is `not val`.
    // ISF test is `falsy`; complement is `val`.
    let slots = slots_ab();
    let ist = ad(Opcode::Ist, 0, 0);
    assert_eq!(
        build_condition(&empty_proto(), &slots, &ist).unwrap(),
        Expr::Not(Box::new(Expr::Global("a".to_string())))
    );
    let isf = ad(Opcode::Isf, 0, 0);
    assert_eq!(
        build_condition(&empty_proto(), &slots, &isf).unwrap(),
        Expr::Global("a".to_string())
    );
}

#[test]
fn build_condition_isxx_const_typed_operands() {
    // ISEQN/ISNEN/ISEQS/ISNES/ISEQP/ISNEP - verify constant
    // operand resolution (KNUM forward, KSTR reverse, KPRI inline)
    // by exercising the right side of the resulting BinOp.
    let slots = slots_ab();
    let proto = Proto {
        gc_consts: vec![GcConst::Str(b"foo".to_vec())],
        num_consts: vec![NumConst::Int(42)],
        ..empty_proto()
    };
    // ISEQN A=0 D=0 -> KNUM[0] = Int(42). Condition: NotEqual.
    let iseqn = ad(Opcode::Iseqn, 0, 0);
    assert_eq!(
        build_condition(&proto, &slots, &iseqn).unwrap(),
        Expr::BinOp {
            op: BinOpKind::NotEqual,
            left: Box::new(Expr::Global("a".to_string())),
            right: Box::new(Expr::Int(42)),
        }
    );
    // ISNES A=0 D=0 -> KSTR reverse[0] = Str("foo"). Condition: Equal.
    let isnes = ad(Opcode::Isnes, 0, 0);
    assert_eq!(
        build_condition(&proto, &slots, &isnes).unwrap(),
        Expr::BinOp {
            op: BinOpKind::Equal,
            left: Box::new(Expr::Global("a".to_string())),
            right: Box::new(Expr::Str(b"foo".to_vec())),
        }
    );
    // ISEQP A=0 D=2 -> KPRI tag 2 = True. Condition: NotEqual.
    let iseqp = ad(Opcode::Iseqp, 0, 2);
    assert_eq!(
        build_condition(&proto, &slots, &iseqp).unwrap(),
        Expr::BinOp {
            op: BinOpKind::NotEqual,
            left: Box::new(Expr::Global("a".to_string())),
            right: Box::new(Expr::True),
        }
    );
}

#[test]
fn build_condition_bails_on_missing_operand_slot() {
    // Slot 2 has no recorded expression -> NotImplemented.
    let slots = slots_ab();
    let inst = ad(Opcode::Iseqv, 0, 2);
    let result = build_condition(&empty_proto(), &slots, &inst);
    assert!(
        matches!(result, Err(DecompilerError::NotImplemented)),
        "expected NotImplemented for missing slot, got {:?}",
        result
    );
}

// ---- chain detection: AND vs OR -----------------------------------

fn and_chain_module() -> Module {
    //   GGET 0 0; ISF 0; JMP => 0009;     (CB1)
    //   GGET 0 1; ISF 0; JMP => 0009;     (CB2)
    //   KSHORT 0 1; RET1;                 (then-body)
    //   RET0.                              (merge)
    let insts = vec![
        ad(Opcode::Gget, 0, 0),
        ad(Opcode::Isf, 0, 0),
        ad(Opcode::Jmp, 1, 0x8005), // idx 3: target = idx 9
        ad(Opcode::Gget, 0, 1),
        ad(Opcode::Isf, 0, 0),
        ad(Opcode::Jmp, 1, 0x8002), // idx 6: target = idx 9
        ad(Opcode::Kshort, 0, 1),
        ad(Opcode::Ret1, 0, 2),
        ad(Opcode::Ret0, 0, 1),
    ];
    // GC constants are referenced via reverse index
    // (gc_consts[len-1-D]). With operands 0 and 1 mapping to "a"
    // and "b" respectively, the file order is [b, a].
    module_with(
        insts,
        Vec::new(),
        vec![GcConst::Str(b"b".to_vec()), GcConst::Str(b"a".to_vec())],
        Vec::new(),
        1,
    )
}

fn or_chain_module() -> Module {
    //   GGET 0 0; IST 0; JMP => 0007;     (CB1, true_edge -> then-body)
    //   GGET 0 1; ISF 0; JMP => 0009;     (CB2, true_edge -> merge)
    //   KSHORT 0 1; RET1;                 (then-body)
    //   RET0.                              (merge)
    let insts = vec![
        ad(Opcode::Gget, 0, 0),
        ad(Opcode::Ist, 0, 0),
        ad(Opcode::Jmp, 1, 0x8003), // idx 3: target = idx 7
        ad(Opcode::Gget, 0, 1),
        ad(Opcode::Isf, 0, 0),
        ad(Opcode::Jmp, 1, 0x8002), // idx 6: target = idx 9
        ad(Opcode::Kshort, 0, 1),
        ad(Opcode::Ret1, 0, 2),
        ad(Opcode::Ret0, 0, 1),
    ];
    // Reverse-indexed: file order [b, a] -> operand 0 is "a".
    module_with(
        insts,
        Vec::new(),
        vec![GcConst::Str(b"b".to_vec()), GcConst::Str(b"a".to_vec())],
        Vec::new(),
        1,
    )
}

#[test]
fn recover_and_chain_emits_and_expression() {
    let module = and_chain_module();
    let proto = module.main_proto();
    let cfg = Cfg::build(proto);
    let ast = recover(&module, 0, &cfg, true, None).expect("recover should succeed");
    assert_eq!(ast.len(), 1, "expected just [If]");
    match &ast[0] {
        Stmt::If {
            cond,
            then_body,
            else_body,
        } => {
            // Each ISF's complement is the bare value, combined
            // with And -> `a and b`.
            assert_eq!(
                cond.clone(),
                Expr::And(
                    Box::new(Expr::Global("a".to_string())),
                    Box::new(Expr::Global("b".to_string())),
                ),
                "cond"
            );
            assert_eq!(*else_body, None, "else_body");
            assert_eq!(then_body.len(), 1, "then_body len");
            match &then_body[0] {
                Stmt::Return(Some(expr)) => assert_eq!(expr.clone(), Expr::Int(1)),
                other => panic!("expected Return(Some(Int(1))), got {:?}", other),
            }
        }
        other => panic!("expected If, got {:?}", other),
    }
}

#[test]
fn recover_or_chain_emits_or_expression() {
    let module = or_chain_module();
    let proto = module.main_proto();
    let cfg = Cfg::build(proto);
    let ast = recover(&module, 0, &cfg, true, None).expect("recover should succeed");
    assert_eq!(ast.len(), 1, "expected just [If]");
    match &ast[0] {
        Stmt::If {
            cond,
            then_body,
            else_body,
        } => {
            // First CB (IST, short-circuit) contributes the test
            // verbatim -> `a`. Last CB (ISF, skip-to-merge)
            // contributes the complement -> `b`. Joined with Or.
            assert_eq!(
                cond.clone(),
                Expr::Or(
                    Box::new(Expr::Global("a".to_string())),
                    Box::new(Expr::Global("b".to_string())),
                ),
                "cond"
            );
            assert_eq!(*else_body, None, "else_body");
            assert_eq!(then_body.len(), 1, "then_body len");
            match &then_body[0] {
                Stmt::Return(Some(expr)) => assert_eq!(expr.clone(), Expr::Int(1)),
                other => panic!("expected Return(Some(Int(1))), got {:?}", other),
            }
        }
        other => panic!("expected If, got {:?}", other),
    }
}

/// `if a == b then return 1 end` lowers to ISNEV; the user's
/// condition is the complement `Equal(a, b)`. End-to-end through
/// emit, isolating the single-comparison path (no chain).
#[test]
fn recover_single_isnev_comparison_emits_equal() {
    //   GGET 0 0; GGET 1 1; ISNEV 0 1; JMP => 0007;
    //   KSHORT 0 1; RET1; RET0.
    let insts = vec![
        ad(Opcode::Gget, 0, 0),
        ad(Opcode::Gget, 1, 1),
        ad(Opcode::Isnev, 0, 1),
        ad(Opcode::Jmp, 1, 0x8002), // idx 4: target = idx 7
        ad(Opcode::Kshort, 0, 1),
        ad(Opcode::Ret1, 0, 2),
        ad(Opcode::Ret0, 0, 1),
    ];
    // Reverse-indexed: file order [b, a].
    let module = module_with(
        insts,
        Vec::new(),
        vec![GcConst::Str(b"b".to_vec()), GcConst::Str(b"a".to_vec())],
        Vec::new(),
        2,
    );
    assert_eq!(emit(&module), "if a == b then\n    return 1\nend");
}

// ---- chain-detection edge cases ----------------------------------

/// `if a or b or c then return 1 end` - three-CB OR chain.
/// Verifies the chain algorithm generalizes beyond 2 CBs: the
/// first N-1 CBs short-circuit (test condition verbatim), the
/// last CB contributes its complement.
#[test]
fn recover_three_term_or_chain() {
    //   GGET 0 0; IST 0; JMP => 0010;     (CB1 -> then-body)
    //   GGET 0 1; IST 0; JMP => 0010;     (CB2 -> then-body)
    //   GGET 0 2; ISF 0; JMP => 0012;     (CB3 -> merge)
    //   KSHORT 0 1; RET1; RET0.
    let insts = vec![
        ad(Opcode::Gget, 0, 0),     // idx 1
        ad(Opcode::Ist, 0, 0),      // idx 2
        ad(Opcode::Jmp, 1, 0x8006), // idx 3: target = idx 10
        ad(Opcode::Gget, 0, 1),     // idx 4
        ad(Opcode::Ist, 0, 0),      // idx 5
        ad(Opcode::Jmp, 1, 0x8003), // idx 6: target = idx 10
        ad(Opcode::Gget, 0, 2),     // idx 7
        ad(Opcode::Isf, 0, 0),      // idx 8
        ad(Opcode::Jmp, 1, 0x8002), // idx 9: target = idx 12
        ad(Opcode::Kshort, 0, 1),   // idx 10 (then-body)
        ad(Opcode::Ret1, 0, 2),     // idx 11
        ad(Opcode::Ret0, 0, 1),     // idx 12 (merge)
    ];
    // Reverse-indexed: file order [c, b, a] -> operands 0,1,2 map
    // to a, b, c.
    let module = module_with(
        insts,
        Vec::new(),
        vec![
            GcConst::Str(b"c".to_vec()),
            GcConst::Str(b"b".to_vec()),
            GcConst::Str(b"a".to_vec()),
        ],
        Vec::new(),
        1,
    );
    assert_eq!(emit(&module), "if a or b or c then\n    return 1\nend");
}

/// `if a and b and c then return 1 end` - three-CB AND chain.
#[test]
fn recover_three_term_and_chain() {
    //   GGET 0 0; ISF 0; JMP => 0012;     (CB1 -> merge)
    //   GGET 0 1; ISF 0; JMP => 0012;     (CB2 -> merge)
    //   GGET 0 2; ISF 0; JMP => 0012;     (CB3 -> merge)
    //   KSHORT 0 1; RET1; RET0.
    let insts = vec![
        ad(Opcode::Gget, 0, 0),     // idx 1
        ad(Opcode::Isf, 0, 0),      // idx 2
        ad(Opcode::Jmp, 1, 0x8008), // idx 3: target = idx 12
        ad(Opcode::Gget, 0, 1),     // idx 4
        ad(Opcode::Isf, 0, 0),      // idx 5
        ad(Opcode::Jmp, 1, 0x8005), // idx 6: target = idx 12
        ad(Opcode::Gget, 0, 2),     // idx 7
        ad(Opcode::Isf, 0, 0),      // idx 8
        ad(Opcode::Jmp, 1, 0x8002), // idx 9: target = idx 12
        ad(Opcode::Kshort, 0, 1),   // idx 10 (then-body)
        ad(Opcode::Ret1, 0, 2),     // idx 11
        ad(Opcode::Ret0, 0, 1),     // idx 12 (merge)
    ];
    // Reverse-indexed: file order [c, b, a].
    let module = module_with(
        insts,
        Vec::new(),
        vec![
            GcConst::Str(b"c".to_vec()),
            GcConst::Str(b"b".to_vec()),
            GcConst::Str(b"a".to_vec()),
        ],
        Vec::new(),
        1,
    );
    assert_eq!(emit(&module), "if a and b and c then\n    return 1\nend");
}

#[test]
fn recover_mixed_and_or_chain_bails() {
    // CB1: ISF a; JMP -> merge (true_edge = merge).
    // CB2: ISF b; JMP -> merge (true_edge = merge).
    // CB3: IST c; JMP -> then-body (true_edge = then-body).
    // The AND invariant fails (CB3.true != merge) and the OR
    // invariant fails (CB1.true != then-body). -> NotImplemented.
    let insts = vec![
        ad(Opcode::Gget, 0, 0),     // idx 1: a
        ad(Opcode::Isf, 0, 0),      // idx 2
        ad(Opcode::Jmp, 1, 0x8008), // idx 3: target = idx 12 (merge)
        ad(Opcode::Gget, 0, 1),     // idx 4: b
        ad(Opcode::Isf, 0, 0),      // idx 5
        ad(Opcode::Jmp, 1, 0x8005), // idx 6: target = idx 12 (merge)
        ad(Opcode::Gget, 0, 2),     // idx 7: c
        ad(Opcode::Ist, 0, 0),      // idx 8
        ad(Opcode::Jmp, 1, 0x8001), // idx 9: target = idx 11 (then-body)
        ad(Opcode::Kshort, 0, 1),   // idx 10: then-body (live: CB3.true -> here)
        ad(Opcode::Ret1, 0, 2),     // idx 11
        ad(Opcode::Ret0, 0, 1),     // idx 12: merge
    ];
    let module = module_with(
        insts,
        Vec::new(),
        vec![
            GcConst::Str(b"c".to_vec()),
            GcConst::Str(b"b".to_vec()),
            GcConst::Str(b"a".to_vec()),
        ],
        Vec::new(),
        1,
    );
    let result = emit_module(&module);
    assert!(
        matches!(result, Err(DecompilerError::NotImplemented)),
        "expected NotImplemented for mixed and/or chain, got {:?}",
        result
    );
}

/// A nested `if` whose bytecode is structurally distinguishable
/// from an AND chain (different JMP targets per CB) must still
/// bail with NotImplemented. This is the existing
/// `recover_nested_if_is_not_supported` shape, re-exercised at
/// the chain level: the chain's CBs disagree on the merge, so
/// neither AND nor OR matches.
#[test]
fn recover_chain_with_divergent_true_edges_bails() {
    //   GGET 0 0; ISF 0; JMP => 0009;     (CB1 -> outer merge)
    //   GGET 1 1; ISF 1; JMP => 0008;     (CB2 -> inner merge)
    //   KSHORT 0 1; RET1; RET0.
    // CB1.true (Block at idx 9) != CB2.true (Block at idx 8).
    let insts = vec![
        ad(Opcode::Gget, 0, 0),     // idx 1
        ad(Opcode::Isf, 0, 0),      // idx 2
        ad(Opcode::Jmp, 1, 0x8005), // idx 3: target = idx 9
        ad(Opcode::Gget, 1, 1),     // idx 4
        ad(Opcode::Isf, 1, 0),      // idx 5
        ad(Opcode::Jmp, 1, 0x8001), // idx 6: target = idx 8
        ad(Opcode::Kshort, 0, 1),   // idx 7
        ad(Opcode::Ret1, 0, 2),     // idx 8
        ad(Opcode::Ret0, 0, 1),     // idx 9
    ];
    let module = module_with(
        insts,
        Vec::new(),
        vec![GcConst::Str(b"b".to_vec()), GcConst::Str(b"a".to_vec())],
        Vec::new(),
        2,
    );
    let result = emit_module(&module);
    assert!(
        matches!(result, Err(DecompilerError::NotImplemented)),
        "expected NotImplemented for chain with divergent true_edges, got {:?}",
        result
    );
}

fn empty_proto() -> Proto {
    Proto {
        flags: 0,
        numparams: 0,
        framesize: 0,
        upvalues: Vec::new(),
        gc_consts: Vec::new(),
        num_consts: Vec::new(),
        insts: Vec::new(),
        debug: None,
    }
}

/// Build a `VarInfo` of the given `VarKind` (no source name) at
/// `slot`, scope `[begin..=end]`. Used to populate the
/// ForIdx/ForStop/ForStep records LuaJIT emits for the loop's
/// internal slots.
fn for_loop_var(kind: VarKind, slot: u8, begin: u32, end: u32) -> VarInfo {
    VarInfo {
        kind,
        name: None,
        is_parameter: false,
        slot,
        scope_begin: begin,
        scope_end: end,
    }
}

fn for_loop_module(var_info: Vec<VarInfo>) -> Module {
    // FORI at abs idx 4 -> target abs idx 7. j = 7 - 5 = 2, D = 0x8002.
    // FORL at abs idx 6 -> target abs idx 5. j = 5 - 7 = -2, D = 0x7ffe.
    let insts = vec![
        ad(Opcode::Kshort, 0, 1),
        ad(Opcode::Kshort, 1, 10),
        ad(Opcode::Kshort, 2, 1),
        ad(Opcode::Fori, 0, 0x8002),
        ad(Opcode::Mov, 4, 3),
        ad(Opcode::Forl, 0, 0x7ffe),
        ad(Opcode::Ret0, 0, 1),
    ];
    module_with(insts, var_info, Vec::new(), Vec::new(), 5)
}

/// The var_info records LuaJIT emits for
/// `for i = 1, 10 do local x = i end`. Verified empirically via
/// the IR parser. The visible loop variable `i` is a
/// `VarKind::Name` at slot A+3 (NOT a ForIdx - ForIdx occupies
/// slot A and carries no source name).
fn standard_for_loop_var_info() -> Vec<VarInfo> {
    vec![
        for_loop_var(VarKind::ForIdx, 0, 2, 5),
        for_loop_var(VarKind::ForStop, 1, 2, 5),
        for_loop_var(VarKind::ForStep, 2, 2, 5),
        named_local(3, "i", 3, 4),
        named_local(4, "x", 4, 4),
    ]
}

#[test]
fn recover_numeric_for_simple_body() {
    let module = for_loop_module(standard_for_loop_var_info());
    assert_eq!(emit(&module), "for i = 1, 10 do\n    local x = i\nend");
}

#[test]
fn recover_numeric_for_ast_shape() {
    let module = for_loop_module(standard_for_loop_var_info());
    let proto = module.main_proto();
    let cfg = Cfg::build(proto);
    let ast = recover(&module, 0, &cfg, true, None).expect("recover should succeed");

    assert_eq!(ast.len(), 1, "expected just [For] (implicit RET0)");
    match &ast[0] {
        Stmt::For {
            var,
            start,
            stop,
            step,
            body,
        } => {
            assert_eq!(var, "i", "var name");
            assert_eq!(*start, Expr::Int(1), "start");
            assert_eq!(*stop, Expr::Int(10), "stop");
            assert_eq!(*step, None, "step should be None for Expr::Int(1)");
            assert_eq!(body.len(), 1, "body len");
            match &body[0] {
                Stmt::LocalDecl { name, expr } => {
                    assert_eq!(name, "x");
                    assert_eq!(*expr, Expr::Var("i".to_string()));
                }
                other => panic!("expected LocalDecl, got {:?}", other),
            }
        }
        other => panic!("expected For, got {:?}", other),
    }
}

/// `for i = 1, 10, 2 do local x = i end` -> preserves step.
/// Reuses `for_loop_module` but overrides the step slot's value
/// via post-construction mutation (simpler than threading a
/// parameter through).
#[test]
fn recover_numeric_for_with_step_preserved() {
    let mut module = for_loop_module(standard_for_loop_var_info());
    // KSHORT 2 1 (slot 2 = step) is at abs idx 3; change 1 -> 2.
    module.protos[0].insts[3].b_or_d = 2;
    assert_eq!(emit(&module), "for i = 1, 10, 2 do\n    local x = i\nend");

    // AST: step is Some(Int(2)).
    let proto = module.main_proto();
    let cfg = Cfg::build(proto);
    let ast = recover(&module, 0, &cfg, true, None).expect("recover should succeed");
    match &ast[0] {
        Stmt::For { step, .. } => {
            assert_eq!(*step, Some(Expr::Int(2)), "step should be Int(2)");
        }
        other => panic!("expected For, got {:?}", other),
    }
}

#[test]
fn recover_numeric_for_bails_when_var_name_missing() {
    let var_info = vec![
        for_loop_var(VarKind::ForIdx, 0, 2, 5),
        for_loop_var(VarKind::ForStop, 1, 2, 5),
        for_loop_var(VarKind::ForStep, 2, 2, 5),
    ];
    let module = for_loop_module(var_info);
    let result = emit_module(&module);
    assert!(
        matches!(result, Err(DecompilerError::NotImplemented)),
        "expected NotImplemented when loop var name is missing, got {:?}",
        result
    );
}

/// The visited-block safety net fires when `recover_from` is
/// called recursively on a block already entered. Construct a
/// synthetic CFG whose LoopInit points its `body` edge at itself:
/// the LoopInit arm calls `recover_from(body, ...)` which is the
/// same block, so the recursive call's visited check fires. This
/// is the exact shape that would infinite-recurse without the
/// safety net - by the time the recursive call is made, the
/// prefix has been processed and the loop variable resolved, so
/// nothing else bails first.
#[test]
fn visited_block_tracking_breaks_unexpected_cycle() {
    // Proto: KSHORT (start); KSHORT (stop); KSHORT (step); FORI.
    // The synthetic CFG below rewrites the FORI's body edge to
    // point at the FORI's own block (Block 0) rather than a
    // separate body block - creating a self-referential cycle.
    let proto = Proto {
        flags: 0x02,
        numparams: 0,
        framesize: 4,
        upvalues: Vec::new(),
        gc_consts: Vec::new(),
        num_consts: Vec::new(),
        insts: vec![
            Instruction::synthetic_header(Opcode::Funcv, 4),
            ad(Opcode::Kshort, 0, 1),    // idx 1 - start
            ad(Opcode::Kshort, 1, 10),   // idx 2 - stop
            ad(Opcode::Kshort, 2, 1),    // idx 3 - step
            ad(Opcode::Fori, 0, 0x8002), // idx 4 - FORI (would target idx 7 normally)
        ],
        debug: Some(DebugInfo {
            var_info: vec![named_local(3, "i", 3, 3)],
            ..DebugInfo::default()
        }),
    };
    // Wrap in a single-proto module (the recover signature takes
    // &Module + proto_idx so the FNEW handler can locate child
    // protos - this test has no FNEW but the signature is uniform).
    let module = Module {
        header: ModuleHeader {
            flags: luadejit_core::ir::FLAG_FR2,
            chunkname: None,
        },
        protos: vec![proto],
    };
    // Synthetic CFG: a single block that is its own loop body.
    // Not a shape the CFG builder would ever produce, but exactly
    // the kind of unexpected cycle the safety net must catch.
    let cfg = Cfg {
        blocks: vec![BasicBlock {
            id: BlockId(0),
            insts: vec![
                InstructionId(1),
                InstructionId(2),
                InstructionId(3),
                InstructionId(4),
            ],
            terminator: Terminator::LoopInit {
                base: 0,
                exit: BlockId(0),
                body: BlockId(0),
            },
            preds: vec![BlockId(0)],
            succs: vec![
                (BlockId(0), luadejit_core::cfg::EdgeKind::True),
                (BlockId(0), luadejit_core::cfg::EdgeKind::False),
            ],
        }],
        entry: BlockId(0),
    };
    let result = recover(&module, 0, &cfg, true, None);
    assert!(
        matches!(result, Err(DecompilerError::NotImplemented)),
        "expected NotImplemented on synthetic self-referential LoopInit, got {:?}",
        result
    );
}

#[test]
fn recover_numeric_for_in_branch_body_bails() {
    // Outer if/then wrapping an inner numeric-for. The walk
    // enters the then-body with stop_at_merge=true; the LoopInit
    // arm rejects that immediately.
    //   GGET 0 0; ISF 0; JMP => 0010;  (entry / outer CB)
    //   KSHORT 1 1; KSHORT 2 10; KSHORT 3 1;
    //   FORI 1 => 0009; FORL 1 => 0007;  (inner loop, in then-body)
    //   RET0.
    // (Contrived bytecode; the CFG has 1 CB + 1 FORI, the
    // unsupported nested shape.)
    let insts = vec![
        ad(Opcode::Gget, 0, 0),      // idx 1
        ad(Opcode::Isf, 0, 0),       // idx 2
        ad(Opcode::Jmp, 1, 0x8006),  // idx 3: target = idx 10
        ad(Opcode::Kshort, 1, 1),    // idx 4
        ad(Opcode::Kshort, 2, 10),   // idx 5
        ad(Opcode::Kshort, 3, 1),    // idx 6
        ad(Opcode::Fori, 1, 0x8001), // idx 7: target = idx 9 (exit)
        ad(Opcode::Forl, 1, 0x7ffd), // idx 8: target = idx 6 (body)
        ad(Opcode::Ret0, 0, 1),      // idx 9 (inner exit)
        ad(Opcode::Ret0, 0, 1),      // idx 10 (outer merge)
    ];
    let module = module_with(
        insts,
        vec![
            for_loop_var(VarKind::ForIdx, 1, 5, 8),
            for_loop_var(VarKind::ForStop, 2, 5, 8),
            for_loop_var(VarKind::ForStep, 3, 5, 8),
            named_local(4, "i", 6, 7),
        ],
        vec![GcConst::Str(b"x".to_vec())],
        Vec::new(),
        5,
    );
    let result = emit_module(&module);
    assert!(
        matches!(result, Err(DecompilerError::NotImplemented)),
        "expected NotImplemented for nested loop in if-body, got {:?}",
        result
    );
}

/// Build the var_info records LuaJIT emits for
/// `for k, v in pairs(t) do print(k, v) end` (verified empirically
/// via the IR parser). The iterator-state slots 0..2 carry
/// compiler-internal kinds (ForGen/ForState/ForCtl); the visible
/// loop variables at slots 3 and 4 are user-named via VarKind::Name.
fn generic_for_var_info() -> Vec<VarInfo> {
    vec![
        for_loop_var(VarKind::ForGen, 0, 2, 8),
        for_loop_var(VarKind::ForState, 1, 2, 8),
        for_loop_var(VarKind::ForCtl, 2, 2, 8),
        named_local(3, "k", 3, 7),
        named_local(4, "v", 3, 7),
    ]
}

fn generic_for_module(var_info: Vec<VarInfo>) -> Module {
    // ISNEXT at abs idx 4 -> target abs idx 9. j = 9 - 5 = 4, D = 0x8004.
    // ITERL at abs idx 10 -> target abs idx 5. j = 5 - 11 = -6, D = 0x7FFA.
    let insts = vec![
        ad(Opcode::Gget, 0, 0),
        ad(Opcode::Gget, 2, 1),
        abc(Opcode::Call, 0, 4, 2),
        ad(Opcode::Isnext, 3, 0x8004),
        ad(Opcode::Gget, 5, 2),
        ad(Opcode::Mov, 7, 3),
        ad(Opcode::Mov, 8, 4),
        abc(Opcode::Call, 5, 1, 3),
        abc(Opcode::Itern, 3, 3, 3),
        ad(Opcode::Iterl, 3, 0x7FFA),
        ad(Opcode::Ret0, 0, 1),
    ];
    module_with(
        insts,
        var_info,
        // gc_consts are reverse-indexed: GGET 0 0 -> gc_consts[2],
        // GGET 2 1 -> gc_consts[1], GGET 5 2 -> gc_consts[0]. So
        // file order is [print, t, pairs].
        vec![
            GcConst::Str(b"print".to_vec()),
            GcConst::Str(b"t".to_vec()),
            GcConst::Str(b"pairs".to_vec()),
        ],
        Vec::new(),
        9,
    )
}

#[test]
fn recover_generic_for_two_vars() {
    let module = generic_for_module(generic_for_var_info());
    assert_eq!(
        emit(&module),
        "for k, v in pairs(t) do\n    print(k, v)\nend"
    );
}

#[test]
fn recover_generic_for_ast_shape() {
    let module = generic_for_module(generic_for_var_info());
    let proto = module.main_proto();
    let cfg = Cfg::build(proto);
    let ast = recover(&module, 0, &cfg, true, None).expect("recover should succeed");

    assert_eq!(ast.len(), 1, "expected just [ForIn] (implicit RET0)");
    match &ast[0] {
        Stmt::ForIn {
            vars,
            iterator,
            body,
        } => {
            assert_eq!(vars, &vec!["k".to_string(), "v".to_string()]);
            match iterator {
                Expr::Call { func, args } => {
                    assert_eq!(*func.as_ref(), Expr::Global("pairs".to_string()));
                    assert_eq!(args.len(), 1, "iterator call args len");
                    assert_eq!(args[0], Expr::Global("t".to_string()));
                }
                other => panic!("expected Call iterator, got {:?}", other),
            }
            assert_eq!(body.len(), 1, "body len");
            match &body[0] {
                Stmt::Call { func, args } => {
                    assert_eq!(*func, Expr::Global("print".to_string()));
                    assert_eq!(
                        args,
                        &vec![Expr::Var("k".to_string()), Expr::Var("v".to_string())]
                    );
                }
                other => panic!("expected Call body stmt, got {:?}", other),
            }
        }
        other => panic!("expected ForIn, got {:?}", other),
    }
}

/// Single-variable generic-for: `for k in pairs(t) do print(k) end`.
/// Verifies the loop-variable walk stops at the first unnamed slot
/// (slot 4 has no Name record, so vars == [k]).
#[test]
fn recover_generic_for_single_var() {
    // Same shape as two-vars, but ITERN B=2 (single loop var) and
    // the body's print(k) only reads slot 3. Layout (one fewer
    // body instruction than the two-vars case):
    //   1 GGET 0 0; 2 GGET 2 1; 3 CALL 0 4 2; 4 ISNEXT 3 => 8;
    //   5 GGET 4 2; 6 MOV 6 3; 7 CALL 4 1 2;
    //   8 ITERN 3 2 3; 9 ITERL 3 => 5;
    //  10 RET0.
    // D encodings:
    //   ISNEXT idx 4 -> target idx 8:  j = 8-5 = 3,   D = 0x8003.
    //   ITERL  idx 9 -> target idx 5:  j = 5-10 = -5, D = 0x7FFB.
    let insts = vec![
        ad(Opcode::Gget, 0, 0),
        ad(Opcode::Gget, 2, 1),
        abc(Opcode::Call, 0, 4, 2),
        ad(Opcode::Isnext, 3, 0x8003),
        ad(Opcode::Gget, 4, 2),
        ad(Opcode::Mov, 6, 3),
        abc(Opcode::Call, 4, 1, 2),
        abc(Opcode::Itern, 3, 2, 3),
        ad(Opcode::Iterl, 3, 0x7FFB),
        ad(Opcode::Ret0, 0, 1),
    ];
    let var_info = vec![
        for_loop_var(VarKind::ForGen, 0, 2, 7),
        for_loop_var(VarKind::ForState, 1, 2, 7),
        for_loop_var(VarKind::ForCtl, 2, 2, 7),
        // Only k (slot 3) is named - slot 4 has no Name record.
        named_local(3, "k", 3, 6),
    ];
    let module = module_with(
        insts,
        var_info,
        // gc_consts reverse-indexed: file order [print, t, pairs].
        vec![
            GcConst::Str(b"print".to_vec()),
            GcConst::Str(b"t".to_vec()),
            GcConst::Str(b"pairs".to_vec()),
        ],
        Vec::new(),
        7,
    );
    assert_eq!(emit(&module), "for k in pairs(t) do\n    print(k)\nend");
}

/// A generic-for whose loop variables lack Name records bails
/// with NotImplemented (we can't reconstruct names from a
/// stripped proto).
#[test]
fn recover_generic_for_bails_when_var_names_missing() {
    // Iterator-state records only - no Name records for slots 3+.
    let var_info = vec![
        for_loop_var(VarKind::ForGen, 0, 2, 8),
        for_loop_var(VarKind::ForState, 1, 2, 8),
        for_loop_var(VarKind::ForCtl, 2, 2, 8),
    ];
    let module = generic_for_module(var_info);
    let result = emit_module(&module);
    assert!(
        matches!(result, Err(DecompilerError::NotImplemented)),
        "expected NotImplemented when loop var names are missing, got {:?}",
        result
    );
}

#[test]
fn recover_generic_for_in_branch_body_bails() {
    // Outer if/then wrapping an inner generic-for. The walk
    // enters the then-body with stop_at_merge=true; the LoopInit
    // arm rejects that immediately.
    //   GGET 0 0; ISF 0; JMP => 0013;  (entry / outer CB)
    //   GGET 1 0; GGET 3 1; CALL 1 4 2;  (pairs(t) setup)
    //   ISNEXT 4 => 0012;
    //   GGET 6 2; MOV 8 4; MOV 9 5; CALL 6 1 3;  (body)
    //   ITERN 4 3 3; ITERL 4 => 0007;
    //   RET0.  (inner exit, == outer merge since then-body falls through)
    let insts = vec![
        ad(Opcode::Gget, 0, 0),        // idx 1
        ad(Opcode::Isf, 0, 0),         // idx 2
        ad(Opcode::Jmp, 1, 0x8009),    // idx 3: target = idx 13
        ad(Opcode::Gget, 1, 0),        // idx 4 - pairs
        ad(Opcode::Gget, 3, 1),        // idx 5 - t
        abc(Opcode::Call, 1, 4, 2),    // idx 6 - pairs(t)
        ad(Opcode::Isnext, 4, 0x8005), // idx 7 - target = idx 13 (latch)
        ad(Opcode::Gget, 6, 2),        // idx 8 - body: print
        ad(Opcode::Mov, 8, 4),         // idx 9
        ad(Opcode::Mov, 9, 5),         // idx 10
        abc(Opcode::Call, 6, 1, 3),    // idx 11
        abc(Opcode::Itern, 4, 3, 3),   // idx 12 - latch prefix
        ad(Opcode::Iterl, 4, 0x7FF8),  // idx 13 - latch: target = idx 7
        ad(Opcode::Ret0, 0, 1),        // idx 14 - exit
    ];
    let module = module_with(
        insts,
        vec![
            for_loop_var(VarKind::ForGen, 1, 5, 11),
            for_loop_var(VarKind::ForState, 2, 5, 11),
            for_loop_var(VarKind::ForCtl, 3, 5, 11),
            named_local(4, "k", 6, 10),
            named_local(5, "v", 6, 10),
        ],
        vec![
            GcConst::Str(b"print".to_vec()),
            GcConst::Str(b"t".to_vec()),
            GcConst::Str(b"pairs".to_vec()),
            GcConst::Str(b"x".to_vec()),
        ],
        Vec::new(),
        10,
    );
    let result = emit_module(&module);
    assert!(
        matches!(result, Err(DecompilerError::NotImplemented)),
        "expected NotImplemented for generic-for in if-body, got {:?}",
        result
    );
}

fn while_loop_module(n: u16, with_return: bool) -> Module {
    // JMP at idx 4 targets exit at idx 8 -> j = 8 - 5 = 3, D = 0x8003.
    // JMP at idx 7 targets header at idx 2 -> j = 2 - 8 = -6, D = 0x7FFA.
    let exit_inst = if with_return {
        ad(Opcode::Ret1, 0, 2)
    } else {
        ad(Opcode::Ret0, 0, 1)
    };
    let insts = vec![
        ad(Opcode::Kshort, 0, 0),
        ad(Opcode::Kshort, 1, n),
        ad(Opcode::Isge, 0, 1),
        ad(Opcode::Jmp, 1, 0x8003),
        ad(Opcode::Loop, 1, 0x8003),
        abc(Opcode::Addvn, 0, 0, 0),
        ad(Opcode::Jmp, 1, 0x7FFA),
        exit_inst,
    ];
    module_with(
        insts,
        vec![named_local(0, "i", 0, 7)],
        Vec::new(),
        vec![NumConst::Int(1)],
        2,
    )
}

#[test]
fn recover_while_basic() {
    let module = while_loop_module(10, true);
    assert_eq!(
        emit(&module),
        "local i = 0\nwhile i < 10 do\n    i = i + 1\nend\nreturn i"
    );
}

/// `local i = 0; while i < 3 do i = i + 1 end` (no return) ->
/// the implicit RET0 produces no Stmt; the AST is just the local
/// declaration followed by the While.
#[test]
fn recover_while_no_return() {
    let module = while_loop_module(3, false);
    assert_eq!(
        emit(&module),
        "local i = 0\nwhile i < 3 do\n    i = i + 1\nend"
    );
}

#[test]
fn recover_while_ast_shape() {
    let module = while_loop_module(10, true);
    let proto = module.main_proto();
    let cfg = Cfg::build(proto);
    let ast = recover(&module, 0, &cfg, true, None).expect("recover should succeed");

    assert_eq!(ast.len(), 3, "expected [LocalDecl, While, Return]");
    match &ast[0] {
        Stmt::LocalDecl { name, expr } => {
            assert_eq!(name, "i");
            assert_eq!(*expr, Expr::Int(0), "local i = 0");
        }
        other => panic!("expected LocalDecl, got {:?}", other),
    }
    match &ast[1] {
        Stmt::While { cond, body } => {
            // ISGE 0 1 tests R[0] >= R[1] = `i >= 10`; complement
            // is `i < 10`.
            assert_eq!(
                cond.clone(),
                Expr::BinOp {
                    op: BinOpKind::LessThan,
                    left: Box::new(Expr::Var("i".to_string())),
                    right: Box::new(Expr::Int(10)),
                },
                "while condition"
            );
            assert_eq!(body.len(), 1, "body len");
            match &body[0] {
                Stmt::Assign { name, expr } => {
                    assert_eq!(name, "i");
                    // i + 1: ADDVN 0 0 0; num_const[0] = Int(1).
                    assert_eq!(
                        expr.clone(),
                        Expr::BinOp {
                            op: BinOpKind::Add,
                            left: Box::new(Expr::Var("i".to_string())),
                            right: Box::new(Expr::Int(1)),
                        },
                        "body: i = i + 1"
                    );
                }
                other => panic!("expected Assign, got {:?}", other),
            }
        }
        other => panic!("expected While, got {:?}", other),
    }
    match &ast[2] {
        Stmt::Return(Some(expr)) => assert_eq!(*expr, Expr::Var("i".to_string())),
        other => panic!("expected Return(Some(Var(i))), got {:?}", other),
    }
}

fn repeat_loop_module(n: u16) -> Module {
    // LOOP at idx 2 targets exit at idx 7 -> D encoded as 0x8000 + (7 - 3) = 0x8004.
    // JMP at idx 6 targets header at idx 2 -> j = 2 - 7 = -5, D = 0x7FFB.
    let insts = vec![
        ad(Opcode::Kshort, 0, 0),
        ad(Opcode::Loop, 1, 0x8004),
        abc(Opcode::Addvn, 0, 0, 0),
        ad(Opcode::Kshort, 1, n),
        ad(Opcode::Isgt, 1, 0),
        ad(Opcode::Jmp, 1, 0x7FFB),
        ad(Opcode::Ret1, 0, 2),
    ];
    module_with(
        insts,
        vec![named_local(0, "i", 0, 6)],
        Vec::new(),
        vec![NumConst::Int(1)],
        2,
    )
}

#[test]
fn recover_repeat_basic() {
    let module = repeat_loop_module(3);
    assert_eq!(
        emit(&module),
        "local i = 0\nrepeat\n    i = i + 1\nuntil 3 <= i\nreturn i"
    );
}

#[test]
fn recover_repeat_ast_shape() {
    let module = repeat_loop_module(3);
    let proto = module.main_proto();
    let cfg = Cfg::build(proto);
    let ast = recover(&module, 0, &cfg, true, None).expect("recover should succeed");

    assert_eq!(ast.len(), 3, "expected [LocalDecl, Repeat, Return]");
    match &ast[0] {
        Stmt::LocalDecl { name, expr } => {
            assert_eq!(name, "i");
            assert_eq!(*expr, Expr::Int(0), "local i = 0");
        }
        other => panic!("expected LocalDecl, got {:?}", other),
    }
    match &ast[1] {
        Stmt::Repeat { cond, body } => {
            // ISGT 1 0 tests R[1] > R[0] = `3 > i` (continue
            // condition); complement is `3 <= i`.
            assert_eq!(
                cond.clone(),
                Expr::BinOp {
                    op: BinOpKind::LessEqual,
                    left: Box::new(Expr::Int(3)),
                    right: Box::new(Expr::Var("i".to_string())),
                },
                "until condition (canonicalized)"
            );
            assert_eq!(body.len(), 1, "body len");
            match &body[0] {
                Stmt::Assign { name, expr } => {
                    assert_eq!(name, "i");
                    assert_eq!(
                        expr.clone(),
                        Expr::BinOp {
                            op: BinOpKind::Add,
                            left: Box::new(Expr::Var("i".to_string())),
                            right: Box::new(Expr::Int(1)),
                        },
                        "body: i = i + 1"
                    );
                }
                other => panic!("expected Assign, got {:?}", other),
            }
        }
        other => panic!("expected Repeat, got {:?}", other),
    }
    match &ast[2] {
        Stmt::Return(Some(expr)) => assert_eq!(*expr, Expr::Var("i".to_string())),
        other => panic!("expected Return(Some(Var(i))), got {:?}", other),
    }
}

#[test]
fn recover_if_then_when_body_does_not_loop_back() {
    //   GGET 0 0; ISF 0; JMP => 0006;  (entry CB)
    //   KSHORT 0 1; RET1;              (then-body, returns)
    //   RET0.                           (merge = true_edge)
    let insts = vec![
        ad(Opcode::Gget, 0, 0),
        ad(Opcode::Isf, 0, 0),
        ad(Opcode::Jmp, 1, 0x8002),
        ad(Opcode::Kshort, 0, 1),
        ad(Opcode::Ret1, 0, 2),
        ad(Opcode::Ret0, 0, 1),
    ];
    let module = module_with(
        insts,
        Vec::new(),
        vec![GcConst::Str(b"x".to_vec())],
        Vec::new(),
        1,
    );
    let proto = module.main_proto();
    let cfg = Cfg::build(proto);
    let ast = recover(&module, 0, &cfg, true, None).expect("recover should succeed");
    assert_eq!(ast.len(), 1, "expected just [If]");
    assert!(
        matches!(ast[0], Stmt::If { .. }),
        "expected If, not While, when body doesn't loop back"
    );
}

#[test]
fn recover_and_chain_is_not_while() {
    //   GGET 0 0; ISF 0; JMP => 0009;  (CB1)
    //   GGET 0 1; ISF 0; JMP => 0009;  (CB2)
    //   KSHORT 0 1; RET1; RET0.        (then-body + merge)
    let insts = vec![
        ad(Opcode::Gget, 0, 0),
        ad(Opcode::Isf, 0, 0),
        ad(Opcode::Jmp, 1, 0x8005),
        ad(Opcode::Gget, 0, 1),
        ad(Opcode::Isf, 0, 0),
        ad(Opcode::Jmp, 1, 0x8002),
        ad(Opcode::Kshort, 0, 1),
        ad(Opcode::Ret1, 0, 2),
        ad(Opcode::Ret0, 0, 1),
    ];
    let module = module_with(
        insts,
        Vec::new(),
        vec![GcConst::Str(b"b".to_vec()), GcConst::Str(b"a".to_vec())],
        Vec::new(),
        1,
    );
    let proto = module.main_proto();
    let cfg = Cfg::build(proto);
    let ast = recover(&module, 0, &cfg, true, None).expect("recover should succeed");
    assert_eq!(ast.len(), 1, "expected just [If]");
    assert!(
        matches!(ast[0], Stmt::If { .. }),
        "AND chain should be If, not While"
    );
}

/// An empty `while` body (`while x do end`) - the body block is
/// just [LOOP, JMP]. The recovery should produce an empty body
/// Vec and emit `while <cond> do\nend`.
#[test]
fn recover_while_empty_body() {
    //   KSHORT 0 1; KSHORT 1 2; ISGE 0 1; JMP => 0007;
    //   LOOP 1 => 0007; JMP => 0002;   (empty body)
    //   RET0.
    let insts = vec![
        ad(Opcode::Kshort, 0, 1),
        ad(Opcode::Kshort, 1, 2),
        ad(Opcode::Isge, 0, 1),
        ad(Opcode::Jmp, 1, 0x8002), // idx 4: target = idx 7
        ad(Opcode::Loop, 1, 0x8002),
        ad(Opcode::Jmp, 1, 0x7ffb), // idx 6: target = idx 2 (back-edge)
        ad(Opcode::Ret0, 0, 1),
    ];
    let module = module_with(
        insts,
        vec![named_local(0, "a", 0, 6), named_local(1, "b", 1, 6)],
        Vec::new(),
        Vec::new(),
        2,
    );
    assert_eq!(
        emit(&module),
        "local a = 1\nlocal b = 2\nwhile a < b do\nend"
    );
}

/// An empty `repeat` body (`repeat until x`) - body is just
/// [LOOP, condition, JMP]. The recovery should produce an empty
/// body Vec.
#[test]
fn recover_repeat_empty_body() {
    //   KSHORT 0 0; LOOP 1 => 0006; KSHORT 1 3; ISGT 1 0; JMP => 0002; RET0.
    // Loop runs zero times if i happens to already be >= 3, but
    // for testing purposes the bytecode shape is what matters.
    let insts = vec![
        ad(Opcode::Kshort, 0, 0),
        ad(Opcode::Loop, 1, 0x8004), // idx 2: target = idx 6
        ad(Opcode::Kshort, 1, 3),
        ad(Opcode::Isgt, 1, 0),
        ad(Opcode::Jmp, 1, 0x7ffc), // idx 5: target = idx 2
        ad(Opcode::Ret0, 0, 1),
    ];
    let module = module_with(
        insts,
        vec![named_local(0, "i", 0, 5)],
        Vec::new(),
        Vec::new(),
        2,
    );
    assert_eq!(emit(&module), "local i = 0\nrepeat\nuntil 3 <= i");
}

fn call_no_result_module(arg_load: Instruction, gc_consts: Vec<GcConst>) -> Module {
    let insts = vec![
        ad(Opcode::Gget, 0, 0),
        arg_load,
        abc(Opcode::Call, 0, 1, 2),
        ad(Opcode::Ret0, 0, 1),
    ];
    module_with(insts, Vec::new(), gc_consts, Vec::new(), 3)
}

/// `print("hello")` - bare call, single string arg, no result.
/// The recovery pushes a `Stmt::Call` directly (no slot update).
#[test]
fn recover_call_no_result_string_arg() {
    // GGET 0 0 -> Global("print") (operand 0); KSTR 2 1 ->
    // Str("hello") (operand 1). With gc_consts = [hello, print]
    // (file order), reverse-index gives operand 0 -> [1] = print,
    // operand 1 -> [0] = hello.
    let module = call_no_result_module(
        ad(Opcode::Kstr, 2, 1),
        vec![
            GcConst::Str(b"hello".to_vec()),
            GcConst::Str(b"print".to_vec()),
        ],
    );
    assert_eq!(emit(&module), "print(\"hello\")");
}

#[test]
fn recover_call_no_result_ast_shape() {
    let module = call_no_result_module(
        ad(Opcode::Kstr, 2, 1),
        vec![
            GcConst::Str(b"hello".to_vec()),
            GcConst::Str(b"print".to_vec()),
        ],
    );
    let proto = module.main_proto();
    let cfg = Cfg::build(proto);
    let ast = recover(&module, 0, &cfg, true, None).expect("recover should succeed");
    assert_eq!(
        ast.len(),
        1,
        "expected just [Call] (implicit RET0 -> no Stmt)"
    );
    match &ast[0] {
        Stmt::Call { func, args } => {
            assert_eq!(*func, Expr::Global("print".to_string()), "func");
            assert_eq!(args.len(), 1, "args len");
            assert_eq!(args[0], Expr::Str(b"hello".to_vec()), "arg 0");
        }
        other => panic!("expected Call, got {:?}", other),
    }
}

/// `f()` - bare call with NO arguments (C=1, meaning 0 args).
/// Confirms the arg-count math: `arg_count = C - 1 = 0`, and
/// the arg-slot loop `(A+2)..=(A+C)` is empty when C == 1.
#[test]
fn recover_call_no_args() {
    //   GGET 0 0; CALL 0 1 1; RET0.
    let insts = vec![
        ad(Opcode::Gget, 0, 0),
        abc(Opcode::Call, 0, 1, 1),
        ad(Opcode::Ret0, 0, 1),
    ];
    let module = module_with(
        insts,
        Vec::new(),
        vec![GcConst::Str(b"f".to_vec())],
        Vec::new(),
        1,
    );
    assert_eq!(emit(&module), "f()");
}

#[test]
fn recover_call_multiple_args() {
    //   GGET 0 0;      (print - operand 0)
    //   KSTR 2 1; KSTR 3 2; KSTR 4 3;   (3 args, operands 1, 2, 3)
    //   CALL 0 1 4;    (B=1: 0 results; C=4: 3 args)
    //   RET0.
    // gc_consts file order (reverse-indexed): [c, b, a, print].
    let insts = vec![
        ad(Opcode::Gget, 0, 0),
        ad(Opcode::Kstr, 2, 1),
        ad(Opcode::Kstr, 3, 2),
        ad(Opcode::Kstr, 4, 3),
        abc(Opcode::Call, 0, 1, 4),
        ad(Opcode::Ret0, 0, 1),
    ];
    let module = module_with(
        insts,
        Vec::new(),
        vec![
            GcConst::Str(b"c".to_vec()),
            GcConst::Str(b"b".to_vec()),
            GcConst::Str(b"a".to_vec()),
            GcConst::Str(b"print".to_vec()),
        ],
        Vec::new(),
        5,
    );
    assert_eq!(emit(&module), "print(\"a\", \"b\", \"c\")");
}

/// `local x = tostring(42)` - single-result call whose result is
/// stored in a named local. The recovery routes through
/// [`assign_slot_ast`], which recognizes slot 0 as the
/// declaration point of `x` and pushes `Stmt::LocalDecl`.
#[test]
fn recover_call_result_in_local_decl() {
    //   GGET  0 0      (tostring at slot 0)
    //   KSHORT 2 42    (arg at slot 2; gap at slot 1)
    //   CALL  0 2 2    (B=2: 1 result at slot 0; C=2: 1 arg)
    //   RET0  0 1.
    // var_info: x declared at real-idx 2 (the CALL), scope
    // covers through the RET0.
    let insts = vec![
        ad(Opcode::Gget, 0, 0),
        ad(Opcode::Kshort, 2, 42),
        abc(Opcode::Call, 0, 2, 2),
        ad(Opcode::Ret0, 0, 1),
    ];
    let module = module_with(
        insts,
        vec![named_local(0, "x", 2, 3)],
        vec![GcConst::Str(b"tostring".to_vec())],
        Vec::new(),
        3,
    );
    assert_eq!(emit(&module), "local x = tostring(42)");
}

/// `x = f(1)` - single-result call assigned to an existing
/// local. The CALL writes slot 0, but `x` is already in scope
/// (declared earlier), so [`assign_slot_ast`] pushes an Assign
/// (no `local`).
#[test]
fn recover_call_result_in_reassignment() {
    //   KSHORT 0 0      (x = 0; declares x at real-idx 0)
    //   GGET   1 0      (f at slot 1)
    //   KSHORT 3 1      (arg at slot 3; gap at slot 2)
    //   CALL   1 2 2    (B=2: 1 result at slot 1)
    //   MOV    0 1      (x = result)
    //   RET1   0 2.
    //
    // LuaJIT actually lowers `x = f(1)` this way - the call's
    // result lands in a temp slot, then a MOV copies it into the
    // named local. We use this shape to exercise the Assign path
    // for a CALL RHS.
    let insts = vec![
        ad(Opcode::Kshort, 0, 0),
        ad(Opcode::Gget, 1, 0),
        ad(Opcode::Kshort, 3, 1),
        abc(Opcode::Call, 1, 2, 2),
        ad(Opcode::Mov, 0, 1),
        ad(Opcode::Ret1, 0, 2),
    ];
    let module = module_with(
        insts,
        vec![named_local(0, "x", 0, 5)],
        vec![GcConst::Str(b"f".to_vec())],
        Vec::new(),
        4,
    );
    assert_eq!(emit(&module), "local x = 0\nx = f(1)\nreturn x");
}

/// `return f(1)` shape - single-result call whose result is
/// immediately returned. The CALL writes slot 0 (an unnamed
/// temp), and the following RET1 reads slot 0. No Stmt is
/// emitted for the CALL itself; the call surfaces as
/// `Expr::Call` inside the `Return`.
#[test]
fn recover_call_result_returned() {
    //   GGET   0 0      (f at slot 0)
    //   KSHORT 2 1      (arg at slot 2)
    //   CALL   0 2 2    (B=2: 1 result at slot 0)
    //   RET1   0 2.
    // No var_info at slot 0 -> the CALL stores Expr::Call as an
    // unnamed temp; RET1 reads it.
    let insts = vec![
        ad(Opcode::Gget, 0, 0),
        ad(Opcode::Kshort, 2, 1),
        abc(Opcode::Call, 0, 2, 2),
        ad(Opcode::Ret1, 0, 2),
    ];
    let module = module_with(
        insts,
        Vec::new(),
        vec![GcConst::Str(b"f".to_vec())],
        Vec::new(),
        3,
    );
    assert_eq!(emit(&module), "return f(1)");
}

#[test]
fn recover_call_multres_results_no_consumer_emits_nothing() {
    let insts = vec![
        ad(Opcode::Gget, 0, 0),
        ad(Opcode::Kshort, 2, 1),
        abc(Opcode::Call, 0, 0, 2), // B=0 -> multres, no consumer
        ad(Opcode::Ret0, 0, 1),
    ];
    let module = module_with(
        insts,
        Vec::new(),
        vec![GcConst::Str(b"f".to_vec())],
        Vec::new(),
        3,
    );
    // No consumer -> no emitted Stmt. The call expr is stored in
    // slot 0 but never read.
    assert_eq!(emit(&module), "");
}

/// Bare CALL with C == 0 (multres args) never appears in
/// well-formed bytecode - LuaJIT emits CALLM for multres-arg
/// calls, not CALL. The recovery keeps bailing on this shape
/// (CALLM is the multres-args opcode, handled separately).
#[test]
fn recover_call_multres_args_not_supported() {
    let insts = vec![
        ad(Opcode::Gget, 0, 0),
        abc(Opcode::Call, 0, 1, 0), // C=0 -> bare multres args (malformed)
        ad(Opcode::Ret0, 0, 1),
    ];
    let module = module_with(
        insts,
        Vec::new(),
        vec![GcConst::Str(b"f".to_vec())],
        Vec::new(),
        1,
    );
    let result = emit_module(&module);
    assert!(
        matches!(result, Err(DecompilerError::NotImplemented)),
        "expected NotImplemented for bare CALL with C=0, got {:?}",
        result
    );
}

/// CALL with B > 2 (multiple explicit results - e.g. the
/// `local a, b = f()` shape, where B = 3 means 2 results) bails
/// with NotImplemented.
#[test]
fn recover_call_multi_result_not_supported() {
    let insts = vec![
        ad(Opcode::Gget, 0, 0),
        ad(Opcode::Kshort, 2, 1),
        abc(Opcode::Call, 0, 3, 2), // B=3 -> 2 results
        ad(Opcode::Ret0, 0, 1),
    ];
    let module = module_with(
        insts,
        Vec::new(),
        vec![GcConst::Str(b"f".to_vec())],
        Vec::new(),
        3,
    );
    let result = emit_module(&module);
    assert!(
        matches!(result, Err(DecompilerError::NotImplemented)),
        "expected NotImplemented for multi-result CALL (B=3), got {:?}",
        result
    );
}

/// CALL with an uninitialized argument slot bails with
/// NotImplemented - we can't reconstruct the call source.
#[test]
fn recover_call_uninitialized_arg_not_supported() {
    //   GGET   0 0      (f at slot 0)
    //   CALL   0 1 2    (C=2 -> 1 arg at slot 2, but slot 2 was
    //                    never written)
    //   RET0.
    let insts = vec![
        ad(Opcode::Gget, 0, 0),
        abc(Opcode::Call, 0, 1, 2),
        ad(Opcode::Ret0, 0, 1),
    ];
    let module = module_with(
        insts,
        Vec::new(),
        vec![GcConst::Str(b"f".to_vec())],
        Vec::new(),
        3,
    );
    let result = emit_module(&module);
    assert!(
        matches!(result, Err(DecompilerError::NotImplemented)),
        "expected NotImplemented for CALL with uninitialized arg slot, got {:?}",
        result
    );
}

/// CALL with no function in the base slot bails with
/// NotImplemented.
#[test]
fn recover_call_no_function_in_base_slot_not_supported() {
    // CALL at the top with slot 0 never written - lookup_operand
    // fails on the func slot.
    let insts = vec![abc(Opcode::Call, 0, 1, 1), ad(Opcode::Ret0, 0, 1)];
    let module = module_with(insts, Vec::new(), Vec::new(), Vec::new(), 1);
    let result = emit_module(&module);
    assert!(
        matches!(result, Err(DecompilerError::NotImplemented)),
        "expected NotImplemented for CALL with no function in base slot, got {:?}",
        result
    );
}

/// `local x = obj.field` - TGETS with a named destination. The
/// Field expression is routed through `assign_slot_ast`, which
/// recognizes the slot as a LocalDecl.
#[test]
fn recover_tgets_field_access() {
    //   GGET  0 0      (obj - operand 0)
    //   TGETS 0 0 1    (slot 0 = slot 0[KSTR[reverse(1)]])
    //   RET0  0 1.
    // gc_consts file order (reverse-indexed): [field, obj].
    let insts = vec![
        ad(Opcode::Gget, 0, 0),
        abc(Opcode::Tgets, 0, 0, 1),
        ad(Opcode::Ret0, 0, 1),
    ];
    let module = module_with(
        insts,
        vec![named_local(0, "x", 1, 2)],
        vec![
            GcConst::Str(b"field".to_vec()),
            GcConst::Str(b"obj".to_vec()),
        ],
        Vec::new(),
        1,
    );
    assert_eq!(emit(&module), "local x = obj.field");
}

/// `local x = obj[5]` - TGETB. C is an inline integer literal
/// key, NOT a register.
#[test]
fn recover_tgetb_numeric_index() {
    //   GGET   0 0     (obj)
    //   TGETB  0 0 5   (slot 0 = slot 0[5])
    //   RET0   0 1.
    let insts = vec![
        ad(Opcode::Gget, 0, 0),
        abc(Opcode::Tgetb, 0, 0, 5),
        ad(Opcode::Ret0, 0, 1),
    ];
    let module = module_with(
        insts,
        vec![named_local(0, "x", 1, 2)],
        vec![GcConst::Str(b"obj".to_vec())],
        Vec::new(),
        1,
    );
    assert_eq!(emit(&module), "local x = obj[5]");
}

/// `local x = t[k]` - TGETV. Both B (table) and C (key) are
/// registers.
#[test]
fn recover_tgetv_register_index() {
    //   GGET  0 0     (t)
    //   GGET  1 1     (k)
    //   TGETV 0 0 1   (slot 0 = slot 0[slot 1] = t[k])
    //   RET0  0 1.
    let insts = vec![
        ad(Opcode::Gget, 0, 0),
        ad(Opcode::Gget, 1, 1),
        abc(Opcode::Tgetv, 0, 0, 1),
        ad(Opcode::Ret0, 0, 1),
    ];
    let module = module_with(
        insts,
        vec![named_local(0, "x", 2, 3)],
        vec![GcConst::Str(b"k".to_vec()), GcConst::Str(b"t".to_vec())],
        Vec::new(),
        2,
    );
    assert_eq!(emit(&module), "local x = t[k]");
}

/// TGETS with a non-string GC constant (e.g. an FFI cdata) bails
/// with NotImplemented.
#[test]
fn recover_tgets_non_string_const_not_supported() {
    // TGETS C=0 -> reverse-index 0 -> gc_consts[len-1-0]. With
    // gc_consts = [Str(obj), I64(0)] the operand resolves to
    // gc_consts[1] = I64 - non-string.
    let insts = vec![
        ad(Opcode::Gget, 0, 0),
        abc(Opcode::Tgets, 0, 0, 0),
        ad(Opcode::Ret0, 0, 1),
    ];
    let module = module_with(
        insts,
        Vec::new(),
        vec![GcConst::Str(b"obj".to_vec()), GcConst::I64(0)],
        Vec::new(),
        1,
    );
    let result = emit_module(&module);
    assert!(
        matches!(result, Err(DecompilerError::NotImplemented)),
        "expected NotImplemented for TGETS with non-string key, got {:?}",
        result
    );
}

/// TGETS with an uninitialized table register bails with
/// NotImplemented.
#[test]
fn recover_tgets_uninitialized_table_not_supported() {
    // slot 0 (the table) is never written.
    let insts = vec![abc(Opcode::Tgets, 0, 0, 0), ad(Opcode::Ret0, 0, 1)];
    let module = module_with(
        insts,
        Vec::new(),
        vec![GcConst::Str(b"field".to_vec())],
        Vec::new(),
        1,
    );
    let result = emit_module(&module);
    assert!(
        matches!(result, Err(DecompilerError::NotImplemented)),
        "expected NotImplemented for TGETS with uninitialized table, got {:?}",
        result
    );
}

#[test]
fn recover_method_call_with_explicit_arg() {
    //   GGET   0 0     (obj)
    //   MOV    2 0     (self = obj -> slot 2, the FR2 gap)
    //   TGETS  0 0 1   (slot 0 = obj.method)
    //   KSHORT 3 1     (explicit arg -> slot 3)
    //   CALL   0 1 3   (B=1: 0 results; C=3: 2 args)
    //   RET0   0 1.
    let insts = vec![
        ad(Opcode::Gget, 0, 0),
        ad(Opcode::Mov, 2, 0),
        abc(Opcode::Tgets, 0, 0, 1),
        ad(Opcode::Kshort, 3, 1),
        abc(Opcode::Call, 0, 1, 3),
        ad(Opcode::Ret0, 0, 1),
    ];
    let module = module_with(
        insts,
        Vec::new(),
        vec![
            GcConst::Str(b"method".to_vec()),
            GcConst::Str(b"obj".to_vec()),
        ],
        Vec::new(),
        4,
    );
    assert_eq!(emit(&module), "obj:method(1)");
}

/// `obj:method()` - method call with zero explicit args. Same
/// shape as `method_call_with_explicit_arg` minus the explicit
/// arg load; C=2 means 1 total arg (self), 0 explicit.
#[test]
fn recover_method_call_no_explicit_args() {
    //   GGET   0 0     (obj)
    //   MOV    2 0     (self -> slot 2)
    //   TGETS  0 0 1   (obj.method)
    //   CALL   0 1 2   (B=1; C=2: 1 arg, 0 explicit)
    //   RET0   0 1.
    let insts = vec![
        ad(Opcode::Gget, 0, 0),
        ad(Opcode::Mov, 2, 0),
        abc(Opcode::Tgets, 0, 0, 1),
        abc(Opcode::Call, 0, 1, 2),
        ad(Opcode::Ret0, 0, 1),
    ];
    let module = module_with(
        insts,
        Vec::new(),
        vec![
            GcConst::Str(b"method".to_vec()),
            GcConst::Str(b"obj".to_vec()),
        ],
        Vec::new(),
        3,
    );
    assert_eq!(emit(&module), "obj:method()");
}

/// `local x = obj:method()` - method call with a single result.
/// The CALL has B=2 (1 result), routed through `assign_slot_ast`
/// so the recovery recognizes slot 0 as a LocalDecl.
#[test]
fn recover_method_call_result_in_local_decl() {
    //   GGET   0 0     (obj)
    //   MOV    2 0     (self -> slot 2)
    //   TGETS  0 0 1   (obj.method)
    //   CALL   0 2 2   (B=2: 1 result at slot 0; C=2: 1 arg)
    //   RET0   0 1.
    let insts = vec![
        ad(Opcode::Gget, 0, 0),
        ad(Opcode::Mov, 2, 0),
        abc(Opcode::Tgets, 0, 0, 1),
        abc(Opcode::Call, 0, 2, 2),
        ad(Opcode::Ret0, 0, 1),
    ];
    let module = module_with(
        insts,
        vec![named_local(0, "x", 3, 4)],
        vec![
            GcConst::Str(b"method".to_vec()),
            GcConst::Str(b"obj".to_vec()),
        ],
        Vec::new(),
        3,
    );
    assert_eq!(emit(&module), "local x = obj:method()");
}

/// If the self slot holds a *different* expr from the Field's
/// obj (e.g. a synthetic test bytecode), the recovery falls back
/// to a regular function call rather than guessing a method
/// call. This exercises the detection predicate's equality
/// check.
#[test]
fn recover_field_call_with_mismatched_self_falls_back() {
    //   GGET   0 0     (obj)
    //   GGET   2 2     (something_else -> slot 2, would-be self)
    //   TGETS  0 0 1   (slot 0 = obj.method)
    //   CALL   0 1 2   (C=2: 1 arg at slot 2)
    //   RET0   0 1.
    // slot 2 (the arg) is `something_else`, not `obj`, so the
    // method-call check fails. The CALL surfaces as a regular
    // call on the Field expression: `obj.method(something_else)`.
    // gc_consts file order (reverse-indexed):
    //   [something_else, method, obj]   (len=3)
    // so GGET 0 0 -> gc_consts[2]=obj, GGET 2 2 -> gc_consts[0]=something_else,
    //    TGETS C=1 -> gc_consts[1]=method.
    let insts = vec![
        ad(Opcode::Gget, 0, 0),
        ad(Opcode::Gget, 2, 2),
        abc(Opcode::Tgets, 0, 0, 1),
        abc(Opcode::Call, 0, 1, 2),
        ad(Opcode::Ret0, 0, 1),
    ];
    let module = module_with(
        insts,
        Vec::new(),
        vec![
            GcConst::Str(b"something_else".to_vec()),
            GcConst::Str(b"method".to_vec()),
            GcConst::Str(b"obj".to_vec()),
        ],
        Vec::new(),
        3,
    );
    assert_eq!(emit(&module), "obj.method(something_else)");
}

/// Direct AST test for method-call shape: verifies the
/// `Stmt::MethodCall` payload (obj, method name, args).
#[test]
fn recover_method_call_ast_shape() {
    let insts = vec![
        ad(Opcode::Gget, 0, 0),
        ad(Opcode::Mov, 2, 0),
        abc(Opcode::Tgets, 0, 0, 1),
        ad(Opcode::Kshort, 3, 1),
        abc(Opcode::Call, 0, 1, 3),
        ad(Opcode::Ret0, 0, 1),
    ];
    let module = module_with(
        insts,
        Vec::new(),
        vec![
            GcConst::Str(b"method".to_vec()),
            GcConst::Str(b"obj".to_vec()),
        ],
        Vec::new(),
        4,
    );
    let proto = module.main_proto();
    let cfg = Cfg::build(proto);
    let ast = recover(&module, 0, &cfg, true, None).expect("recover should succeed");
    assert_eq!(
        ast.len(),
        1,
        "expected just [MethodCall] (implicit RET0 -> no Stmt)"
    );
    match &ast[0] {
        Stmt::MethodCall { obj, method, args } => {
            assert_eq!(*obj, Expr::Global("obj".to_string()), "obj");
            assert_eq!(method, "method", "method");
            assert_eq!(args.len(), 1, "args len");
            assert_eq!(args[0], Expr::Int(1), "arg 0");
        }
        other => panic!("expected MethodCall, got {:?}", other),
    }
}

/// Direct AST test for the field-access shape: verifies the
/// `Expr::Field` payload is preserved through the slot map.
#[test]
fn recover_field_access_ast_shape() {
    let insts = vec![
        ad(Opcode::Gget, 0, 0),
        abc(Opcode::Tgets, 0, 0, 1),
        ad(Opcode::Ret1, 0, 2),
    ];
    let module = module_with(
        insts,
        Vec::new(),
        vec![
            GcConst::Str(b"field".to_vec()),
            GcConst::Str(b"obj".to_vec()),
        ],
        Vec::new(),
        1,
    );
    let proto = module.main_proto();
    let cfg = Cfg::build(proto);
    let ast = recover(&module, 0, &cfg, true, None).expect("recover should succeed");
    assert_eq!(ast.len(), 1, "expected just [Return]");
    match &ast[0] {
        Stmt::Return(Some(expr)) => {
            assert_eq!(
                *expr,
                Expr::Field {
                    obj: Box::new(Expr::Global("obj".to_string())),
                    name: "field".to_string(),
                },
                "return expr"
            );
        }
        other => panic!("expected Return(Some(Field)), got {:?}", other),
    }
}

/// Build a Module with FR1 (no FR2 flag). Mirrors `module_with`
/// but clears the FR2 flag in the header.
fn module_with_fr1(
    real_insts: Vec<Instruction>,
    var_info: Vec<VarInfo>,
    gc_consts: Vec<GcConst>,
    num_consts: Vec<NumConst>,
    framesize: u8,
) -> Module {
    let mut insts = vec![Instruction::synthetic_header(Opcode::Funcv, framesize)];
    insts.extend(real_insts);
    Module {
        header: ModuleHeader {
            flags: 0,
            chunkname: None,
        },
        protos: vec![Proto {
            flags: 0,
            numparams: 0,
            framesize,
            upvalues: Vec::<UpvalDesc>::new(),
            gc_consts,
            num_consts,
            insts,
            debug: Some(DebugInfo {
                var_info,
                ..DebugInfo::default()
            }),
        }],
    }
}

/// FR1 CALL: args start at A+1 (no gap). The Darktide corpus
/// packs args this way; the recovery must honor the FR1 layout.
#[test]
fn recover_fr1_call_args_at_a_plus_1() {
    // `f(1)` in FR1:
    //   GGET   0 0     (f at slot 0)
    //   KSHORT 1 1     (arg at slot 1, NOT slot 2 - no FR2 gap)
    //   CALL   0 1 2   (A=0, B=1, C=2: 1 arg at slot A+1)
    //   RET0   0 1.
    let insts = vec![
        ad(Opcode::Gget, 0, 0),
        ad(Opcode::Kshort, 1, 1),
        abc(Opcode::Call, 0, 1, 2),
        ad(Opcode::Ret0, 0, 1),
    ];
    let module = module_with_fr1(
        insts,
        Vec::new(),
        vec![GcConst::Str(b"f".to_vec())],
        Vec::new(),
        2,
    );
    assert_eq!(emit_module(&module).unwrap(), "f(1)");
}

/// FR1 method call: self at slot A+1, explicit args at A+2..A+C.
#[test]
fn recover_fr1_method_call() {
    // `obj:method(1)` in FR1:
    //   GGET   0 0     (obj)
    //   MOV    1 0     (self = obj -> slot A+1 = slot 1)
    //   TGETS  0 0 1   (obj.method -> slot 0)
    //   KSHORT 2 1     (explicit arg at slot A+2 = slot 2)
    //   CALL   0 1 3   (C=3: 2 args: self + explicit)
    //   RET0   0 1.
    let insts = vec![
        ad(Opcode::Gget, 0, 0),
        ad(Opcode::Mov, 1, 0),
        abc(Opcode::Tgets, 0, 0, 1),
        ad(Opcode::Kshort, 2, 1),
        abc(Opcode::Call, 0, 1, 3),
        ad(Opcode::Ret0, 0, 1),
    ];
    let module = module_with_fr1(
        insts,
        Vec::new(),
        vec![
            GcConst::Str(b"method".to_vec()),
            GcConst::Str(b"obj".to_vec()),
        ],
        Vec::new(),
        3,
    );
    assert_eq!(emit_module(&module).unwrap(), "obj:method(1)");
}

#[test]
fn recover_fr2_call_args_at_a_plus_2() {
    let insts = vec![
        ad(Opcode::Gget, 0, 0),
        ad(Opcode::Kshort, 2, 1),
        abc(Opcode::Call, 0, 1, 2),
        ad(Opcode::Ret0, 0, 1),
    ];
    let module = module_with(
        insts,
        Vec::new(),
        vec![GcConst::Str(b"f".to_vec())],
        Vec::new(),
        3,
    );
    assert_eq!(emit(&module), "f(1)");
}

#[test]
fn recover_tsetm_not_supported() {
    let insts = vec![ad(Opcode::Tsetm, 0, 0), ad(Opcode::Ret0, 0, 1)];
    let module = module_with(insts, Vec::new(), Vec::new(), Vec::new(), 1);
    let result = emit_module(&module);
    assert!(
        matches!(result, Err(DecompilerError::NotImplemented)),
        "expected NotImplemented for TSETM, got {:?}",
        result
    );
}

/// TGETR (FFI raw table get - rare) bails with NotImplemented.
#[test]
fn recover_tgetr_not_supported() {
    let insts = vec![abc(Opcode::Tgetr, 0, 0, 0), ad(Opcode::Ret0, 0, 1)];
    let module = module_with(insts, Vec::new(), Vec::new(), Vec::new(), 1);
    let result = emit_module(&module);
    assert!(
        matches!(result, Err(DecompilerError::NotImplemented)),
        "expected NotImplemented for TGETR, got {:?}",
        result
    );
}

/// Build a [`TableConst`] from its array and hash parts. Used by
/// the TDUP unit tests.
fn table_const(array: Vec<KtabK>, hash: Vec<(KtabK, KtabK)>) -> TableConst {
    TableConst { array, hash }
}

#[test]
fn recover_tnew_empty_table() {
    //   TNEW  0 0     (empty table -> slot 0; D = array-size hint)
    //   RET0  0 1.
    let insts = vec![ad(Opcode::Tnew, 0, 0), ad(Opcode::Ret0, 0, 1)];
    let module = module_with(
        insts,
        vec![named_local(0, "t", 0, 1)],
        Vec::new(),
        Vec::new(),
        1,
    );
    assert_eq!(emit(&module), "local t = {}");
}

/// `local t = {1, 2, 3}` - TDUP with an array-only template. The
/// template's array entries rebuild as positional
/// [`TableEntry::Array`] in source order.
#[test]
fn recover_tdup_array_only() {
    //   TDUP  0 0     (template at gc_consts[reverse(0)] -> slot 0)
    //   RET0  0 1.
    let insts = vec![ad(Opcode::Tdup, 0, 0), ad(Opcode::Ret0, 0, 1)];
    let module = module_with(
        insts,
        vec![named_local(0, "t", 0, 1)],
        vec![GcConst::Tab(table_const(
            vec![KtabK::Int(1), KtabK::Int(2), KtabK::Int(3)],
            Vec::new(),
        ))],
        Vec::new(),
        1,
    );
    assert_eq!(emit(&module), "local t = {1, 2, 3}");
}

/// `local t = {a = 1, b = 2}` - TDUP with a hash-only template.
/// Each string key becomes a [`TableEntry::HashStr`] rendering as
/// `key = value`.
#[test]
fn recover_tdup_hash_only() {
    let insts = vec![ad(Opcode::Tdup, 0, 0), ad(Opcode::Ret0, 0, 1)];
    let module = module_with(
        insts,
        vec![named_local(0, "t", 0, 1)],
        vec![GcConst::Tab(table_const(
            Vec::new(),
            vec![
                (KtabK::Str(b"a".to_vec()), KtabK::Int(1)),
                (KtabK::Str(b"b".to_vec()), KtabK::Int(2)),
            ],
        ))],
        Vec::new(),
        1,
    );
    assert_eq!(emit(&module), "local t = {a = 1, b = 2}");
}

/// `local t = {1, 2, x = 3}` - TDUP with both array and hash
/// parts. Array entries precede hash entries in the template
/// (LuaJIT always emits array-first regardless of source order).
#[test]
fn recover_tdup_mixed() {
    let insts = vec![ad(Opcode::Tdup, 0, 0), ad(Opcode::Ret0, 0, 1)];
    let module = module_with(
        insts,
        vec![named_local(0, "t", 0, 1)],
        vec![GcConst::Tab(table_const(
            vec![KtabK::Int(1), KtabK::Int(2)],
            vec![(KtabK::Str(b"x".to_vec()), KtabK::Int(3))],
        ))],
        Vec::new(),
        1,
    );
    assert_eq!(emit(&module), "local t = {1, 2, x = 3}");
}

/// TDUP template with non-string keys renders as `[key] = value`
/// (Lua syntax for arbitrary hash keys). This is uncommon in
/// practice - LuaJIT only emits a TDUP for constant keys - but
/// the recovery handles it.
#[test]
fn recover_tdup_int_key_renders_with_brackets() {
    let insts = vec![ad(Opcode::Tdup, 0, 0), ad(Opcode::Ret0, 0, 1)];
    let module = module_with(
        insts,
        vec![named_local(0, "t", 0, 1)],
        vec![GcConst::Tab(table_const(
            Vec::new(),
            vec![(KtabK::Int(1), KtabK::Str(b"v".to_vec()))],
        ))],
        Vec::new(),
        1,
    );
    assert_eq!(emit(&module), "local t = {[1] = \"v\"}");
}

/// LuaJIT stores the array part with a leading `Nil` sentinel at
/// index 0 (Lua's array indexing is 1-based). The recovery drops
/// it - without this skip, `{1, 2, 3}` would round-trip as
/// `{nil, 1, 2, 3}` (matching the raw template).
#[test]
fn recover_tdup_array_skips_leading_nil_sentinel() {
    let insts = vec![ad(Opcode::Tdup, 0, 0), ad(Opcode::Ret0, 0, 1)];
    // Simulate LuaJIT's actual template for `{1, 2, 3}`:
    // array = [Nil, 1, 2, 3] (sentinel + values).
    let module = module_with(
        insts,
        vec![named_local(0, "t", 0, 1)],
        vec![GcConst::Tab(table_const(
            vec![KtabK::Nil, KtabK::Int(1), KtabK::Int(2), KtabK::Int(3)],
            Vec::new(),
        ))],
        Vec::new(),
        1,
    );
    assert_eq!(emit(&module), "local t = {1, 2, 3}");
}

/// A template array with no leading Nil (synthetic bytecode)
/// passes through verbatim - the recovery is defensive about
/// the sentinel.
#[test]
fn recover_tdup_array_no_sentinel_passes_through() {
    let insts = vec![ad(Opcode::Tdup, 0, 0), ad(Opcode::Ret0, 0, 1)];
    // Synthetic: array = [1, 2] - no leading Nil. LuaJIT never
    // produces this, but we handle it without panicking.
    let module = module_with(
        insts,
        vec![named_local(0, "t", 0, 1)],
        vec![GcConst::Tab(table_const(
            vec![KtabK::Int(1), KtabK::Int(2)],
            Vec::new(),
        ))],
        Vec::new(),
        1,
    );
    assert_eq!(emit(&module), "local t = {1, 2}");
}

/// LuaJIT stores hash entries in internal hash-bucket order, not
/// source order. The recovery sorts string-keyed entries
/// alphabetically so `{a=1, b=2}` round-trips cleanly even when
/// the template stores them as `[(b,2), (a,1)]` (which is what
/// LuaJIT emits for this source on this version).
#[test]
fn recover_tdup_hash_canonicalizes_alphabetically() {
    let insts = vec![ad(Opcode::Tdup, 0, 0), ad(Opcode::Ret0, 0, 1)];
    // Simulate the template LuaJIT actually emits for
    // `{a = 1, b = 2}`: hash = [(b, 2), (a, 1)] (reverse source).
    let module = module_with(
        insts,
        vec![named_local(0, "t", 0, 1)],
        vec![GcConst::Tab(table_const(
            Vec::new(),
            vec![
                (KtabK::Str(b"b".to_vec()), KtabK::Int(2)),
                (KtabK::Str(b"a".to_vec()), KtabK::Int(1)),
            ],
        ))],
        Vec::new(),
        1,
    );
    assert_eq!(emit(&module), "local t = {a = 1, b = 2}");
}

/// Hash canonicalization keeps string keys grouped before
/// non-string keys. Mixed-key tables are rare but the recovery
/// produces deterministic output for them.
#[test]
fn recover_tdup_hash_mixed_key_types_string_first() {
    let insts = vec![ad(Opcode::Tdup, 0, 0), ad(Opcode::Ret0, 0, 1)];
    let module = module_with(
        insts,
        vec![named_local(0, "t", 0, 1)],
        vec![GcConst::Tab(table_const(
            Vec::new(),
            vec![
                (KtabK::Int(2), KtabK::Str(b"two".to_vec())),
                (KtabK::Str(b"b".to_vec()), KtabK::Int(2)),
                (KtabK::Int(1), KtabK::Str(b"one".to_vec())),
                (KtabK::Str(b"a".to_vec()), KtabK::Int(1)),
            ],
        ))],
        Vec::new(),
        1,
    );
    // Strings alphabetically first, then ints numerically.
    assert_eq!(
        emit(&module),
        "local t = {a = 1, b = 2, [1] = \"one\", [2] = \"two\"}"
    );
}

/// TDUP template with mixed-typed values (Nil/True/False/Int/Num/Str)
/// all rebuild through `ktabk_to_expr`. Spot-check a couple.
#[test]
fn recover_tdup_mixed_value_types() {
    let insts = vec![ad(Opcode::Tdup, 0, 0), ad(Opcode::Ret0, 0, 1)];
    let module = module_with(
        insts,
        vec![named_local(0, "t", 0, 1)],
        vec![GcConst::Tab(table_const(
            vec![
                KtabK::True,
                KtabK::Nil,
                KtabK::Num((1.5_f64).to_bits()),
                KtabK::Str(b"s".to_vec()),
            ],
            Vec::new(),
        ))],
        Vec::new(),
        1,
    );
    assert_eq!(emit(&module), "local t = {true, nil, 1.5, \"s\"}");
}

/// TDUP with a non-table GC constant (e.g. a string) bails with
/// NotImplemented. This shouldn't happen in valid bytecode but
/// the recovery is defensive.
#[test]
fn recover_tdup_non_table_const_not_supported() {
    let insts = vec![ad(Opcode::Tdup, 0, 0), ad(Opcode::Ret0, 0, 1)];
    let module = module_with(
        insts,
        vec![named_local(0, "t", 0, 1)],
        vec![GcConst::Str(b"oops".to_vec())],
        Vec::new(),
        1,
    );
    let result = emit_module(&module);
    assert!(
        matches!(result, Err(DecompilerError::NotImplemented)),
        "expected NotImplemented for TDUP with non-table GC const, got {:?}",
        result
    );
}

/// `local t = {}; t.x = 1` - TSETS into an empty table. A is the
/// value register, B is the table register, C is the reverse-indexed
/// string-key constant. Note the operand order: TSET* has
/// A = value, B = table, C = key - reversed from TGET*.
#[test]
fn recover_tsets_field_write() {
    //   TNEW   0 0    (empty table -> slot 0)
    //   KSHORT 1 1    (value 1 -> slot 1)
    //   TSETS  1 0 0  (R[0][KSTR[reverse(0)]] = R[1], i.e. t.x = 1)
    //   RET0   0 1.
    let insts = vec![
        ad(Opcode::Tnew, 0, 0),
        ad(Opcode::Kshort, 1, 1),
        abc(Opcode::Tsets, 1, 0, 0),
        ad(Opcode::Ret0, 0, 1),
    ];
    let module = module_with(
        insts,
        vec![named_local(0, "t", 0, 3)],
        vec![GcConst::Str(b"x".to_vec())],
        Vec::new(),
        2,
    );
    assert_eq!(emit(&module), "local t = {}\nt.x = 1");
}

/// `local t = {}; t[0] = 42` - TSETB with a literal int key.
/// TSETB A B C: R[B][C] = R[A]. C is an inline integer literal
/// key, NOT a register.
#[test]
fn recover_tsetb_int_key_write() {
    //   TNEW   0 0    (empty table -> slot 0)
    //   KSHORT 1 42   (value 42 -> slot 1)
    //   TSETB  1 0 0  (R[0][0] = R[1], i.e. t[0] = 42)
    //   RET0   0 1.
    let insts = vec![
        ad(Opcode::Tnew, 0, 0),
        ad(Opcode::Kshort, 1, 42),
        abc(Opcode::Tsetb, 1, 0, 0),
        ad(Opcode::Ret0, 0, 1),
    ];
    let module = module_with(
        insts,
        vec![named_local(0, "t", 0, 3)],
        Vec::new(),
        Vec::new(),
        2,
    );
    assert_eq!(emit(&module), "local t = {}\nt[0] = 42");
}

/// `local t = {}; t[k] = v` - TSETV with a register key. Both B
/// (table) and C (key) are registers.
#[test]
fn recover_tsetv_register_key_write() {
    //   TNEW   0 0     (empty table -> slot 0)
    //   GGET   1 0     (k -> slot 1)
    //   GGET   2 1     (v -> slot 2)
    //   TSETV  2 0 1   (R[0][R[1]] = R[2], i.e. t[k] = v)
    //   RET0   0 1.
    let insts = vec![
        ad(Opcode::Tnew, 0, 0),
        ad(Opcode::Gget, 1, 0),
        ad(Opcode::Gget, 2, 1),
        abc(Opcode::Tsetv, 2, 0, 1),
        ad(Opcode::Ret0, 0, 1),
    ];
    let module = module_with(
        insts,
        vec![named_local(0, "t", 0, 4)],
        vec![GcConst::Str(b"v".to_vec()), GcConst::Str(b"k".to_vec())],
        Vec::new(),
        3,
    );
    assert_eq!(emit(&module), "local t = {}\nt[k] = v");
}

/// TSETS with a non-string GC constant (e.g. an FFI cdata) bails
/// with NotImplemented.
#[test]
fn recover_tsets_non_string_key_not_supported() {
    // gc_consts = [Str(t), I64(0)]. TSETS C=0 -> reverse 0 ->
    // gc_consts[1] = I64 - non-string. The value and table slots
    // are populated; only the key resolution fails.
    let insts = vec![
        ad(Opcode::Tnew, 0, 0),
        ad(Opcode::Kshort, 1, 1),
        abc(Opcode::Tsets, 1, 0, 0),
        ad(Opcode::Ret0, 0, 1),
    ];
    let module = module_with(
        insts,
        Vec::new(),
        vec![GcConst::Str(b"t".to_vec()), GcConst::I64(0)],
        Vec::new(),
        2,
    );
    let result = emit_module(&module);
    assert!(
        matches!(result, Err(DecompilerError::NotImplemented)),
        "expected NotImplemented for TSETS with non-string key, got {:?}",
        result
    );
}

/// TSET* with an uninitialized value/table/key register bails
/// with NotImplemented via `lookup_operand`. Slot 0 (table) and
/// slot 1 (value) are never written before the TSET.
#[test]
fn recover_tset_uninitialized_slots_bail() {
    for op in [Opcode::Tsets, Opcode::Tsetv, Opcode::Tsetb] {
        let insts = vec![abc(op, 1, 0, 0), ad(Opcode::Ret0, 0, 1)];
        let module = module_with(insts, Vec::new(), Vec::new(), Vec::new(), 1);
        let result = emit_module(&module);
        assert!(
            matches!(result, Err(DecompilerError::NotImplemented)),
            "expected NotImplemented for {:?} with uninitialized slots, got {:?}",
            op,
            result
        );
    }
}

/// Direct AST test for TNEW: verifies the `Expr::Table` payload
/// is empty.
#[test]
fn recover_tnew_ast_shape() {
    let insts = vec![ad(Opcode::Tnew, 0, 0), ad(Opcode::Ret1, 0, 2)];
    let module = module_with(insts, Vec::new(), Vec::new(), Vec::new(), 1);
    let proto = module.main_proto();
    let cfg = Cfg::build(proto);
    let ast = recover(&module, 0, &cfg, true, None).expect("recover should succeed");
    assert_eq!(ast.len(), 1, "expected just [Return]");
    match &ast[0] {
        Stmt::Return(Some(expr)) => {
            assert_eq!(*expr, Expr::Table { entries: vec![] }, "return expr");
        }
        other => panic!("expected Return(Some(Table)), got {:?}", other),
    }
}

/// Direct AST test for TDUP: verifies the entries list shape for
/// a mixed array/hash template.
#[test]
fn recover_tdup_ast_shape() {
    let insts = vec![ad(Opcode::Tdup, 0, 0), ad(Opcode::Ret1, 0, 2)];
    let module = module_with(
        insts,
        Vec::new(),
        vec![GcConst::Tab(table_const(
            vec![KtabK::Int(1)],
            vec![(KtabK::Str(b"a".to_vec()), KtabK::Int(2))],
        ))],
        Vec::new(),
        1,
    );
    let proto = module.main_proto();
    let cfg = Cfg::build(proto);
    let ast = recover(&module, 0, &cfg, true, None).expect("recover should succeed");
    assert_eq!(ast.len(), 1, "expected just [Return]");
    match &ast[0] {
        Stmt::Return(Some(expr)) => {
            // Extract the inner Expr via Box's Deref.
            let inner: &Expr = expr;
            let expected = Expr::Table {
                entries: vec![
                    TableEntry::Array(Expr::Int(1)),
                    TableEntry::HashStr("a".to_string(), Expr::Int(2)),
                ],
            };
            assert_eq!(inner, &expected, "return expr");
        }
        other => panic!("expected Return(Some(Table)), got {:?}", other),
    }
}

/// Direct AST test for TSETS: verifies the `Stmt::TableSet`
/// payload (target = Field, value).
#[test]
fn recover_tsets_ast_shape() {
    let insts = vec![
        ad(Opcode::Tnew, 0, 0),
        ad(Opcode::Kshort, 1, 5),
        abc(Opcode::Tsets, 1, 0, 0),
        ad(Opcode::Ret0, 0, 1),
    ];
    let module = module_with(
        insts,
        Vec::new(),
        vec![GcConst::Str(b"k".to_vec())],
        Vec::new(),
        2,
    );
    let proto = module.main_proto();
    let cfg = Cfg::build(proto);
    let ast = recover(&module, 0, &cfg, true, None).expect("recover should succeed");
    assert_eq!(ast.len(), 1, "expected just [TableSet]");
    match &ast[0] {
        Stmt::TableSet { target, value } => {
            assert_eq!(
                *target,
                Expr::Field {
                    obj: Box::new(Expr::Table { entries: vec![] }),
                    name: "k".to_string(),
                },
                "target"
            );
            assert_eq!(*value, Expr::Int(5), "value");
        }
        other => panic!("expected TableSet, got {:?}", other),
    }
}

/// Build a `Module` with two protos: a child (the function body)
/// and the main chunk that references it via FNEW. The child
/// carries the given `child_insts`, `child_var_info`, and
/// `child_numparams`; the main carries `main_insts`,
/// `main_var_info`, and a single `GcConst::Child` marker in its
/// gc_consts (referenced by FNEW D=0).
fn module_with_child(
    child_insts: Vec<Instruction>,
    child_var_info: Vec<VarInfo>,
    child_numparams: u8,
    child_framesize: u8,
    main_insts: Vec<Instruction>,
    main_var_info: Vec<VarInfo>,
    main_framesize: u8,
) -> Module {
    // Child proto: no upvalues, no children of its own.
    let mut child_insts_full = vec![Instruction::synthetic_header(
        Opcode::Funcf,
        child_framesize,
    )];
    child_insts_full.extend(child_insts);
    let child = Proto {
        flags: 0,
        numparams: child_numparams,
        framesize: child_framesize,
        upvalues: Vec::<UpvalDesc>::new(),
        gc_consts: Vec::new(),
        num_consts: Vec::new(),
        insts: child_insts_full,
        debug: Some(DebugInfo {
            var_info: child_var_info,
            ..DebugInfo::default()
        }),
    };
    // Main proto: carries one GcConst::Child marker for the FNEW.
    let mut main_insts_full =
        vec![Instruction::synthetic_header(Opcode::Funcv, main_framesize)];
    main_insts_full.extend(main_insts);
    let main = Proto {
        flags: luadejit_core::ir::PROTO_CHILD,
        numparams: 0,
        framesize: main_framesize,
        upvalues: Vec::<UpvalDesc>::new(),
        gc_consts: vec![GcConst::Child],
        num_consts: Vec::new(),
        insts: main_insts_full,
        debug: Some(DebugInfo {
            var_info: main_var_info,
            ..DebugInfo::default()
        }),
    };
    Module {
        header: ModuleHeader {
            flags: FLAG_FR2,
            chunkname: None,
        },
        protos: vec![child, main],
    }
}

/// Build a VarInfo record for a parameter named `name` at `slot`.
fn param_local(slot: u8, name: &str) -> VarInfo {
    VarInfo {
        kind: VarKind::Name,
        name: Some(name.to_string()),
        is_parameter: true,
        slot,
        scope_begin: 0,
        scope_end: 100,
    }
}

// ---- LEN (length operator) ---------------------------------------

#[test]
fn emit_len_on_global() {
    // `local x = #t`:
    //   GGET  0 0    ; t -> slot 0
    //   LEN   0 0    ; R[0] = #R[0]
    //   RET0  0 1.
    let insts = vec![
        ad(Opcode::Gget, 0, 0),
        ad(Opcode::Len, 0, 0),
        ad(Opcode::Ret0, 0, 1),
    ];
    let module = module_with(
        insts,
        vec![named_local(0, "x", 1, 2)],
        vec![GcConst::Str(b"t".to_vec())],
        Vec::new(),
        1,
    );
    assert_eq!(emit(&module), "local x = #t");
}

#[test]
fn recover_len_ast_shape() {
    let insts = vec![
        ad(Opcode::Gget, 0, 0),
        ad(Opcode::Len, 1, 0), // LEN writes to slot 1
        ad(Opcode::Ret1, 1, 2),
    ];
    let module = module_with(
        insts,
        Vec::new(),
        vec![GcConst::Str(b"t".to_vec())],
        Vec::new(),
        2,
    );
    let cfg = Cfg::build(module.main_proto());
    let ast = recover(&module, 0, &cfg, true, None).expect("recover should succeed");
    assert_eq!(ast.len(), 1, "expected just [Return]");
    match &ast[0] {
        Stmt::Return(Some(expr)) => {
            assert_eq!(*expr, Expr::Len(Box::new(Expr::Global("t".to_string()))));
        }
        other => panic!("expected Return(Some(Len)), got {:?}", other),
    }
}

// ---- GSET (global assignment) ------------------------------------

#[test]
fn emit_gset_simple() {
    // `x = 42`:
    //   KSHORT 0 42
    //   GSET   0 0
    //   RET0   0 1.
    let insts = vec![
        ad(Opcode::Kshort, 0, 42),
        ad(Opcode::Gset, 0, 0),
        ad(Opcode::Ret0, 0, 1),
    ];
    let module = module_with(
        insts,
        Vec::new(),
        vec![GcConst::Str(b"x".to_vec())],
        Vec::new(),
        1,
    );
    assert_eq!(emit(&module), "x = 42");
}

#[test]
fn recover_gset_ast_shape() {
    let insts = vec![
        ad(Opcode::Kshort, 0, 7),
        ad(Opcode::Gset, 0, 0),
        ad(Opcode::Ret0, 0, 1),
    ];
    let module = module_with(
        insts,
        Vec::new(),
        vec![GcConst::Str(b"y".to_vec())],
        Vec::new(),
        1,
    );
    let cfg = Cfg::build(module.main_proto());
    let ast = recover(&module, 0, &cfg, true, None).expect("recover should succeed");
    assert_eq!(ast.len(), 1, "expected just [Assign]");
    match &ast[0] {
        Stmt::Assign { name, expr } => {
            assert_eq!(name, "y");
            assert_eq!(*expr, Expr::Int(7));
        }
        other => panic!("expected Assign, got {:?}", other),
    }
}

// ---- FNEW (function literals) ------------------------------------

#[test]
fn emit_fnew_simple() {
    // `local f = function() return 1 end`:
    let module = module_with_child(
        // child: KSHORT 0 1; RET1 0 2.
        vec![ad(Opcode::Kshort, 0, 1), ad(Opcode::Ret1, 0, 2)],
        Vec::new(),
        0, // numparams
        1, // framesize
        // main: FNEW 0 0; RET0 0 1.
        vec![ad(Opcode::Fnew, 0, 0), ad(Opcode::Ret0, 0, 1)],
        vec![named_local(0, "f", 0, 1)],
        1,
    );
    assert_eq!(emit(&module), "local f = function()\n    return 1\nend");
}

#[test]
fn emit_fnew_with_param() {
    // `local f = function(x) return x end`:
    let module = module_with_child(
        // child: RET1 0 2 (returns param x at slot 0).
        vec![ad(Opcode::Ret1, 0, 2)],
        vec![param_local(0, "x")],
        1, // numparams
        1, // framesize
        // main: FNEW 0 0; RET0 0 1.
        vec![ad(Opcode::Fnew, 0, 0), ad(Opcode::Ret0, 0, 1)],
        vec![named_local(0, "f", 0, 1)],
        1,
    );
    assert_eq!(emit(&module), "local f = function(x)\n    return x\nend");
}

#[test]
fn emit_fnew_two_params() {
    // `local f = function(x, y) return x + y end`:
    let module = module_with_child(
        // child: ADDVV 2 0 1; RET1 2 2.
        vec![abc(Opcode::Addvv, 2, 0, 1), ad(Opcode::Ret1, 2, 2)],
        vec![param_local(0, "x"), param_local(1, "y")],
        2, // numparams
        3, // framesize
        // main: FNEW 0 0; RET0 0 1.
        vec![ad(Opcode::Fnew, 0, 0), ad(Opcode::Ret0, 0, 1)],
        vec![named_local(0, "f", 0, 1)],
        1,
    );
    assert_eq!(
        emit(&module),
        "local f = function(x, y)\n    return x + y\nend"
    );
}

#[test]
fn recover_fnew_ast_shape() {
    // Verify the Expr::Function payload directly.
    let module = module_with_child(
        vec![ad(Opcode::Kshort, 0, 42), ad(Opcode::Ret1, 0, 2)],
        Vec::new(),
        0,
        1,
        vec![ad(Opcode::Fnew, 0, 0), ad(Opcode::Ret0, 0, 1)],
        vec![named_local(0, "f", 0, 1)],
        1,
    );
    let cfg = Cfg::build(module.main_proto());
    let ast = recover(&module, 1, &cfg, true, None).expect("recover should succeed");
    assert_eq!(ast.len(), 1, "expected just [LocalDecl]");
    match &ast[0] {
        Stmt::LocalDecl { name, expr } => {
            assert_eq!(name, "f");
            match expr {
                Expr::Function { params, body } => {
                    assert!(params.is_empty(), "expected no params");
                    assert_eq!(body.len(), 1, "expected one body stmt");
                    match &body[0] {
                        Stmt::Return(Some(expr)) => {
                            assert_eq!(*expr, Expr::Int(42));
                        }
                        other => panic!("expected Return(Some(42)), got {:?}", other),
                    }
                }
                other => panic!("expected Function, got {:?}", other),
            }
        }
        other => panic!("expected LocalDecl, got {:?}", other),
    }
}

#[test]
fn recover_fnew_bails_on_closed_upvalue() {
    let mut module = module_with_child(
        vec![ad(Opcode::Ret0, 0, 1)],
        Vec::new(),
        0,
        1,
        vec![ad(Opcode::Fnew, 0, 0), ad(Opcode::Ret0, 0, 1)],
        vec![named_local(0, "f", 0, 1)],
        1,
    );
    // Inject a closed upvalue (LOCAL bit clear) at parent
    // upvalue index 0.
    module.protos[0].upvalues.push(UpvalDesc { raw: 0x0000 });
    let cfg = Cfg::build(module.main_proto());
    let result = recover(&module, 1, &cfg, true, None);
    assert!(
        matches!(result, Err(DecompilerError::NotImplemented)),
        "expected NotImplemented for closed upvalue, got {:?}",
        result
    );
}

#[test]
fn recover_fnew_bails_on_open_upvalue_unresolvable_slot() {
    // An OPEN upvalue (parent register) whose parent slot has no
    // recorded expression at FNEW time bails - the captured
    // variable's name can't be recovered. Here the main proto's
    // slot 0 is never written before the FNEW that consumes it.
    let mut module = module_with_child(
        vec![ad(Opcode::Ret0, 0, 1)],
        Vec::new(),
        0,
        1,
        vec![ad(Opcode::Fnew, 0, 0), ad(Opcode::Ret0, 0, 1)],
        vec![named_local(0, "f", 0, 1)],
        1,
    );
    // Inject an open upvalue (LOCAL bit set) at parent slot 0.
    module.protos[0].upvalues.push(UpvalDesc { raw: 0x8000 });
    let cfg = Cfg::build(module.main_proto());
    let result = recover(&module, 1, &cfg, true, None);
    assert!(
        matches!(result, Err(DecompilerError::NotImplemented)),
        "expected NotImplemented for unresolvable open upvalue, got {:?}",
        result
    );
}

#[test]
fn recover_fnew_bails_on_nested_children() {
    // A module where the child proto has its own Child marker -
    // the simple-case resolution formula doesn't apply.
    let mut module = module_with_child(
        vec![ad(Opcode::Ret0, 0, 1)],
        Vec::new(),
        0,
        1,
        vec![ad(Opcode::Fnew, 0, 0), ad(Opcode::Ret0, 0, 1)],
        vec![named_local(0, "f", 0, 1)],
        1,
    );
    module.protos[0].gc_consts.push(GcConst::Child);
    let cfg = Cfg::build(module.main_proto());
    let result = recover(&module, 1, &cfg, true, None);
    assert!(
        matches!(result, Err(DecompilerError::NotImplemented)),
        "expected NotImplemented for nested children, got {:?}",
        result
    );
}

#[test]
fn recover_fnew_bails_on_non_child_gc() {
    // FNEW whose gc_const isn't a Child marker -> NotImplemented.
    let module = module_with(
        vec![ad(Opcode::Fnew, 0, 0), ad(Opcode::Ret0, 0, 1)],
        vec![named_local(0, "f", 0, 1)],
        vec![GcConst::Str(b"not_a_child".to_vec())], // wrong type
        Vec::new(),
        1,
    );
    let cfg = Cfg::build(module.main_proto());
    let result = recover(&module, 0, &cfg, true, None);
    assert!(
        matches!(result, Err(DecompilerError::NotImplemented)),
        "expected NotImplemented for non-Child gc_const, got {:?}",
        result
    );
}

fn module_with_upvalue_child(
    child_insts: Vec<Instruction>,
    child_upvalues: Vec<UpvalDesc>,
    child_num_consts: Vec<NumConst>,
    child_gc_consts: Vec<GcConst>,
    child_framesize: u8,
    main_insts: Vec<Instruction>,
    main_var_info: Vec<VarInfo>,
    main_gc_consts: Vec<GcConst>,
    main_framesize: u8,
) -> Module {
    let mut child_insts_full = vec![Instruction::synthetic_header(
        Opcode::Funcf,
        child_framesize,
    )];
    child_insts_full.extend(child_insts);
    let child = Proto {
        flags: 0,
        numparams: 0,
        framesize: child_framesize,
        upvalues: child_upvalues,
        gc_consts: child_gc_consts,
        num_consts: child_num_consts,
        insts: child_insts_full,
        debug: Some(DebugInfo::default()),
    };
    let mut main_insts_full =
        vec![Instruction::synthetic_header(Opcode::Funcv, main_framesize)];
    main_insts_full.extend(main_insts);
    let main = Proto {
        flags: luadejit_core::ir::PROTO_CHILD,
        numparams: 0,
        framesize: main_framesize,
        upvalues: Vec::<UpvalDesc>::new(),
        gc_consts: main_gc_consts,
        num_consts: Vec::new(),
        insts: main_insts_full,
        debug: Some(DebugInfo {
            var_info: main_var_info,
            ..DebugInfo::default()
        }),
    };
    Module {
        header: ModuleHeader {
            flags: FLAG_FR2,
            chunkname: None,
        },
        protos: vec![child, main],
    }
}

// ---- resolve_upvalue_names (resolver unit tests) -----------------

#[test]
fn resolve_upvalue_names_open_from_var_and_global() {
    // Open upvalue index 0 -> parent slot 0 holds Var("x");
    // open upvalue index 1 -> parent slot 1 holds Global("g").
    let mut slots: HashMap<u8, Expr> = HashMap::new();
    slots.insert(0, Expr::Var("x".to_string()));
    slots.insert(1, Expr::Global("g".to_string()));
    let uvs = vec![
        UpvalDesc { raw: 0x8000 }, // open (LOCAL bit set), index 0
        UpvalDesc { raw: 0x8001 }, // open, index 1
    ];
    let names = resolve_upvalue_names(&slots, None, &uvs).expect("should resolve");
    assert_eq!(names, vec!["x".to_string(), "g".to_string()]);
}

#[test]
fn resolve_upvalue_names_closed_uses_parent_names() {
    // Closed upvalue (LOCAL bit clear) at parent upvalue index 0.
    let slots: HashMap<u8, Expr> = HashMap::new();
    let parent_names = vec!["captured".to_string()];
    let uvs = vec![UpvalDesc { raw: 0x0000 }]; // closed, index 0
    let names =
        resolve_upvalue_names(&slots, Some(&parent_names), &uvs).expect("should resolve");
    assert_eq!(names, vec!["captured".to_string()]);
}

#[test]
fn resolve_upvalue_names_closed_bails_without_parent_names() {
    let slots: HashMap<u8, Expr> = HashMap::new();
    let uvs = vec![UpvalDesc { raw: 0x0000 }];
    let result = resolve_upvalue_names(&slots, None, &uvs);
    assert!(
        matches!(result, Err(DecompilerError::NotImplemented)),
        "expected NotImplemented, got {:?}",
        result
    );
}

#[test]
fn resolve_upvalue_names_open_bails_on_unnamed_slot() {
    // Open upvalue whose parent slot holds an unnamed temp (Int)
    // -> can't recover a source identifier -> bail.
    let mut slots: HashMap<u8, Expr> = HashMap::new();
    slots.insert(0, Expr::Int(5));
    let uvs = vec![UpvalDesc { raw: 0x8000 }];
    let result = resolve_upvalue_names(&slots, None, &uvs);
    assert!(
        matches!(result, Err(DecompilerError::NotImplemented)),
        "expected NotImplemented, got {:?}",
        result
    );
}

#[test]
fn resolve_upvalue_names_open_bails_on_missing_slot() {
    // Open upvalue whose parent slot is entirely unpopulated.
    let slots: HashMap<u8, Expr> = HashMap::new();
    let uvs = vec![UpvalDesc { raw: 0x8000 }];
    let result = resolve_upvalue_names(&slots, None, &uvs);
    assert!(
        matches!(result, Err(DecompilerError::NotImplemented)),
        "expected NotImplemented, got {:?}",
        result
    );
}

#[test]
fn resolve_upvalue_names_empty_for_no_upvalues() {
    // A child with no upvalues -> empty names vec (the FNEW handler
    // passes None in this case, but the resolver handles [] too).
    let slots: HashMap<u8, Expr> = HashMap::new();
    let names = resolve_upvalue_names(&slots, None, &[]).expect("should resolve");
    assert!(names.is_empty());
}

// ---- UGET / USETV / UCLO end-to-end -------------------------------

#[test]
fn emit_upvalue_read() {
    // `local x = 42; local f = function() return x end`:
    //   child: UGET 0 0; RET1 0 2.
    //   main:  KSHORT 0 42; FNEW 1 0; UCLO 0; RET0 0 1.
    let module = module_with_upvalue_child(
        vec![ad(Opcode::Uget, 0, 0), ad(Opcode::Ret1, 0, 2)],
        vec![UpvalDesc { raw: 0x8000 }], // open, parent slot 0
        Vec::new(),
        Vec::new(),
        1,
        vec![
            ad(Opcode::Kshort, 0, 42),
            ad(Opcode::Fnew, 1, 0),
            ad(Opcode::Uclo, 0, 0), // no-op; D ignored by CFG
            ad(Opcode::Ret0, 0, 1),
        ],
        vec![named_local(0, "x", 0, 3), named_local(1, "f", 1, 3)],
        vec![GcConst::Child],
        2,
    );
    assert_eq!(
        emit(&module),
        "local x = 42\nlocal f = function()\n    return x\nend"
    );
}

#[test]
fn emit_upvalue_write() {
    // `local x = 42; local f = function() x = x + 1; return x end`:
    //   child: UGET 0 0; ADDVN 0 0 0; USETV 0 0; UGET 0 0; RET1 0 2.
    //   main:  KSHORT 0 42; FNEW 1 0; UCLO 0; RET0 0 1.
    let module = module_with_upvalue_child(
        vec![
            ad(Opcode::Uget, 0, 0),
            abc(Opcode::Addvn, 0, 0, 0), // R[0] = R[0] + num_consts[0]
            ad(Opcode::Usetv, 0, 0),
            ad(Opcode::Uget, 0, 0),
            ad(Opcode::Ret1, 0, 2),
        ],
        vec![UpvalDesc { raw: 0x8000 }],
        vec![NumConst::Int(1)], // num_consts[0] = 1
        Vec::new(),
        1,
        vec![
            ad(Opcode::Kshort, 0, 42),
            ad(Opcode::Fnew, 1, 0),
            ad(Opcode::Uclo, 0, 0),
            ad(Opcode::Ret0, 0, 1),
        ],
        vec![named_local(0, "x", 0, 3), named_local(1, "f", 1, 3)],
        vec![GcConst::Child],
        2,
    );
    assert_eq!(
        emit(&module),
        "local x = 42\nlocal f = function()\n    x = x + 1\n    return x\nend"
    );
}

#[test]
fn emit_upvalue_multi() {
    // `local x = 1; local y = 2; local f = function() return x + y end`:
    //   child: UGET 0 0; UGET 1 1; ADDVV 0 0 1; RET1 0 2.
    let module = module_with_upvalue_child(
        vec![
            ad(Opcode::Uget, 0, 0),
            ad(Opcode::Uget, 1, 1),
            abc(Opcode::Addvv, 0, 0, 1),
            ad(Opcode::Ret1, 0, 2),
        ],
        vec![
            UpvalDesc { raw: 0x8000 }, // open, parent slot 0 (x)
            UpvalDesc { raw: 0x8001 }, // open, parent slot 1 (y)
        ],
        Vec::new(),
        Vec::new(),
        2,
        vec![
            ad(Opcode::Kshort, 0, 1),
            ad(Opcode::Kshort, 1, 2),
            ad(Opcode::Fnew, 2, 0),
            ad(Opcode::Uclo, 0, 0),
            ad(Opcode::Ret0, 0, 1),
        ],
        vec![
            named_local(0, "x", 0, 4),
            named_local(1, "y", 1, 4),
            named_local(2, "f", 2, 4),
        ],
        vec![GcConst::Child],
        3,
    );
    assert_eq!(
        emit(&module),
        "local x = 1\nlocal y = 2\nlocal f = function()\n    return x + y\nend"
    );
}

// ---- UCLO as a no-op ----------------------------------------------

#[test]
fn emit_uclo_is_noop_in_main() {
    // UCLO in the main proto (after FNEW) must not emit a
    // statement. The output is just the two locals; no stray
    // line from UCLO. (Covered end-to-end by emit_upvalue_read,
    // but this pins the no-op behavior directly: drop the child
    // entirely and confirm UCLO produces no output.)
    let module = module_with(
        vec![
            ad(Opcode::Kshort, 0, 7),
            ad(Opcode::Uclo, 0, 0),
            ad(Opcode::Ret1, 0, 2),
        ],
        vec![named_local(0, "x", 0, 2)],
        Vec::new(),
        Vec::new(),
        1,
    );
    assert_eq!(emit(&module), "local x = 7\nreturn x");
}

// ---- USETS / USETN / USETP (constant upvalue writes) --------------

#[test]
fn emit_upvalue_usetn() {
    // `local x; local f = function() x = 5 end`:
    //   child: USETN 0 0; RET0 0 1.   (upvalue[0] = num_consts[0])
    let module = module_with_upvalue_child(
        vec![ad(Opcode::Usetn, 0, 0), ad(Opcode::Ret0, 0, 1)],
        vec![UpvalDesc { raw: 0x8000 }],
        vec![NumConst::Int(5)],
        Vec::new(),
        1,
        vec![
            ad(Opcode::Kpri, 0, 0), // local x = nil
            ad(Opcode::Fnew, 1, 0),
            ad(Opcode::Uclo, 0, 0),
            ad(Opcode::Ret0, 0, 1),
        ],
        vec![named_local(0, "x", 0, 3), named_local(1, "f", 1, 3)],
        vec![GcConst::Child],
        2,
    );
    assert_eq!(
        emit(&module),
        "local x = nil\nlocal f = function()\n    x = 5\nend"
    );
}

#[test]
fn emit_upvalue_usets() {
    // `local x; local f = function() x = "hi" end`:
    //   child: USETS 0 0; RET0 0 1.   (upvalue[0] = gc_consts[reverse(0)])
    let module = module_with_upvalue_child(
        vec![ad(Opcode::Usets, 0, 0), ad(Opcode::Ret0, 0, 1)],
        vec![UpvalDesc { raw: 0x8000 }],
        Vec::new(),
        vec![GcConst::Str(b"hi".to_vec())],
        1,
        vec![
            ad(Opcode::Kpri, 0, 0),
            ad(Opcode::Fnew, 1, 0),
            ad(Opcode::Uclo, 0, 0),
            ad(Opcode::Ret0, 0, 1),
        ],
        vec![named_local(0, "x", 0, 3), named_local(1, "f", 1, 3)],
        vec![GcConst::Child],
        2,
    );
    assert_eq!(
        emit(&module),
        "local x = nil\nlocal f = function()\n    x = \"hi\"\nend"
    );
}

#[test]
fn emit_upvalue_usetp() {
    // `local x; local f = function() x = true end`:
    //   child: USETP 0 2; RET0 0 1.   (upvalue[0] = KPRI[2] = true)
    let module = module_with_upvalue_child(
        vec![ad(Opcode::Usetp, 0, 2), ad(Opcode::Ret0, 0, 1)],
        vec![UpvalDesc { raw: 0x8000 }],
        Vec::new(),
        Vec::new(),
        1,
        vec![
            ad(Opcode::Kpri, 0, 0),
            ad(Opcode::Fnew, 1, 0),
            ad(Opcode::Uclo, 0, 0),
            ad(Opcode::Ret0, 0, 1),
        ],
        vec![named_local(0, "x", 0, 3), named_local(1, "f", 1, 3)],
        vec![GcConst::Child],
        2,
    );
    assert_eq!(
        emit(&module),
        "local x = nil\nlocal f = function()\n    x = true\nend"
    );
}

#[test]
fn emit_upvalue_usetp_nil() {
    // USETP 0 0 -> upvalue[0] = nil.
    let module = module_with_upvalue_child(
        vec![ad(Opcode::Usetp, 0, 0), ad(Opcode::Ret0, 0, 1)],
        vec![UpvalDesc { raw: 0x8000 }],
        Vec::new(),
        Vec::new(),
        1,
        vec![
            ad(Opcode::Kpri, 0, 0),
            ad(Opcode::Fnew, 1, 0),
            ad(Opcode::Uclo, 0, 0),
            ad(Opcode::Ret0, 0, 1),
        ],
        vec![named_local(0, "x", 0, 3), named_local(1, "f", 1, 3)],
        vec![GcConst::Child],
        2,
    );
    assert_eq!(
        emit(&module),
        "local x = nil\nlocal f = function()\n    x = nil\nend"
    );
}

// ---- UGET/USETx without resolved upvalue names bail ---------------

#[test]
fn emit_uget_bails_without_upvalue_names() {
    // A UGET at the main-proto level (ctx.upvalue_names is None)
    // must bail - the main proto has no upvalues.
    let module = module_with(
        vec![ad(Opcode::Uget, 0, 0), ad(Opcode::Ret1, 0, 2)],
        Vec::new(),
        Vec::new(),
        Vec::new(),
        1,
    );
    let cfg = Cfg::build(module.main_proto());
    let result = recover(&module, 0, &cfg, true, None);
    assert!(
        matches!(result, Err(DecompilerError::NotImplemented)),
        "expected NotImplemented for UGET without upvalue names, got {:?}",
        result
    );
}

// ---- extract_params (parameter-name extraction) ------------------

#[test]
fn extract_params_uses_debug_names() {
    // A proto with 2 params named "x" and "y" at slots 0 and 1.
    let proto = Proto {
        flags: 0,
        numparams: 2,
        framesize: 2,
        upvalues: Vec::new(),
        gc_consts: Vec::new(),
        num_consts: Vec::new(),
        insts: Vec::new(),
        debug: Some(DebugInfo {
            var_info: vec![param_local(0, "x"), param_local(1, "y")],
            ..DebugInfo::default()
        }),
    };
    let params = extract_params(&proto);
    assert_eq!(params, vec!["x".to_string(), "y".to_string()]);
}

#[test]
fn extract_params_synthetic_when_no_debug() {
    let proto = Proto {
        flags: 0,
        numparams: 2,
        framesize: 2,
        upvalues: Vec::new(),
        gc_consts: Vec::new(),
        num_consts: Vec::new(),
        insts: Vec::new(),
        debug: None,
    };
    let params = extract_params(&proto);
    assert_eq!(params, vec!["_1".to_string(), "_2".to_string()]);
}

#[test]
fn extract_params_empty_for_zero_params() {
    let proto = Proto {
        flags: 0,
        numparams: 0,
        framesize: 0,
        upvalues: Vec::new(),
        gc_consts: Vec::new(),
        num_consts: Vec::new(),
        insts: Vec::new(),
        debug: None,
    };
    let params = extract_params(&proto);
    assert!(params.is_empty());
}

/// Helper: build a module whose main proto loads global `f` and
/// calls it with the given B/C operands, then RET0. Used by the
/// route_call_result unit tests.
fn module_with_call(b: u8, c: u8, var_info: Vec<VarInfo>, framesize: u8) -> Module {
    let insts = vec![
        ad(Opcode::Gget, 0, 0),
        abc(Opcode::Call, 0, b, c),
        ad(Opcode::Ret0, 0, 1),
    ];
    module_with(
        insts,
        var_info,
        vec![GcConst::Str(b"f".to_vec())],
        Vec::new(),
        framesize,
    )
}

// ---- CALL with B > 2 (multi-result local declaration) -----------

/// `local a, b, c = f()` - three result slots, all declarations.
/// Verifies the Stmt::LocalDeclMulti payload directly.
#[test]
fn recover_call_multi_result_local_decl_multi() {
    //   GGET 0 0      ; f at slot 0
    //   CALL  0 4 1   ; A=0, B=4 (3 results), C=1 (0 args)
    //   RET0  0 1.
    let module = module_with_call(
        4,
        1,
        vec![
            named_local(0, "a", 1, 2),
            named_local(1, "b", 1, 2),
            named_local(2, "c", 1, 2),
        ],
        3,
    );
    let cfg = Cfg::build(module.main_proto());
    let ast = recover(&module, 0, &cfg, true, None).expect("recover should succeed");
    assert_eq!(ast.len(), 1, "expected just [LocalDeclMulti]");
    match &ast[0] {
        Stmt::LocalDeclMulti { names, expr } => {
            assert_eq!(
                names,
                &vec!["a".to_string(), "b".to_string(), "c".to_string()]
            );
            match expr {
                Expr::Call { func, args } => {
                    assert_eq!(**func, Expr::Global("f".to_string()));
                    assert!(args.is_empty(), "expected no args (C=1)");
                }
                other => panic!("expected Call expr, got {:?}", other),
            }
        }
        other => panic!("expected LocalDeclMulti, got {:?}", other),
    }
}

/// `local a, b, c = f()` end-to-end: the emitted source.
#[test]
fn emit_call_multi_result_local_decl_multi() {
    let module = module_with_call(
        4,
        1,
        vec![
            named_local(0, "a", 1, 2),
            named_local(1, "b", 1, 2),
            named_local(2, "c", 1, 2),
        ],
        3,
    );
    assert_eq!(emit(&module), "local a, b, c = f()");
}

/// B > 2 with only SOME slots declared -> NotImplemented (mixed
/// declaration/temp shape has no clean source representation).
#[test]
fn recover_call_multi_result_mixed_slots_bails() {
    // Slots 0 and 1 are declarations; slot 2 is unnamed temp.
    let module = module_with_call(
        4,
        1,
        vec![named_local(0, "a", 1, 2), named_local(1, "b", 1, 2)],
        3,
    );
    let result = emit_module(&module);
    assert!(
        matches!(result, Err(DecompilerError::NotImplemented)),
        "expected NotImplemented for mixed declaration/temp slots, got {:?}",
        result
    );
}

/// B > 2 with NO slots declared -> NotImplemented.
#[test]
fn recover_call_multi_result_no_decls_bails() {
    let module = module_with_call(4, 1, Vec::new(), 3);
    let result = emit_module(&module);
    assert!(
        matches!(result, Err(DecompilerError::NotImplemented)),
        "expected NotImplemented for B>2 with no declarations, got {:?}",
        result
    );
}

/// B > 2 with reassigned (not declared) slots -> NotImplemented.
/// The slots have names but `is_var_declaration_at` returns false
/// (the assignment is past the declaration point).
#[test]
fn recover_call_multi_result_reassignment_bails() {
    let module = module_with_call(
        4,
        1,
        vec![
            VarInfo {
                kind: VarKind::Name,
                name: Some("a".to_string()),
                is_parameter: false,
                slot: 0,
                scope_begin: 0,
                scope_end: 2,
            },
            VarInfo {
                kind: VarKind::Name,
                name: Some("b".to_string()),
                is_parameter: false,
                slot: 1,
                scope_begin: 0,
                scope_end: 2,
            },
            VarInfo {
                kind: VarKind::Name,
                name: Some("c".to_string()),
                is_parameter: false,
                slot: 2,
                scope_begin: 0,
                scope_end: 2,
            },
        ],
        3,
    );
    let result = emit_module(&module);
    assert!(
        matches!(result, Err(DecompilerError::NotImplemented)),
        "expected NotImplemented for B>2 with reassigned slots, got {:?}",
        result
    );
}

// ---- CALL with B == 0 (multres results) ------------------------

/// B == 0 with no consumer: stores the call expr in slot 0, emits
/// nothing. The call's side effects are lost in the output (this
/// is malformed bytecode - well-formed B==0 always has a consumer).
#[test]
fn recover_call_b_zero_no_consumer_emits_nothing() {
    //   GGET 0 0      ; f at slot 0
    //   KSHORT 2 1    ; arg at slot 2
    //   CALL  0 0 2   ; A=0, B=0 (multres), C=2 (1 arg)
    //   RET0  0 1.
    let insts = vec![
        ad(Opcode::Gget, 0, 0),
        ad(Opcode::Kshort, 2, 1),
        abc(Opcode::Call, 0, 0, 2),
        ad(Opcode::Ret0, 0, 1),
    ];
    let module = module_with(
        insts,
        Vec::new(),
        vec![GcConst::Str(b"f".to_vec())],
        Vec::new(),
        3,
    );
    assert_eq!(emit(&module), "");
}

/// B == 0 followed by RETM: the canonical `return f()` shape.
/// CALL stores Expr::Call in slot 0; RETM reads slot 0 and emits
/// `return f()`.
#[test]
fn recover_call_b_zero_with_retm_returns_call() {
    //   GGET 0 0      ; f at slot 0
    //   CALL  0 0 1   ; A=0, B=0 (multres), C=1 (0 args)
    //   RETM  0 0.    ; return multres from slot 0
    let insts = vec![
        ad(Opcode::Gget, 0, 0),
        abc(Opcode::Call, 0, 0, 1),
        ad(Opcode::Retm, 0, 0),
    ];
    let module = module_with(
        insts,
        Vec::new(),
        vec![GcConst::Str(b"f".to_vec())],
        Vec::new(),
        1,
    );
    assert_eq!(emit(&module), "return f()");
}

// ---- VARG (varargs) ---------------------------------------------

#[test]
fn recover_varg_single_result_local_decl() {
    //   VARG 0 2 0    ; A=0, B=2 (1 result)
    //   RET0 0 1.
    let insts = vec![ad(Opcode::Varg, 0, 2), ad(Opcode::Ret0, 0, 1)];
    let mut insts_full = vec![Instruction::synthetic_header(Opcode::Funcv, 1)];
    insts_full.extend(insts);
    let module = Module {
        header: ModuleHeader {
            flags: FLAG_FR2,
            chunkname: None,
        },
        protos: vec![Proto {
            flags: luadejit_core::ir::PROTO_VARARG,
            numparams: 0,
            framesize: 1,
            upvalues: Vec::<UpvalDesc>::new(),
            gc_consts: Vec::new(),
            num_consts: Vec::new(),
            insts: insts_full,
            debug: Some(DebugInfo {
                var_info: vec![named_local(0, "x", 0, 1)],
                ..DebugInfo::default()
            }),
        }],
    };
    assert_eq!(emit(&module), "local x = ...");
}

#[test]
fn recover_varg_multi_result_bails() {
    let insts = vec![ad(Opcode::Varg, 0, 4), ad(Opcode::Ret0, 0, 1)];
    let mut insts_full = vec![Instruction::synthetic_header(Opcode::Funcv, 3)];
    insts_full.extend(insts);
    let module = Module {
        header: ModuleHeader {
            flags: FLAG_FR2,
            chunkname: None,
        },
        protos: vec![Proto {
            flags: luadejit_core::ir::PROTO_VARARG,
            numparams: 0,
            framesize: 3,
            upvalues: Vec::<UpvalDesc>::new(),
            gc_consts: Vec::new(),
            num_consts: Vec::new(),
            insts: insts_full,
            debug: Some(DebugInfo {
                var_info: vec![
                    named_local(0, "x", 0, 1),
                    named_local(1, "y", 0, 1),
                    named_local(2, "z", 0, 1),
                ],
                ..DebugInfo::default()
            }),
        }],
    };
    let result = emit_module(&module);
    assert!(
        matches!(result, Err(DecompilerError::NotImplemented)),
        "expected NotImplemented for VARG with B>2, got {:?}",
        result
    );
}

/// `return ...` - VARG with B=0 stores Expr::Vararg; RETM with
/// D=0 returns it. Verifies the AST shape directly.
#[test]
fn recover_varg_multres_with_retm_ast_shape() {
    //   VARG 0 0 0    ; multres
    //   RETM 0 0.
    let insts = vec![ad(Opcode::Varg, 0, 0), ad(Opcode::Retm, 0, 0)];
    let mut insts_full = vec![Instruction::synthetic_header(Opcode::Funcv, 1)];
    insts_full.extend(insts);
    let module = Module {
        header: ModuleHeader {
            flags: FLAG_FR2,
            chunkname: None,
        },
        protos: vec![Proto {
            flags: luadejit_core::ir::PROTO_VARARG,
            numparams: 0,
            framesize: 1,
            upvalues: Vec::<UpvalDesc>::new(),
            gc_consts: Vec::new(),
            num_consts: Vec::new(),
            insts: insts_full,
            debug: Some(DebugInfo::default()),
        }],
    };
    let cfg = Cfg::build(module.main_proto());
    let ast = recover(&module, 0, &cfg, true, None).expect("recover should succeed");
    assert_eq!(ast.len(), 1, "expected just [Return]");
    match &ast[0] {
        Stmt::Return(Some(expr)) => assert_eq!(*expr, Expr::Vararg, "return expr"),
        other => panic!("expected Return(Some(Vararg)), got {:?}", other),
    }
}

// ---- RETM (return multres) --------------------------------------

#[test]
fn recover_retm_nonzero_d_bails() {
    let insts = vec![
        ad(Opcode::Gget, 0, 0),
        abc(Opcode::Call, 0, 0, 1),
        ad(Opcode::Retm, 0, 2), // D=2 -> known count of 1
    ];
    let module = module_with(
        insts,
        Vec::new(),
        vec![GcConst::Str(b"f".to_vec())],
        Vec::new(),
        1,
    );
    let result = emit_module(&module);
    assert!(
        matches!(result, Err(DecompilerError::NotImplemented)),
        "expected NotImplemented for RETM with D>0, got {:?}",
        result
    );
}

#[test]
fn recover_retm_missing_slot_bails() {
    // Slot 0 never written before RETM. (CALL above uses B=1,
    // not B=0, so it doesn't store anything in slot 0.)
    let insts = vec![ad(Opcode::Retm, 0, 0)];
    let module = module_with(insts, Vec::new(), Vec::new(), Vec::new(), 1);
    let result = emit_module(&module);
    assert!(
        matches!(result, Err(DecompilerError::NotImplemented)),
        "expected NotImplemented for RETM with missing slot, got {:?}",
        result
    );
}

// ---- CALLM (multres call args) ---------------------------------

/// `print(f())` - CALLM with C=0. End-to-end emit.
#[test]
fn emit_callm_multres_args() {
    //   GGET 0 0      ; print at slot 0
    //   GGET 2 1      ; f at slot 2
    //   CALL 2 0 1    ; call f() -> multres at slot 2
    //   CALLM 0 1 0   ; call print(...) with multres args
    //   RET0 0 1.
    let insts = vec![
        ad(Opcode::Gget, 0, 0),
        ad(Opcode::Gget, 2, 1),
        abc(Opcode::Call, 2, 0, 1),
        abc(Opcode::Callm, 0, 1, 0),
        ad(Opcode::Ret0, 0, 1),
    ];
    let module = module_with(
        insts,
        Vec::new(),
        vec![GcConst::Str(b"f".to_vec()), GcConst::Str(b"print".to_vec())],
        Vec::new(),
        3,
    );
    assert_eq!(emit(&module), "print(f())");
}

#[test]
fn recover_callm_fixed_args_bails() {
    let insts = vec![
        ad(Opcode::Gget, 0, 0),
        ad(Opcode::Gget, 2, 1),
        abc(Opcode::Call, 4, 0, 1),
        abc(Opcode::Callm, 0, 1, 2), // C=2 -> 1 fixed arg + multres
        ad(Opcode::Ret0, 0, 1),
    ];
    let module = module_with(
        insts,
        Vec::new(),
        vec![GcConst::Str(b"f".to_vec()), GcConst::Str(b"print".to_vec())],
        Vec::new(),
        5,
    );
    let result = emit_module(&module);
    assert!(
        matches!(result, Err(DecompilerError::NotImplemented)),
        "expected NotImplemented for CALLM with C>0, got {:?}",
        result
    );
}

/// CALLM with B=2 (single result) - `local x = print(f())` shape.
/// Verifies route_call_result handles CALLM the same way as CALL.
#[test]
fn recover_callm_single_result_local_decl() {
    let insts = vec![
        ad(Opcode::Gget, 0, 0),
        ad(Opcode::Gget, 2, 1),
        abc(Opcode::Call, 2, 0, 1),
        abc(Opcode::Callm, 0, 2, 0), // B=2 -> 1 result at slot 0
        ad(Opcode::Ret1, 0, 2),
    ];
    let module = module_with(
        insts,
        vec![named_local(0, "x", 3, 4)],
        vec![GcConst::Str(b"f".to_vec()), GcConst::Str(b"print".to_vec())],
        Vec::new(),
        3,
    );
    assert_eq!(emit(&module), "local x = print(f())\nreturn x");
}

#[test]
fn recover_callm_method_call_multres() {
    let insts = vec![
        ad(Opcode::Gget, 0, 0),      // idx 1 - obj
        ad(Opcode::Mov, 2, 0),       // idx 2 - self = obj
        abc(Opcode::Tgets, 0, 0, 1), // idx 3 - slot 0 = obj.m
        ad(Opcode::Gget, 3, 2),      // idx 4 - f at slot 3
        abc(Opcode::Call, 3, 0, 1),  // idx 5 - f() multres at slot 3
        abc(Opcode::Callm, 0, 1, 1), // idx 6 - obj:m(f())
        ad(Opcode::Ret0, 0, 1),
    ];
    let module = module_with(
        insts,
        Vec::new(),
        // gc_consts reverse-indexed: TGETS C=1 -> gc_consts[1] = "m";
        // GGET 0 0 -> gc_consts[2] = "obj"; GGET 3 2 -> gc_consts[0] = "f".
        // File order [f, m, obj].
        vec![
            GcConst::Str(b"f".to_vec()),
            GcConst::Str(b"m".to_vec()),
            GcConst::Str(b"obj".to_vec()),
        ],
        Vec::new(),
        4,
    );
    assert_eq!(emit(&module), "obj:m(f())");
}

#[test]
fn recover_callm_method_call_fixed_plus_multres() {
    let insts = vec![
        ad(Opcode::Gget, 0, 0),
        ad(Opcode::Mov, 2, 0),
        abc(Opcode::Tgets, 0, 0, 1),
        ad(Opcode::Kshort, 3, 1),
        ad(Opcode::Gget, 4, 2),
        abc(Opcode::Call, 4, 0, 1),
        abc(Opcode::Callm, 0, 1, 2),
        ad(Opcode::Ret0, 0, 1),
    ];
    let module = module_with(
        insts,
        Vec::new(),
        // TGETS C=1 -> gc_consts[1] = "m"; GGET 0 0 -> gc_consts[2] = "obj";
        // GGET 4 2 -> gc_consts[0] = "f". File order [f, m, obj].
        vec![
            GcConst::Str(b"f".to_vec()),
            GcConst::Str(b"m".to_vec()),
            GcConst::Str(b"obj".to_vec()),
        ],
        Vec::new(),
        5,
    );
    assert_eq!(emit(&module), "obj:m(1, f())");
}

/// `local r = obj:m(f()); return r` - CALLM method-call with a
/// single result (B=2). Verifies route_call_result emits a
/// LocalDecl with the MethodCall expr.
#[test]
fn recover_callm_method_call_single_result() {
    let insts = vec![
        ad(Opcode::Gget, 0, 0),      // obj
        ad(Opcode::Mov, 2, 0),       // self = obj
        abc(Opcode::Tgets, 0, 0, 1), // slot 0 = obj.m
        ad(Opcode::Gget, 3, 2),      // f at slot 3
        abc(Opcode::Call, 3, 0, 1),  // f() multres at slot 3
        abc(Opcode::Callm, 0, 2, 1), // obj:m(f()), 1 result at slot 0
        ad(Opcode::Ret1, 0, 2),
    ];
    let module = module_with(
        insts,
        vec![named_local(0, "r", 5, 6)],
        vec![
            GcConst::Str(b"f".to_vec()),
            GcConst::Str(b"m".to_vec()),
            GcConst::Str(b"obj".to_vec()),
        ],
        Vec::new(),
        4,
    );
    assert_eq!(emit(&module), "local r = obj:m(f())\nreturn r");
}

// ---- CALLT (tail call via Terminator::TailCall) ----------------

/// `return f()` via CALLT - end-to-end emit.
#[test]
fn emit_tail_call_via_callt() {
    //   GGET 0 0      ; f at slot 0
    //   CALLT 0 1.    ; A=0, D=1 (0 args + 1)
    let insts = vec![ad(Opcode::Gget, 0, 0), ad(Opcode::Callt, 0, 1)];
    let module = module_with(
        insts,
        Vec::new(),
        vec![GcConst::Str(b"f".to_vec())],
        Vec::new(),
        2,
    );
    assert_eq!(emit(&module), "return f()");
}

/// `return f(1, 2)` via CALLT with two args.
#[test]
fn emit_tail_call_with_args() {
    //   GGET   0 0    ; f at slot 0
    //   KSHORT 2 1    ; arg 1 at slot 2
    //   KSHORT 3 2    ; arg 2 at slot 3
    //   CALLT  0 3.   ; A=0, D=3 (2 args + 1)
    let insts = vec![
        ad(Opcode::Gget, 0, 0),
        ad(Opcode::Kshort, 2, 1),
        ad(Opcode::Kshort, 3, 2),
        ad(Opcode::Callt, 0, 3),
    ];
    let module = module_with(
        insts,
        Vec::new(),
        vec![GcConst::Str(b"f".to_vec())],
        Vec::new(),
        4,
    );
    assert_eq!(emit(&module), "return f(1, 2)");
}

#[test]
fn recover_callt_multres_args_bails() {
    let insts = vec![ad(Opcode::Gget, 0, 0), ad(Opcode::Callt, 0, 0)];
    let module = module_with(
        insts,
        Vec::new(),
        vec![GcConst::Str(b"f".to_vec())],
        Vec::new(),
        2,
    );
    let result = emit_module(&module);
    assert!(
        matches!(result, Err(DecompilerError::NotImplemented)),
        "expected NotImplemented for CALLT with D=0, got {:?}",
        result
    );
}

// ---- FNEW with vararg child ------------------------------------

#[test]
fn emit_fnew_vararg_child() {
    // child: VARG 0 0 0; RETM 0 0.
    let module = module_with_child(
        vec![ad(Opcode::Varg, 0, 0), ad(Opcode::Retm, 0, 0)],
        Vec::new(),
        0, // numparams
        1, // framesize
        // main: FNEW 0 0; RET0 0 1.
        vec![ad(Opcode::Fnew, 0, 0), ad(Opcode::Ret0, 0, 1)],
        vec![named_local(0, "f", 0, 1)],
        1,
    );
    // Mark the child proto as vararg.
    let mut module = module;
    module.protos[0].flags |= luadejit_core::ir::PROTO_VARARG;
    assert_eq!(
        emit(&module),
        "local f = function(...)\n    return ...\nend"
    );
}

#[test]
fn emit_fnew_param_plus_vararg() {
    let module = module_with_child(
        vec![ad(Opcode::Ret1, 0, 2)],
        vec![param_local(0, "a")],
        1, // numparams
        1, // framesize
        vec![ad(Opcode::Fnew, 0, 0), ad(Opcode::Ret0, 0, 1)],
        vec![named_local(0, "f", 0, 1)],
        1,
    );
    let mut module = module;
    module.protos[0].flags |= luadejit_core::ir::PROTO_VARARG;
    assert_eq!(
        emit(&module),
        "local f = function(a, ...)\n    return a\nend"
    );
}

#[test]
fn emit_fnew_non_vararg_child_no_dots() {
    let module = module_with_child(
        vec![ad(Opcode::Ret1, 0, 2)],
        vec![param_local(0, "x")],
        1,
        1,
        vec![ad(Opcode::Fnew, 0, 0), ad(Opcode::Ret0, 0, 1)],
        vec![named_local(0, "f", 0, 1)],
        1,
    );
    // Don't set PROTO_VARARG - should produce `function(x)`.
    assert_eq!(emit(&module), "local f = function(x)\n    return x\nend");
}
