//! Constant operands.

use luadejit_core::DecompilerError;
use luadejit_core::ir::{GcConst, Proto};

/// Build a `Proto` whose only interesting field is `gc_consts`.
/// Everything else is zeroed/empty - sufficient for testing the
/// GC-constant operand resolver.
fn proto_with_gc_consts(gc: Vec<GcConst>) -> Proto {
    Proto {
        flags: 0,
        numparams: 0,
        framesize: 0,
        upvalues: Vec::new(),
        gc_consts: gc,
        num_consts: Vec::new(),
        insts: Vec::new(),
        debug: None,
    }
}

#[test]
fn gc_const_for_operand_reverse_indexes() {
    // gc_consts = [A, B, C] (len 3, file order).
    // Reverse index: operand 0 -> last (C), 1 -> B, 2 -> first (A).
    let proto = proto_with_gc_consts(vec![
        GcConst::Str(b"A".to_vec()),
        GcConst::Str(b"B".to_vec()),
        GcConst::Str(b"C".to_vec()),
    ]);
    // Match on each result so this test doesn't require GcConst to
    // derive PartialEq (keeps the change off the IR derives).
    match proto.gc_const_for_operand(0).unwrap() {
        GcConst::Str(b) => assert_eq!(b, &b"C".to_vec()),
        other => panic!("operand 0: expected Str(C), got {:?}", other),
    }
    match proto.gc_const_for_operand(1).unwrap() {
        GcConst::Str(b) => assert_eq!(b, &b"B".to_vec()),
        other => panic!("operand 1: expected Str(B), got {:?}", other),
    }
    match proto.gc_const_for_operand(2).unwrap() {
        GcConst::Str(b) => assert_eq!(b, &b"A".to_vec()),
        other => panic!("operand 2: expected Str(A), got {:?}", other),
    }
}

#[test]
fn gc_const_for_operand_out_of_range() {
    let proto = proto_with_gc_consts(vec![
        GcConst::Str(b"A".to_vec()),
        GcConst::Str(b"B".to_vec()),
        GcConst::Str(b"C".to_vec()),
    ]);
    // operand == len is the first out-of-range value (valid range
    // is 0..=2).
    let err = proto.gc_const_for_operand(3).unwrap_err();
    match err {
        DecompilerError::InvalidBytecode { offset, reason } => {
            assert_eq!(offset, 0);
            assert!(reason.contains("out of range"), "reason was: {}", reason);
            assert!(reason.contains("3"), "reason was: {}", reason);
        }
        other => panic!("expected InvalidBytecode, got {:?}", other),
    }
}

#[test]
fn gc_const_for_operand_empty_table() {
    let proto = proto_with_gc_consts(Vec::new());
    let err = proto.gc_const_for_operand(0).unwrap_err();
    match err {
        DecompilerError::InvalidBytecode { offset, reason } => {
            assert_eq!(offset, 0);
            assert!(reason.contains("out of range"), "reason was: {}", reason);
        }
        other => panic!("expected InvalidBytecode, got {:?}", other),
    }
}
