//! What malformed input is answered.

use luadejit_core::frontend::Reader;
use luadejit_core::ir::{Instruction, Module, Opcode};
use luadejit_core::{decompile, DecompilerError};

/// A dump of one stripped function.
fn stripped(pdata: &[u8]) -> Vec<u8> {
    let mut out = vec![0x1b, 0x4c, 0x4a, 0x02, 0x02, pdata.len() as u8];
    out.extend_from_slice(pdata);
    out.push(0);
    out
}

/// A dump of one function with a debug section.
fn with_debug(pdata: &[u8]) -> Vec<u8> {
    let mut out = vec![0x1b, 0x4c, 0x4a, 0x02, 0x00, 0x00];
    let mut n = pdata.len();
    while n >= 0x80 {
        out.push((n & 0x7f) as u8 | 0x80);
        n >>= 7;
    }
    out.push(n as u8);
    out.extend_from_slice(pdata);
    out.push(0);
    out
}

/// The offset and reason with which input is refused.
fn refusal(bytes: &[u8]) -> (usize, String) {
    let direct = Module::from_bytes(bytes).map(|_| ()).unwrap_err();
    let whole = decompile(bytes).unwrap_err();
    assert_eq!(direct.message(), whole.message());
    match whole {
        DecompilerError::InvalidBytecode { offset, reason } => {
            assert_eq!(
                direct.message(),
                format!("invalid bytecode at offset {}: {}", offset, reason)
            );
            (offset, reason)
        }
        other => panic!("expected InvalidBytecode, got {:?}", other),
    }
}

fn refused(bytes: &[u8], offset: usize, reason: &str) {
    assert_eq!(refusal(bytes), (offset, reason.to_string()));
}

#[test]
fn refuses_short_input() {
    refused(
        &[],
        0,
        "unexpected end of input while reading byte slice (3 bytes wanted, 0 remaining)",
    );
    refused(&[0x1b, 0x4c, 0x4a], 3, "unexpected end of input while reading u8");
    refused(
        &[0x1b, 0x4c, 0x4a, 0x02],
        4,
        "unexpected end of input while reading u8",
    );
}

#[test]
fn refuses_other_magic() {
    refused(
        &[0x1b, 0x4c, 0x4b, 0x02],
        0,
        "bad magic bytes 0x1b 0x4c 0x4b (expected 1B 4C 4A)",
    );
    refused(
        b"\x00\x01\xff",
        0,
        "bad magic bytes 0x00 0x01 0xff (expected 1B 4C 4A)",
    );
}

#[test]
fn refuses_other_versions() {
    refused(
        &[0x1b, 0x4c, 0x4a, 0x01, 0x00],
        3,
        "unsupported bytecode version 0x01 (only 0x02 supported)",
    );
}

#[test]
fn refuses_header_flags() {
    refused(
        &[0x1b, 0x4c, 0x4a, 0x02, 0x10],
        4,
        "unknown header flags 0x00000010",
    );
    refused(
        &[0x1b, 0x4c, 0x4a, 0x02, 0x01],
        4,
        "big-endian bytecode is not supported",
    );
}

#[test]
fn accepts_the_deterministic_flag() {
    // Bit 31 may be set; the flags then take five bytes.
    let mut dump = vec![0x1b, 0x4c, 0x4a, 0x02, 0x82, 0x80, 0x80, 0x80, 0x08];
    dump.extend([11, 0x02, 0, 1, 0, 0, 0, 1, 0x4b, 0, 1, 0, 0]);
    let module = Module::from_bytes(&dump).unwrap();
    assert_eq!(module.header.flags, 0x8000_0002);
    assert_eq!(decompile(&dump).unwrap(), "");
}

#[test]
fn refuses_a_chunk_name_past_the_end() {
    refused(
        &[0x1b, 0x4c, 0x4a, 0x02, 0x00, 0x05, b'x'],
        6,
        "unexpected end of input while reading byte slice (5 bytes wanted, 1 remaining)",
    );
}

#[test]
fn refuses_a_dump_without_functions() {
    refused(
        &[0x1b, 0x4c, 0x4a, 0x02, 0x02, 0x00],
        6,
        "no protos in dump (expected at least the main chunk)",
    );
}

#[test]
fn refuses_a_function_past_the_end() {
    refused(
        &[0x1b, 0x4c, 0x4a, 0x02, 0x02, 0x09, 0x02],
        6,
        "unexpected end of input while reading byte slice (9 bytes wanted, 1 remaining)",
    );
}

#[test]
fn refuses_function_flags() {
    refused(
        &stripped(&[0x48, 0, 1, 0, 0, 0, 0]),
        6,
        "unknown proto flags byte 0x48",
    );
}

#[test]
fn refuses_unknown_opcodes() {
    refused(
        &stripped(&[0x02, 0, 1, 0, 0, 0, 1, 0x61, 0, 0, 0]),
        13,
        "unknown opcode byte 0x61",
    );
    let err = Opcode::from_byte(0xff, 7).unwrap_err();
    assert_eq!(
        err.message(),
        "invalid bytecode at offset 7: unknown opcode byte 0xff"
    );
}

#[test]
fn refuses_a_function_of_another_length() {
    refused(
        &stripped(&[0x02, 0, 1, 0, 0, 0, 1, 0x4b, 0, 1, 0, 0xaa]),
        17,
        "proto length mismatch: header declared 12 bytes but parser consumed 11",
    );
}

#[test]
fn refuses_a_truncated_function_with_its_absolute_offset() {
    refused(
        &stripped(&[0x02, 0, 1, 0, 0, 0, 1, 0x4b, 0]),
        13,
        "unexpected end of input while reading byte slice (4 bytes wanted, 2 remaining)",
    );
}

/// The body of a function with one return and the given debug bytes.
fn debug_pdata(declared: u8, debug: &[u8]) -> Vec<u8> {
    let mut out = vec![0x02, 0, 1, 0, 0, 0, 1, declared, 1, 1];
    out.extend([0x4b, 0, 1, 0]);
    out.extend_from_slice(debug);
    out
}

#[test]
fn refuses_a_debug_section_of_another_length() {
    refused(
        &with_debug(&debug_pdata(5, &[0, 0])),
        23,
        "debug section length mismatch: declared 5 bytes but consumed 2",
    );
}

#[test]
fn refuses_a_scope_offset_of_one() {
    refused(
        &with_debug(&debug_pdata(5, &[0, b'x', 0, 1, 0])),
        25,
        "invalid var-info scope offset of 1",
    );
}

#[test]
fn refuses_an_unterminated_name() {
    refused(
        &with_debug(&debug_pdata(3, &[0, b'x', b'y'])),
        24,
        "unexpected end of input while reading u8",
    );
}

#[test]
fn refuses_more_variables_than_slots() {
    let mut debug = vec![0];
    for i in 0..257_u32 {
        // All begin at the first instruction and last for one.
        debug.extend([b'v', 0, if i == 0 { 2 } else { 0 }, 1]);
    }
    debug.push(0);
    let mut pdata = vec![0x02, 0, 1, 0, 0, 0, 1, 0x86, 0x08, 1, 1, 0x4b, 0, 1, 0];
    assert_eq!(debug.len(), 0x406);
    pdata.extend(debug);
    let (_, reason) = refusal(&with_debug(&pdata));
    assert_eq!(reason, "var-info needs more than 256 slots");
}

#[test]
fn refuses_constant_operands_past_the_end() {
    // GGET of constant 3 in a function with one constant.
    let pdata = [0x02, 0, 1, 0, 1, 0, 2, 0x36, 0, 3, 0, 0x4b, 0, 1, 0, 6, b'x'];
    let module = Module::from_bytes(&stripped(&pdata)).unwrap();
    let err = module.main_proto().gc_const_for_operand(3).unwrap_err();
    assert!(err
        .message()
        .ends_with("GC constant operand 3 out of range (table has 1 entries)"));
}

#[test]
fn messages_of_both_errors() {
    assert_eq!(
        DecompilerError::NotImplemented.message(),
        "decompile not implemented yet"
    );
}

fn uleb(mut v: u32) -> Vec<u8> {
    let mut out = Vec::new();
    while v >= 0x80 {
        out.push((v & 0x7f) as u8 | 0x80);
        v >>= 7;
    }
    out.push(v as u8);
    out
}

#[test]
fn leb_values_read_back() {
    for shift in 0..32 {
        for delta in [-1_i64, 0, 1] {
            let v = ((1_i64 << shift) + delta).clamp(0, u32::MAX as i64) as u32;
            let mut bytes = uleb(v);
            assert!(bytes.len() <= 5);
            let n = bytes.len();
            bytes.push(0xff);
            let mut r = Reader::new(&bytes);
            assert_eq!(r.read_uleb128().unwrap(), v);
            assert_eq!((r.pos(), r.remaining(), r.len()), (n, 1, n + 1));
        }
    }
}

#[test]
fn tagged_leb_values_read_back() {
    for shift in 0..32 {
        for tag in [0_u8, 1] {
            let v = (1_u64 << shift) as u32 | 1;
            let mut bytes = if v < 0x40 {
                vec![(v << 1) as u8 | tag]
            } else {
                let mut b = vec![((v & 0x3f) << 1) as u8 | tag | 0x80];
                b.extend(uleb(v >> 6));
                b
            };
            assert!(bytes.len() <= 6);
            let n = bytes.len();
            bytes.push(0xff);
            let mut r = Reader::new(&bytes);
            assert_eq!(r.read_uleb128_33().unwrap(), (v, tag));
            assert_eq!(r.pos(), n);
        }
    }
}

#[test]
fn instructions_read_back() {
    for byte in 0..=0x60_u8 {
        let raw = [byte, 7, 0x34, 0x12];
        let mut r = Reader::new(&raw);
        let inst = Instruction::read(&mut r).unwrap();
        assert_eq!(inst.op, Opcode::from_byte(byte, 0).unwrap());
        assert_eq!(inst.a, 7);
        if inst.op.is_abc() {
            assert_eq!((inst.b(), inst.c), (0x12, 0x34));
        } else {
            assert_eq!((inst.d(), inst.c), (0x1234, 0));
        }
    }
}

#[test]
fn fixed_width_values_are_little_endian() {
    let bytes = [0x78, 0x56, 0x34, 0x12, 0xcd, 0xab];
    let mut r = Reader::new(&bytes);
    assert_eq!(r.read_u32().unwrap(), 0x1234_5678);
    assert_eq!(r.read_u16().unwrap(), 0xabcd);
    assert!(r.read_u16().is_err());
    assert_eq!(r.pos(), 6);
}
