//! The whole pipeline.

use luadejit_core::{DecompilerError, decompile};

#[test]
fn garbage_returns_invalid_bytecode() {
    let result = decompile(b"some bytes");
    match result {
        Err(DecompilerError::InvalidBytecode { reason, .. }) => {
            assert!(reason.contains("magic"));
        }
        other => panic!(
            "expected Err(InvalidBytecode) for garbage input, got {:?}",
            other
        ),
    }
}
