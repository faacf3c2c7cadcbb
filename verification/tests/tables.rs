//! Template tables.

use luadejit_core::emit::{emit_ast, format_expr};
use luadejit_core::ir::{KtabK, TableConst};
use luadejit_core::structure::table::{
    format_key_for_sort, ktabk_to_expr, skip_leading_nil_sentinel, table_const_to_entries,
};
use luadejit_core::structure::{Expr, Stmt, TableEntry};

fn text(table: &TableConst) -> String {
    let entries = table_const_to_entries(table);
    format_expr(&Expr::Table { entries }, 0)
}

fn string(s: &[u8]) -> KtabK {
    KtabK::Str(s.to_vec())
}

#[test]
fn string_keys_sort_by_their_bytes() {
    let table = TableConst {
        array: Vec::new(),
        hash: vec![
            (string(b"b"), KtabK::Int(1)),
            (string("\u{e9}".as_bytes()), KtabK::Int(2)),
            (string(b"B"), KtabK::Int(3)),
            (string(b"ba"), KtabK::Int(4)),
            (string(b""), KtabK::Int(5)),
        ],
    };
    assert_eq!(
        text(&table),
        "{ = 5, B = 3, b = 1, ba = 4, \u{e9} = 2}"
    );
}

#[test]
fn equal_keys_keep_their_order() {
    // Both keys decode to the replacement character.
    let table = TableConst {
        array: Vec::new(),
        hash: vec![
            (string(b"\xff"), KtabK::Int(1)),
            (string(b"a"), KtabK::Int(2)),
            (string(b"\xfe"), KtabK::Int(3)),
        ],
    };
    assert_eq!(text(&table), "{a = 2, \u{fffd} = 1, \u{fffd} = 3}");
}

#[test]
fn integer_keys_sort_numerically() {
    let key = |n: i32| KtabK::Int(n as u32 as u64);
    let table = TableConst {
        array: Vec::new(),
        hash: vec![
            (key(10), KtabK::True),
            (key(2), KtabK::False),
            (key(-3), KtabK::Nil),
            (key(100000), KtabK::True),
            (key(-10), KtabK::False),
            (key(i32::MIN), KtabK::True),
            (key(-1), KtabK::True),
        ],
    };
    assert_eq!(
        text(&table),
        "{[-2147483648] = true, [-10] = false, [-3] = nil, [-1] = true, [2] = false, \
         [10] = true, [100000] = true}"
    );
    let ascending = [i32::MIN, -100000, -10, -5, -2, -1, 0, 2, 10, 100000, i32::MAX];
    for pair in ascending.windows(2) {
        assert!(format_key_for_sort(&key(pair[0])) < format_key_for_sort(&key(pair[1])));
    }
}

#[test]
fn negative_integers_stand_before_floats_from_minus_one_down() {
    let int = |n: i32| KtabK::Int(n as u32 as u64);
    let float = |v: f64| KtabK::Num(v.to_bits());
    let table = TableConst {
        array: Vec::new(),
        hash: vec![
            (float(-2.5), KtabK::Int(1)),
            (float(-0.5), KtabK::Int(2)),
            (int(-1), KtabK::Int(3)),
            (int(-5), KtabK::Int(4)),
        ],
    };
    assert_eq!(text(&table), "{[-0.5] = 2, [-5] = 4, [-1] = 3, [-2.5] = 1}");
    // Plain padded digits put a number of up to seven digits in the same
    // place among the floats.
    for n in [-1_i32, -5, -10, -999, -1000, -123456, -9999999] {
        for v in [-0.0_f64, -1e-9, -0.5, -0.9999999, -1.0, -1.5, -2.5, -214.0, -1e9, -1e300] {
            assert_eq!(
                format_key_for_sort(&int(n)) < format_key_for_sort(&float(v)),
                format!("{:020}", n) < format!("{:020.6}", v),
                "{} and {}",
                n,
                v
            );
        }
    }
    assert!(format_key_for_sort(&int(-5)) < format_key_for_sort(&float(f64::NEG_INFINITY)));
    assert!(format_key_for_sort(&int(-20000000)) < format_key_for_sort(&float(-1.5)));
}

#[test]
fn other_keys_sort_by_their_text() {
    let table = TableConst {
        array: Vec::new(),
        hash: vec![
            (KtabK::True, KtabK::Int(1)),
            (KtabK::False, KtabK::Int(2)),
            (KtabK::Num(1.5_f64.to_bits()), KtabK::Int(3)),
            (KtabK::Int(7), KtabK::Int(4)),
        ],
    };
    assert_eq!(
        text(&table),
        "{[7] = 4, [1.5] = 3, [false] = 2, [true] = 1}"
    );
}

#[test]
fn only_the_first_nil_of_the_array_part_is_dropped() {
    let array = vec![KtabK::Nil, KtabK::Nil, KtabK::Int(1)];
    assert_eq!(skip_leading_nil_sentinel(&array), 1);
    assert_eq!(skip_leading_nil_sentinel(&vec![KtabK::True]), 0);
    assert_eq!(skip_leading_nil_sentinel(&Vec::new()), 0);
    let table = TableConst {
        array,
        hash: Vec::new(),
    };
    assert_eq!(text(&table), "{nil, 1}");
}

#[test]
fn values_become_expressions() {
    assert_eq!(ktabk_to_expr(&KtabK::Int(0xffff_ffff)), Expr::Int(-1));
    assert_eq!(ktabk_to_expr(&KtabK::True), Expr::True);
    assert_eq!(
        ktabk_to_expr(&KtabK::Num(2.5_f64.to_bits())),
        Expr::Float(2.5_f64.to_bits())
    );
    assert_eq!(
        table_const_to_entries(&TableConst {
            array: vec![string(b"x")],
            hash: Vec::new(),
        }),
        vec![TableEntry::Array(Expr::Str(b"x".to_vec()))]
    );
}

#[test]
fn runs_of_statements_join_with_one_newline() {
    let assign = |name: &str| Stmt::Assign {
        name: name.to_string(),
        expr: Expr::Nil,
    };
    let first = vec![assign("a"), Stmt::Return(None), assign("b")];
    let second = vec![assign("c"), Stmt::Return(None)];
    let joined = format!("{}\n{}", emit_ast(&first), emit_ast(&second));
    let mut all = first;
    all.extend(second);
    assert_eq!(emit_ast(&all), joined);
    assert_eq!(joined, "a = nil\nb = nil\nc = nil");
}

#[test]
fn floats_compare_as_doubles() {
    let nan = f64::NAN.to_bits();
    assert_ne!(Expr::Float(nan), Expr::Float(nan));
    assert_eq!(Expr::Float(0.0_f64.to_bits()), Expr::Float((-0.0_f64).to_bits()));
    assert_ne!(Expr::Float(1.0_f64.to_bits()), Expr::Int(1));
}
