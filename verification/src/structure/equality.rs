//! Equality of source trees.
//!
//! Two trees are equal when they have the same shape and equal leaves.
//! Floating-point leaves compare as doubles do, so a tree that holds a
//! NaN is not equal to itself.

use vstd::prelude::*;

use crate::number;
use crate::structure::ast;
use crate::structure::ast::{Expr, ExprV, Stmt, StmtV, TableEntry, TableEntryV};
use crate::text;

verus! {

/// Equality of statements.
pub open spec fn same_stmt(a: StmtV, b: StmtV) -> bool
    decreases a,
{
    match (a, b) {
        (
            StmtV::LocalDecl { name: name_a, expr: expr_a },
            StmtV::LocalDecl { name: name_b, expr: expr_b },
        ) => name_a == name_b && same_expr(expr_a, expr_b),
        (
            StmtV::Assign { name: name_a, expr: expr_a },
            StmtV::Assign { name: name_b, expr: expr_b },
        ) => name_a == name_b && same_expr(expr_a, expr_b),
        (StmtV::Return(a0), StmtV::Return(b0)) => match (a0, b0) {
            (Some(x), Some(y)) => same_expr(x, y),
            (None, None) => true,
            _ => false,
        },
        (
            StmtV::If { cond: cond_a, then_body: then_body_a, else_body: else_body_a },
            StmtV::If { cond: cond_b, then_body: then_body_b, else_body: else_body_b },
        ) => {
            &&& same_expr(cond_a, cond_b)
            &&& same_stmts(then_body_a, then_body_b)
            &&& (match (else_body_a, else_body_b) {
                (Some(x), Some(y)) => same_stmts(x, y),
                (None, None) => true,
                _ => false,
            })
        },
        (
            StmtV::For { var: var_a, start: start_a, stop: stop_a, step: step_a, body: body_a },
            StmtV::For { var: var_b, start: start_b, stop: stop_b, step: step_b, body: body_b },
        ) => {
            &&& var_a == var_b
            &&& same_expr(start_a, start_b)
            &&& same_expr(stop_a, stop_b)
            &&& (match (step_a, step_b) {
                (Some(x), Some(y)) => same_expr(x, y),
                (None, None) => true,
                _ => false,
            })
            &&& same_stmts(body_a, body_b)
        },
        (
            StmtV::ForIn { vars: vars_a, iterator: iterator_a, body: body_a },
            StmtV::ForIn { vars: vars_b, iterator: iterator_b, body: body_b },
        ) => vars_a == vars_b && same_expr(iterator_a, iterator_b) && same_stmts(body_a, body_b),
        (
            StmtV::While { cond: cond_a, body: body_a },
            StmtV::While { cond: cond_b, body: body_b },
        ) => same_expr(cond_a, cond_b) && same_stmts(body_a, body_b),
        (
            StmtV::Repeat { cond: cond_a, body: body_a },
            StmtV::Repeat { cond: cond_b, body: body_b },
        ) => same_expr(cond_a, cond_b) && same_stmts(body_a, body_b),
        (
            StmtV::Call { func: func_a, args: args_a },
            StmtV::Call { func: func_b, args: args_b },
        ) => same_expr(func_a, func_b) && same_exprs(args_a, args_b),
        (
            StmtV::MethodCall { obj: obj_a, method: method_a, args: args_a },
            StmtV::MethodCall { obj: obj_b, method: method_b, args: args_b },
        ) => same_expr(obj_a, obj_b) && method_a == method_b && same_exprs(args_a, args_b),
        (
            StmtV::TableSet { target: target_a, value: value_a },
            StmtV::TableSet { target: target_b, value: value_b },
        ) => same_expr(target_a, target_b) && same_expr(value_a, value_b),
        (
            StmtV::LocalDeclMulti { names: names_a, expr: expr_a },
            StmtV::LocalDeclMulti { names: names_b, expr: expr_b },
        ) => names_a == names_b && same_expr(expr_a, expr_b),
        _ => false,
    }
}

/// Equality of sequences of statements.
pub open spec fn same_stmts(a: Seq<StmtV>, b: Seq<StmtV>) -> bool
    decreases a,
{
    if a.len() == 0 || b.len() == 0 {
        a.len() == b.len()
    } else {
        same_stmt(a.last(), b.last()) && same_stmts(a.drop_last(), b.drop_last())
    }
}

/// Equality of expressions.
pub open spec fn same_expr(a: ExprV, b: ExprV) -> bool
    decreases a,
{
    match (a, b) {
        (ExprV::Var(a0), ExprV::Var(b0)) => a0 == b0,
        (ExprV::Int(a0), ExprV::Int(b0)) => a0 == b0,
        (ExprV::Float(a0), ExprV::Float(b0)) => number::float_same(a0, b0),
        (ExprV::Str(a0), ExprV::Str(b0)) => a0 == b0,
        (ExprV::Nil, ExprV::Nil) => true,
        (ExprV::True, ExprV::True) => true,
        (ExprV::False, ExprV::False) => true,
        (
            ExprV::BinOp { op: op_a, left: left_a, right: right_a },
            ExprV::BinOp { op: op_b, left: left_b, right: right_b },
        ) => op_a == op_b && same_expr(*left_a, *left_b) && same_expr(*right_a, *right_b),
        (ExprV::Not(a0), ExprV::Not(b0)) => same_expr(*a0, *b0),
        (ExprV::Global(a0), ExprV::Global(b0)) => a0 == b0,
        (ExprV::And(a0, a1), ExprV::And(b0, b1)) => same_expr(*a0, *b0) && same_expr(*a1, *b1),
        (ExprV::Or(a0, a1), ExprV::Or(b0, b1)) => same_expr(*a0, *b0) && same_expr(*a1, *b1),
        (
            ExprV::Call { func: func_a, args: args_a },
            ExprV::Call { func: func_b, args: args_b },
        ) => same_expr(*func_a, *func_b) && same_exprs(args_a, args_b),
        (ExprV::Field { obj: obj_a, name: name_a }, ExprV::Field { obj: obj_b, name: name_b }) => {
            same_expr(*obj_a, *obj_b) && name_a == name_b
        },
        (ExprV::Index { obj: obj_a, key: key_a }, ExprV::Index { obj: obj_b, key: key_b }) => {
            same_expr(*obj_a, *obj_b) && same_expr(*key_a, *key_b)
        },
        (
            ExprV::MethodCall { obj: obj_a, method: method_a, args: args_a },
            ExprV::MethodCall { obj: obj_b, method: method_b, args: args_b },
        ) => same_expr(*obj_a, *obj_b) && method_a == method_b && same_exprs(args_a, args_b),
        (ExprV::Table { entries: entries_a }, ExprV::Table { entries: entries_b }) => {
            same_entries(entries_a, entries_b)
        },
        (ExprV::Len(a0), ExprV::Len(b0)) => same_expr(*a0, *b0),
        (
            ExprV::Function { params: params_a, body: body_a },
            ExprV::Function { params: params_b, body: body_b },
        ) => params_a == params_b && same_stmts(body_a, body_b),
        (ExprV::Vararg, ExprV::Vararg) => true,
        _ => false,
    }
}

/// Equality of sequences of expressions.
pub open spec fn same_exprs(a: Seq<ExprV>, b: Seq<ExprV>) -> bool
    decreases a,
{
    if a.len() == 0 || b.len() == 0 {
        a.len() == b.len()
    } else {
        same_expr(a.last(), b.last()) && same_exprs(a.drop_last(), b.drop_last())
    }
}

/// Equality of table entries.
pub open spec fn same_entry(a: TableEntryV, b: TableEntryV) -> bool
    decreases a,
{
    match (a, b) {
        (TableEntryV::Array(a0), TableEntryV::Array(b0)) => same_expr(a0, b0),
        (TableEntryV::HashStr(a0, a1), TableEntryV::HashStr(b0, b1)) => {
            a0 == b0 && same_expr(a1, b1)
        },
        (TableEntryV::HashExpr(a0, a1), TableEntryV::HashExpr(b0, b1)) => {
            same_expr(a0, b0) && same_expr(a1, b1)
        },
        _ => false,
    }
}

/// Equality of sequences of table entries.
pub open spec fn same_entries(a: Seq<TableEntryV>, b: Seq<TableEntryV>) -> bool
    decreases a,
{
    if a.len() == 0 || b.len() == 0 {
        a.len() == b.len()
    } else {
        same_entry(a.last(), b.last()) && same_entries(a.drop_last(), b.drop_last())
    }
}

/// Whether a statement holds no float.
pub open spec fn exact_stmt(s: StmtV) -> bool
    decreases s,
{
    match s {
        StmtV::LocalDecl { name, expr } => exact_expr(expr),
        StmtV::Assign { name, expr } => exact_expr(expr),
        StmtV::Return(Some(e)) => exact_expr(e),
        StmtV::Return(None) => true,
        StmtV::If { cond, then_body, else_body } => exact_expr(cond) && exact_stmts(then_body) && (
        match else_body {
            Some(b) => exact_stmts(b),
            None => true,
        }),
        StmtV::For { var, start, stop, step, body } => exact_expr(start) && exact_expr(stop) && (
        match step {
            Some(e) => exact_expr(e),
            None => true,
        }) && exact_stmts(body),
        StmtV::ForIn { vars, iterator, body } => exact_expr(iterator) && exact_stmts(body),
        StmtV::While { cond, body } => exact_expr(cond) && exact_stmts(body),
        StmtV::Repeat { cond, body } => exact_expr(cond) && exact_stmts(body),
        StmtV::Call { func, args } => exact_expr(func) && exact_exprs(args),
        StmtV::MethodCall { obj, method, args } => exact_expr(obj) && exact_exprs(args),
        StmtV::TableSet { target, value } => exact_expr(target) && exact_expr(value),
        StmtV::LocalDeclMulti { names, expr } => exact_expr(expr),
    }
}

/// Whether statements hold no float.
pub open spec fn exact_stmts(s: Seq<StmtV>) -> bool
    decreases s,
{
    s.len() == 0 || (exact_stmt(s.last()) && exact_stmts(s.drop_last()))
}

/// Whether an expression holds no float.
pub open spec fn exact_expr(e: ExprV) -> bool
    decreases e,
{
    match e {
        ExprV::Float(_) => false,
        ExprV::BinOp { op, left, right } => exact_expr(*left) && exact_expr(*right),
        ExprV::Not(inner) => exact_expr(*inner),
        ExprV::And(left, right) => exact_expr(*left) && exact_expr(*right),
        ExprV::Or(left, right) => exact_expr(*left) && exact_expr(*right),
        ExprV::Call { func, args } => exact_expr(*func) && exact_exprs(args),
        ExprV::Field { obj, name } => exact_expr(*obj),
        ExprV::Index { obj, key } => exact_expr(*obj) && exact_expr(*key),
        ExprV::MethodCall { obj, method, args } => exact_expr(*obj) && exact_exprs(args),
        ExprV::Table { entries } => exact_entries(entries),
        ExprV::Len(inner) => exact_expr(*inner),
        ExprV::Function { params, body } => exact_stmts(body),
        _ => true,
    }
}

/// Whether expressions hold no float.
pub open spec fn exact_exprs(s: Seq<ExprV>) -> bool
    decreases s,
{
    s.len() == 0 || (exact_expr(s.last()) && exact_exprs(s.drop_last()))
}

/// Whether a table entry holds no float.
pub open spec fn exact_entry(e: TableEntryV) -> bool
    decreases e,
{
    match e {
        TableEntryV::Array(value) => exact_expr(value),
        TableEntryV::HashStr(key, value) => exact_expr(value),
        TableEntryV::HashExpr(key, value) => exact_expr(key) && exact_expr(value),
    }
}

/// Whether table entries hold no float.
pub open spec fn exact_entries(s: Seq<TableEntryV>) -> bool
    decreases s,
{
    s.len() == 0 || (exact_entry(s.last()) && exact_entries(s.drop_last()))
}

/// Statements without floats are the same exactly when they are equal.
pub proof fn law_same_statements_are_equal(a: StmtV, b: StmtV)
    requires
        exact_stmt(a),
    ensures
        same_stmt(a, b) <==> a == b,
    decreases a,
{
    match (a, b) {
        (
            StmtV::LocalDecl { name: _, expr: x },
            StmtV::LocalDecl { name: _, expr: y },
        ) => law_same_expressions_are_equal(x, y),
        (
            StmtV::Assign { name: _, expr: x },
            StmtV::Assign { name: _, expr: y },
        ) => law_same_expressions_are_equal(x, y),
        (StmtV::Return(Some(x)), StmtV::Return(Some(y))) => law_same_expressions_are_equal(x, y),
        (
            StmtV::If { cond: c, then_body: t, else_body: e },
            StmtV::If { cond: d, then_body: u, else_body: f },
        ) => {
            law_same_expressions_are_equal(c, d);
            lemma_same_stmts(t, u);
            if let (Some(x), Some(y)) = (e, f) {
                lemma_same_stmts(x, y);
            }
        },
        (
            StmtV::For { var: _, start: s1, stop: p1, step: t1, body: b1 },
            StmtV::For { var: _, start: s2, stop: p2, step: t2, body: b2 },
        ) => {
            law_same_expressions_are_equal(s1, s2);
            law_same_expressions_are_equal(p1, p2);
            if let (Some(x), Some(y)) = (t1, t2) {
                law_same_expressions_are_equal(x, y);
            }
            lemma_same_stmts(b1, b2);
        },
        (
            StmtV::ForIn { vars: _, iterator: x, body: b1 },
            StmtV::ForIn { vars: _, iterator: y, body: b2 },
        ) => {
            law_same_expressions_are_equal(x, y);
            lemma_same_stmts(b1, b2);
        },
        (StmtV::While { cond: x, body: b1 }, StmtV::While { cond: y, body: b2 }) => {
            law_same_expressions_are_equal(x, y);
            lemma_same_stmts(b1, b2);
        },
        (StmtV::Repeat { cond: x, body: b1 }, StmtV::Repeat { cond: y, body: b2 }) => {
            law_same_expressions_are_equal(x, y);
            lemma_same_stmts(b1, b2);
        },
        (StmtV::Call { func: x, args: xs }, StmtV::Call { func: y, args: ys }) => {
            law_same_expressions_are_equal(x, y);
            lemma_same_exprs(xs, ys);
        },
        (
            StmtV::MethodCall { obj: x, method: _, args: xs },
            StmtV::MethodCall { obj: y, method: _, args: ys },
        ) => {
            law_same_expressions_are_equal(x, y);
            lemma_same_exprs(xs, ys);
        },
        (
            StmtV::TableSet { target: x, value: v },
            StmtV::TableSet { target: y, value: w },
        ) => {
            law_same_expressions_are_equal(x, y);
            law_same_expressions_are_equal(v, w);
        },
        (
            StmtV::LocalDeclMulti { names: _, expr: x },
            StmtV::LocalDeclMulti { names: _, expr: y },
        ) => law_same_expressions_are_equal(x, y),
        _ => {},
    }
}

/// Expressions without floats are the same exactly when they are equal.
pub proof fn law_same_expressions_are_equal(a: ExprV, b: ExprV)
    requires
        exact_expr(a),
    ensures
        same_expr(a, b) <==> a == b,
    decreases a,
{
    match (a, b) {
        (
            ExprV::BinOp { op: _, left: x, right: v },
            ExprV::BinOp { op: _, left: y, right: w },
        ) => {
            law_same_expressions_are_equal(*x, *y);
            law_same_expressions_are_equal(*v, *w);
        },
        (ExprV::Not(x), ExprV::Not(y)) => law_same_expressions_are_equal(*x, *y),
        (ExprV::And(x, v), ExprV::And(y, w)) => {
            law_same_expressions_are_equal(*x, *y);
            law_same_expressions_are_equal(*v, *w);
        },
        (ExprV::Or(x, v), ExprV::Or(y, w)) => {
            law_same_expressions_are_equal(*x, *y);
            law_same_expressions_are_equal(*v, *w);
        },
        (ExprV::Call { func: x, args: xs }, ExprV::Call { func: y, args: ys }) => {
            law_same_expressions_are_equal(*x, *y);
            lemma_same_exprs(xs, ys);
        },
        (
            ExprV::Field { obj: x, name: _ },
            ExprV::Field { obj: y, name: _ },
        ) => law_same_expressions_are_equal(*x, *y),
        (ExprV::Index { obj: x, key: v }, ExprV::Index { obj: y, key: w }) => {
            law_same_expressions_are_equal(*x, *y);
            law_same_expressions_are_equal(*v, *w);
        },
        (
            ExprV::MethodCall { obj: x, method: _, args: xs },
            ExprV::MethodCall { obj: y, method: _, args: ys },
        ) => {
            law_same_expressions_are_equal(*x, *y);
            lemma_same_exprs(xs, ys);
        },
        (ExprV::Table { entries: xs }, ExprV::Table { entries: ys }) => lemma_same_entries(xs, ys),
        (ExprV::Len(x), ExprV::Len(y)) => law_same_expressions_are_equal(*x, *y),
        (
            ExprV::Function { params: _, body: xs },
            ExprV::Function { params: _, body: ys },
        ) => lemma_same_stmts(xs, ys),
        _ => {},
    }
}

proof fn lemma_same_stmts(a: Seq<StmtV>, b: Seq<StmtV>)
    requires
        exact_stmts(a),
    ensures
        same_stmts(a, b) <==> a == b,
    decreases a,
{
    if a.len() == 0 || b.len() == 0 {
        if a.len() == b.len() {
            assert(a =~= b);
        }
    } else {
        law_same_statements_are_equal(a.last(), b.last());
        lemma_same_stmts(a.drop_last(), b.drop_last());
        assert(a =~= a.drop_last().push(a.last()));
        assert(b =~= b.drop_last().push(b.last()));
    }
}

proof fn lemma_same_exprs(a: Seq<ExprV>, b: Seq<ExprV>)
    requires
        exact_exprs(a),
    ensures
        same_exprs(a, b) <==> a == b,
    decreases a,
{
    if a.len() == 0 || b.len() == 0 {
        if a.len() == b.len() {
            assert(a =~= b);
        }
    } else {
        law_same_expressions_are_equal(a.last(), b.last());
        lemma_same_exprs(a.drop_last(), b.drop_last());
        assert(a =~= a.drop_last().push(a.last()));
        assert(b =~= b.drop_last().push(b.last()));
    }
}

proof fn lemma_same_entry(a: TableEntryV, b: TableEntryV)
    requires
        exact_entry(a),
    ensures
        same_entry(a, b) <==> a == b,
    decreases a,
{
    match (a, b) {
        (TableEntryV::Array(x), TableEntryV::Array(y)) => law_same_expressions_are_equal(x, y),
        (
            TableEntryV::HashStr(_, x),
            TableEntryV::HashStr(_, y),
        ) => law_same_expressions_are_equal(x, y),
        (TableEntryV::HashExpr(k, x), TableEntryV::HashExpr(l, y)) => {
            law_same_expressions_are_equal(k, l);
            law_same_expressions_are_equal(x, y);
        },
        _ => {},
    }
}

proof fn lemma_same_entries(a: Seq<TableEntryV>, b: Seq<TableEntryV>)
    requires
        exact_entries(a),
    ensures
        same_entries(a, b) <==> a == b,
    decreases a,
{
    if a.len() == 0 || b.len() == 0 {
        if a.len() == b.len() {
            assert(a =~= b);
        }
    } else {
        lemma_same_entry(a.last(), b.last());
        lemma_same_entries(a.drop_last(), b.drop_last());
        assert(a =~= a.drop_last().push(a.last()));
        assert(b =~= b.drop_last().push(b.last()));
    }
}

/// Whether two byte strings are equal.
fn bytes_equal(a: &Vec<u8>, b: &Vec<u8>) -> (r: bool)
    ensures
        r == (a@ == b@),
{
    if a.len() != b.len() {
        return false;
    }
    let mut i: usize = 0;
    while i < a.len()
        invariant
            i <= a.len(),
            a.len() == b.len(),
            forall|k: int| 0 <= k < i ==> a@[k] == b@[k],
        decreases a.len() - i,
    {
        if a[i] != b[i] {
            return false;
        }
        i = i + 1;
    }
    assert(a@ =~= b@);
    true
}

/// Whether two lists of names are equal.
fn names_equal(a: &Vec<String>, b: &Vec<String>) -> (r: bool)
    ensures
        r == (text::views(a@) == text::views(b@)),
{
    if a.len() != b.len() {
        assert(text::views(a@).len() != text::views(b@).len());
        return false;
    }
    let mut i: usize = 0;
    while i < a.len()
        invariant
            i <= a.len(),
            a.len() == b.len(),
            forall|k: int| 0 <= k < i ==> (#[trigger] a@[k])@ == b@[k]@,
        decreases a.len() - i,
    {
        if a[i] != b[i] {
            assert(text::views(a@)[i as int] != text::views(b@)[i as int]);
            return false;
        }
        i = i + 1;
    }
    assert(text::views(a@) =~= text::views(b@));
    true
}

fn stmt_equal(a: &Stmt, b: &Stmt) -> (r: bool)
    ensures
        r == same_stmt(a@, b@),
    decreases a,
{
    match (a, b) {
        (
            Stmt::LocalDecl { name: name_a, expr: expr_a },
            Stmt::LocalDecl { name: name_b, expr: expr_b },
        ) => *name_a == *name_b && expr_equal(expr_a, expr_b),
        (
            Stmt::Assign { name: name_a, expr: expr_a },
            Stmt::Assign { name: name_b, expr: expr_b },
        ) => *name_a == *name_b && expr_equal(expr_a, expr_b),
        (Stmt::Return(a0), Stmt::Return(b0)) => match (a0, b0) {
            (Some(x), Some(y)) => expr_equal(x, y),
            (None, None) => true,
            _ => false,
        },
        (
            Stmt::If { cond: cond_a, then_body: then_body_a, else_body: else_body_a },
            Stmt::If { cond: cond_b, then_body: then_body_b, else_body: else_body_b },
        ) => {
            expr_equal(cond_a, cond_b)
                && stmts_equal(then_body_a, then_body_b)
                && (match (else_body_a, else_body_b) {
                    (Some(x), Some(y)) => stmts_equal(x, y),
                    (None, None) => true,
                    _ => false,
                })
        },
        (
            Stmt::For { var: var_a, start: start_a, stop: stop_a, step: step_a, body: body_a },
            Stmt::For { var: var_b, start: start_b, stop: stop_b, step: step_b, body: body_b },
        ) => {
            *var_a == *var_b
                && expr_equal(start_a, start_b)
                && expr_equal(stop_a, stop_b)
                && (match (step_a, step_b) {
                    (Some(x), Some(y)) => expr_equal(x, y),
                    (None, None) => true,
                    _ => false,
                })
                && stmts_equal(body_a, body_b)
        },
        (
            Stmt::ForIn { vars: vars_a, iterator: iterator_a, body: body_a },
            Stmt::ForIn { vars: vars_b, iterator: iterator_b, body: body_b },
        ) => {
            names_equal(vars_a, vars_b)
                && expr_equal(iterator_a, iterator_b)
                && stmts_equal(body_a, body_b)
        },
        (
            Stmt::While { cond: cond_a, body: body_a },
            Stmt::While { cond: cond_b, body: body_b },
        ) => expr_equal(cond_a, cond_b) && stmts_equal(body_a, body_b),
        (
            Stmt::Repeat { cond: cond_a, body: body_a },
            Stmt::Repeat { cond: cond_b, body: body_b },
        ) => expr_equal(cond_a, cond_b) && stmts_equal(body_a, body_b),
        (Stmt::Call { func: func_a, args: args_a }, Stmt::Call { func: func_b, args: args_b }) => {
            expr_equal(func_a, func_b) && exprs_equal(args_a, args_b)
        },
        (
            Stmt::MethodCall { obj: obj_a, method: method_a, args: args_a },
            Stmt::MethodCall { obj: obj_b, method: method_b, args: args_b },
        ) => expr_equal(obj_a, obj_b) && *method_a == *method_b && exprs_equal(args_a, args_b),
        (
            Stmt::TableSet { target: target_a, value: value_a },
            Stmt::TableSet { target: target_b, value: value_b },
        ) => expr_equal(target_a, target_b) && expr_equal(value_a, value_b),
        (
            Stmt::LocalDeclMulti { names: names_a, expr: expr_a },
            Stmt::LocalDeclMulti { names: names_b, expr: expr_b },
        ) => names_equal(names_a, names_b) && expr_equal(expr_a, expr_b),
        _ => false,
    }
}

fn stmts_equal(a: &Vec<Stmt>, b: &Vec<Stmt>) -> (r: bool)
    ensures
        r == same_stmts(ast::stmts_v(a@), ast::stmts_v(b@)),
    decreases a,
{
    proof {
        ast::lemma_stmts_v(a@);
        ast::lemma_stmts_v(b@);
    }
    if a.len() != b.len() {
        proof {
            lemma_same_stmts_len(ast::stmts_v(a@), ast::stmts_v(b@));
        }
        return false;
    }
    let mut n: usize = a.len();
    proof {
        assert(a@.take(n as int) =~= a@);
        assert(b@.take(n as int) =~= b@);
    }
    while n > 0
        invariant
            n <= a.len(),
            a.len() == b.len(),
            same_stmts(ast::stmts_v(a@), ast::stmts_v(b@)) == same_stmts(
                ast::stmts_v(a@.take(n as int)),
                ast::stmts_v(b@.take(n as int)),
            ),
        decreases n,
    {
        n = n - 1;
        proof {
            assert(decreases_to!(a => a@[n as int]));
            assert(a@.take(n + 1).drop_last() =~= a@.take(n as int));
            assert(b@.take(n + 1).drop_last() =~= b@.take(n as int));
            ast::lemma_stmts_v(a@.take(n as int));
            ast::lemma_stmts_v(b@.take(n as int));
            assert(ast::stmts_v(a@.take(n + 1)).drop_last() =~= ast::stmts_v(a@.take(n as int)));
            assert(ast::stmts_v(b@.take(n + 1)).drop_last() =~= ast::stmts_v(b@.take(n as int)));
        }
        if !stmt_equal(&a[n], &b[n]) {
            return false;
        }
    }
    true
}

/// Equal sequences of statements have equal lengths.
proof fn lemma_same_stmts_len(a: Seq<StmtV>, b: Seq<StmtV>)
    ensures
        same_stmts(a, b) ==> a.len() == b.len(),
    decreases a.len(),
{
    if a.len() > 0 && b.len() > 0 {
        lemma_same_stmts_len(a.drop_last(), b.drop_last());
    }
}

fn expr_equal(a: &Expr, b: &Expr) -> (r: bool)
    ensures
        r == same_expr(a@, b@),
    decreases a,
{
    match (a, b) {
        (Expr::Var(a0), Expr::Var(b0)) => *a0 == *b0,
        (Expr::Int(a0), Expr::Int(b0)) => *a0 == *b0,
        (Expr::Float(a0), Expr::Float(b0)) => number::floats_equal(*a0, *b0),
        (Expr::Str(a0), Expr::Str(b0)) => bytes_equal(a0, b0),
        (Expr::Nil, Expr::Nil) => true,
        (Expr::True, Expr::True) => true,
        (Expr::False, Expr::False) => true,
        (
            Expr::BinOp { op: op_a, left: left_a, right: right_a },
            Expr::BinOp { op: op_b, left: left_b, right: right_b },
        ) => *op_a == *op_b && expr_equal(left_a, left_b) && expr_equal(right_a, right_b),
        (Expr::Not(a0), Expr::Not(b0)) => expr_equal(a0, b0),
        (Expr::Global(a0), Expr::Global(b0)) => *a0 == *b0,
        (Expr::And(a0, a1), Expr::And(b0, b1)) => expr_equal(a0, b0) && expr_equal(a1, b1),
        (Expr::Or(a0, a1), Expr::Or(b0, b1)) => expr_equal(a0, b0) && expr_equal(a1, b1),
        (Expr::Call { func: func_a, args: args_a }, Expr::Call { func: func_b, args: args_b }) => {
            expr_equal(func_a, func_b) && exprs_equal(args_a, args_b)
        },
        (Expr::Field { obj: obj_a, name: name_a }, Expr::Field { obj: obj_b, name: name_b }) => {
            expr_equal(obj_a, obj_b) && *name_a == *name_b
        },
        (Expr::Index { obj: obj_a, key: key_a }, Expr::Index { obj: obj_b, key: key_b }) => {
            expr_equal(obj_a, obj_b) && expr_equal(key_a, key_b)
        },
        (
            Expr::MethodCall { obj: obj_a, method: method_a, args: args_a },
            Expr::MethodCall { obj: obj_b, method: method_b, args: args_b },
        ) => expr_equal(obj_a, obj_b) && *method_a == *method_b && exprs_equal(args_a, args_b),
        (Expr::Table { entries: entries_a }, Expr::Table { entries: entries_b }) => {
            entries_equal(entries_a, entries_b)
        },
        (Expr::Len(a0), Expr::Len(b0)) => expr_equal(a0, b0),
        (
            Expr::Function { params: params_a, body: body_a },
            Expr::Function { params: params_b, body: body_b },
        ) => names_equal(params_a, params_b) && stmts_equal(body_a, body_b),
        (Expr::Vararg, Expr::Vararg) => true,
        _ => false,
    }
}

fn exprs_equal(a: &Vec<Expr>, b: &Vec<Expr>) -> (r: bool)
    ensures
        r == same_exprs(ast::exprs_v(a@), ast::exprs_v(b@)),
    decreases a,
{
    proof {
        ast::lemma_exprs_v(a@);
        ast::lemma_exprs_v(b@);
    }
    if a.len() != b.len() {
        proof {
            lemma_same_exprs_len(ast::exprs_v(a@), ast::exprs_v(b@));
        }
        return false;
    }
    let mut n: usize = a.len();
    proof {
        assert(a@.take(n as int) =~= a@);
        assert(b@.take(n as int) =~= b@);
    }
    while n > 0
        invariant
            n <= a.len(),
            a.len() == b.len(),
            same_exprs(ast::exprs_v(a@), ast::exprs_v(b@)) == same_exprs(
                ast::exprs_v(a@.take(n as int)),
                ast::exprs_v(b@.take(n as int)),
            ),
        decreases n,
    {
        n = n - 1;
        proof {
            assert(decreases_to!(a => a@[n as int]));
            assert(a@.take(n + 1).drop_last() =~= a@.take(n as int));
            assert(b@.take(n + 1).drop_last() =~= b@.take(n as int));
            ast::lemma_exprs_v(a@.take(n as int));
            ast::lemma_exprs_v(b@.take(n as int));
            assert(ast::exprs_v(a@.take(n + 1)).drop_last() =~= ast::exprs_v(a@.take(n as int)));
            assert(ast::exprs_v(b@.take(n + 1)).drop_last() =~= ast::exprs_v(b@.take(n as int)));
        }
        if !expr_equal(&a[n], &b[n]) {
            return false;
        }
    }
    true
}

/// Equal sequences of expressions have equal lengths.
proof fn lemma_same_exprs_len(a: Seq<ExprV>, b: Seq<ExprV>)
    ensures
        same_exprs(a, b) ==> a.len() == b.len(),
    decreases a.len(),
{
    if a.len() > 0 && b.len() > 0 {
        lemma_same_exprs_len(a.drop_last(), b.drop_last());
    }
}

fn entry_equal(a: &TableEntry, b: &TableEntry) -> (r: bool)
    ensures
        r == same_entry(a@, b@),
    decreases a,
{
    match (a, b) {
        (TableEntry::Array(a0), TableEntry::Array(b0)) => expr_equal(a0, b0),
        (TableEntry::HashStr(a0, a1), TableEntry::HashStr(b0, b1)) => {
            *a0 == *b0 && expr_equal(a1, b1)
        },
        (TableEntry::HashExpr(a0, a1), TableEntry::HashExpr(b0, b1)) => {
            expr_equal(a0, b0) && expr_equal(a1, b1)
        },
        _ => false,
    }
}

fn entries_equal(a: &Vec<TableEntry>, b: &Vec<TableEntry>) -> (r: bool)
    ensures
        r == same_entries(ast::entries_v(a@), ast::entries_v(b@)),
    decreases a,
{
    proof {
        ast::lemma_entries_v(a@);
        ast::lemma_entries_v(b@);
    }
    if a.len() != b.len() {
        proof {
            lemma_same_entries_len(ast::entries_v(a@), ast::entries_v(b@));
        }
        return false;
    }
    let mut n: usize = a.len();
    proof {
        assert(a@.take(n as int) =~= a@);
        assert(b@.take(n as int) =~= b@);
    }
    while n > 0
        invariant
            n <= a.len(),
            a.len() == b.len(),
            same_entries(ast::entries_v(a@), ast::entries_v(b@)) == same_entries(
                ast::entries_v(a@.take(n as int)),
                ast::entries_v(b@.take(n as int)),
            ),
        decreases n,
    {
        n = n - 1;
        proof {
            assert(decreases_to!(a => a@[n as int]));
            assert(a@.take(n + 1).drop_last() =~= a@.take(n as int));
            assert(b@.take(n + 1).drop_last() =~= b@.take(n as int));
            ast::lemma_entries_v(a@.take(n as int));
            ast::lemma_entries_v(b@.take(n as int));
            assert(ast::entries_v(a@.take(n + 1)).drop_last() =~= ast::entries_v(
                a@.take(n as int),
            ));
            assert(ast::entries_v(b@.take(n + 1)).drop_last() =~= ast::entries_v(
                b@.take(n as int),
            ));
        }
        if !entry_equal(&a[n], &b[n]) {
            return false;
        }
    }
    true
}

/// Equal sequences of table entries have equal lengths.
proof fn lemma_same_entries_len(a: Seq<TableEntryV>, b: Seq<TableEntryV>)
    ensures
        same_entries(a, b) ==> a.len() == b.len(),
    decreases a.len(),
{
    if a.len() > 0 && b.len() > 0 {
        lemma_same_entries_len(a.drop_last(), b.drop_last());
    }
}

impl PartialEq for Stmt {
    fn eq(&self, other: &Stmt) -> (r: bool) {
        stmt_equal(self, other)
    }
}

impl vstd::std_specs::cmp::PartialEqSpecImpl for Stmt {
    open spec fn obeys_eq_spec() -> bool {
        true
    }

    open spec fn eq_spec(&self, other: &Stmt) -> bool {
        same_stmt(self@, other@)
    }
}

impl PartialEq for Expr {
    fn eq(&self, other: &Expr) -> (r: bool) {
        expr_equal(self, other)
    }
}

impl vstd::std_specs::cmp::PartialEqSpecImpl for Expr {
    open spec fn obeys_eq_spec() -> bool {
        true
    }

    open spec fn eq_spec(&self, other: &Expr) -> bool {
        same_expr(self@, other@)
    }
}

impl PartialEq for TableEntry {
    fn eq(&self, other: &TableEntry) -> (r: bool) {
        entry_equal(self, other)
    }
}

impl vstd::std_specs::cmp::PartialEqSpecImpl for TableEntry {
    open spec fn obeys_eq_spec() -> bool {
        true
    }

    open spec fn eq_spec(&self, other: &TableEntry) -> bool {
        same_entry(self@, other@)
    }
}

} // verus!
