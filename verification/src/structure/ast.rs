//! The recovered source tree: statements, expressions, table entries.
//!
//! Each type has a mathematical counterpart, with sequences in place of
//! vectors and strings, over which the contracts of recovery and
//! emission are stated.

use vstd::prelude::*;

use crate::text;

verus! {

/// A Lua source-level statement.
#[derive(Debug)]
pub enum Stmt {
    /// `local name = expr` (fresh declaration).
    LocalDecl { name: String, expr: Expr },
    /// `name = expr` (reassignment; no `local`).
    Assign { name: String, expr: Expr },
    /// `return expr` (Some) or implicit `return` (None: emits no line;
    /// the source chunk just ends).
    Return(Option<Expr>),
    /// `if cond then then_body [else else_body] end`.
    If { cond: Expr, then_body: Vec<Stmt>, else_body: Option<Vec<Stmt>> },
    /// `for var = start, stop[, step] do body end`. When `step` is
    /// `None` the source omitted it (default step of 1).
    For { var: String, start: Expr, stop: Expr, step: Option<Expr>, body: Vec<Stmt> },
    /// `for k[, v[, ...]] in iterator do body end`. `vars` holds the
    /// visible loop variable names in source order; `iterator` is the
    /// call expression that produces the iterator triple.
    ForIn { vars: Vec<String>, iterator: Expr, body: Vec<Stmt> },
    /// `while cond do body end`. The condition is the complement of the
    /// ISxx test.
    While { cond: Expr, body: Vec<Stmt> },
    /// `repeat body until cond`. The condition is the complement of the
    /// ISxx test, which is the exit condition.
    Repeat { cond: Expr, body: Vec<Stmt> },
    /// A bare function call whose result is discarded.
    Call { func: Expr, args: Vec<Expr> },
    /// A bare method call whose result is discarded.
    MethodCall { obj: Expr, method: String, args: Vec<Expr> },
    /// A table-field or table-index assignment: `t.x = value` or
    /// `t[k] = value`.
    TableSet { target: Expr, value: Expr },
    /// `local a, b, c = expr`: multi-name local declaration.
    LocalDeclMulti { names: Vec<String>, expr: Expr },
}

/// A Lua expression.
#[derive(Debug)]
pub enum Expr {
    /// A named local, or any value resolved back to its source name.
    Var(String),
    /// A signed 32-bit integer literal.
    Int(i32),
    /// A floating-point literal, as the bit pattern of a double.
    Float(u64),
    /// A string literal. Raw bytes; the format does not guarantee UTF-8.
    Str(Vec<u8>),
    Nil,
    True,
    False,
    /// A binary operator application.
    BinOp { op: BinOpKind, left: Box<Expr>, right: Box<Expr> },
    /// Logical negation `not expr`.
    Not(Box<Expr>),
    /// A global variable reference.
    Global(String),
    /// `left and right`.
    And(Box<Expr>, Box<Expr>),
    /// `left or right`.
    Or(Box<Expr>, Box<Expr>),
    /// A function call `func(args...)`.
    Call { func: Box<Expr>, args: Vec<Expr> },
    /// `obj.field`: table access via string key.
    Field { obj: Box<Expr>, name: String },
    /// `obj[key]`: table index access.
    Index { obj: Box<Expr>, key: Box<Expr> },
    /// `obj:method(args...)`: method call with implicit self, which is
    /// not among the arguments.
    MethodCall { obj: Box<Expr>, method: String, args: Vec<Expr> },
    /// A table literal.
    Table { entries: Vec<TableEntry> },
    /// The length operator `#expr`.
    Len(Box<Expr>),
    /// A function literal `function(params) body end`.
    Function { params: Vec<String>, body: Vec<Stmt> },
    /// The vararg expression `...`.
    Vararg,
}

/// A table entry in a table literal.
#[derive(Debug)]
pub enum TableEntry {
    /// Positional array entry: `val`.
    Array(Expr),
    /// String-keyed hash entry: `key = val`.
    HashStr(String, Expr),
    /// Expression-keyed hash entry: `[key] = val`.
    HashExpr(Expr, Expr),
}

/// The binary operator kind attached to [`Expr::BinOp`].
#[derive(Copy, Clone, Debug, PartialEq, Eq, Structural)]
pub enum BinOpKind {
    Add,
    Sub,
    Mul,
    Div,
    Mod,
    Pow,
    Concat,
    /// `==`.
    Equal,
    /// `~=`.
    NotEqual,
    /// `<`.
    LessThan,
    /// `>`.
    GreaterThan,
    /// `<=`.
    LessEqual,
    /// `>=`.
    GreaterEqual,
}

// ---- Mathematical counterparts -----------------------------------------

/// The mathematical value of a [`Stmt`].
pub enum StmtV {
    LocalDecl { name: Seq<char>, expr: ExprV },
    Assign { name: Seq<char>, expr: ExprV },
    Return(Option<ExprV>),
    If { cond: ExprV, then_body: Seq<StmtV>, else_body: Option<Seq<StmtV>> },
    For { var: Seq<char>, start: ExprV, stop: ExprV, step: Option<ExprV>, body: Seq<StmtV> },
    ForIn { vars: Seq<Seq<char>>, iterator: ExprV, body: Seq<StmtV> },
    While { cond: ExprV, body: Seq<StmtV> },
    Repeat { cond: ExprV, body: Seq<StmtV> },
    Call { func: ExprV, args: Seq<ExprV> },
    MethodCall { obj: ExprV, method: Seq<char>, args: Seq<ExprV> },
    TableSet { target: ExprV, value: ExprV },
    LocalDeclMulti { names: Seq<Seq<char>>, expr: ExprV },
}

/// The mathematical value of an [`Expr`].
pub enum ExprV {
    Var(Seq<char>),
    Int(i32),
    Float(u64),
    Str(Seq<u8>),
    Nil,
    True,
    False,
    BinOp { op: BinOpKind, left: Box<ExprV>, right: Box<ExprV> },
    Not(Box<ExprV>),
    Global(Seq<char>),
    And(Box<ExprV>, Box<ExprV>),
    Or(Box<ExprV>, Box<ExprV>),
    Call { func: Box<ExprV>, args: Seq<ExprV> },
    Field { obj: Box<ExprV>, name: Seq<char> },
    Index { obj: Box<ExprV>, key: Box<ExprV> },
    MethodCall { obj: Box<ExprV>, method: Seq<char>, args: Seq<ExprV> },
    Table { entries: Seq<TableEntryV> },
    Len(Box<ExprV>),
    Function { params: Seq<Seq<char>>, body: Seq<StmtV> },
    Vararg,
}

/// The mathematical value of a [`TableEntry`].
pub enum TableEntryV {
    Array(ExprV),
    HashStr(Seq<char>, ExprV),
    HashExpr(ExprV, ExprV),
}

/// The value of a statement.
pub open spec fn stmt_v(s: Stmt) -> StmtV
    decreases s,
{
    match s {
        Stmt::LocalDecl { name, expr } => StmtV::LocalDecl { name: name@, expr: expr_v(expr) },
        Stmt::Assign { name, expr } => StmtV::Assign { name: name@, expr: expr_v(expr) },
        Stmt::Return(value) => StmtV::Return(
            match value {
                Some(e) => Some(expr_v(e)),
                None => None,
            },
        ),
        Stmt::If { cond, then_body, else_body } => StmtV::If {
            cond: expr_v(cond),
            then_body: stmts_v(then_body@),
            else_body: match else_body {
                Some(b) => Some(stmts_v(b@)),
                None => None,
            },
        },
        Stmt::For { var, start, stop, step, body } => StmtV::For {
            var: var@,
            start: expr_v(start),
            stop: expr_v(stop),
            step: match step {
                Some(e) => Some(expr_v(e)),
                None => None,
            },
            body: stmts_v(body@),
        },
        Stmt::ForIn { vars, iterator, body } => StmtV::ForIn {
            vars: text::views(vars@),
            iterator: expr_v(iterator),
            body: stmts_v(body@),
        },
        Stmt::While { cond, body } => StmtV::While { cond: expr_v(cond), body: stmts_v(body@) },
        Stmt::Repeat { cond, body } => StmtV::Repeat { cond: expr_v(cond), body: stmts_v(body@) },
        Stmt::Call { func, args } => StmtV::Call { func: expr_v(func), args: exprs_v(args@) },
        Stmt::MethodCall { obj, method, args } => StmtV::MethodCall {
            obj: expr_v(obj),
            method: method@,
            args: exprs_v(args@),
        },
        Stmt::TableSet { target, value } => StmtV::TableSet {
            target: expr_v(target),
            value: expr_v(value),
        },
        Stmt::LocalDeclMulti { names, expr } => StmtV::LocalDeclMulti {
            names: text::views(names@),
            expr: expr_v(expr),
        },
    }
}

/// The values of a sequence of statements.
pub open spec fn stmts_v(s: Seq<Stmt>) -> Seq<StmtV>
    decreases s,
{
    if s.len() == 0 {
        seq![]
    } else {
        stmts_v(s.drop_last()).push(stmt_v(s.last()))
    }
}

/// The value of an expression.
pub open spec fn expr_v(e: Expr) -> ExprV
    decreases e,
{
    match e {
        Expr::Var(name) => ExprV::Var(name@),
        Expr::Int(i) => ExprV::Int(i),
        Expr::Float(bits) => ExprV::Float(bits),
        Expr::Str(bytes) => ExprV::Str(bytes@),
        Expr::Nil => ExprV::Nil,
        Expr::True => ExprV::True,
        Expr::False => ExprV::False,
        Expr::BinOp { op, left, right } => ExprV::BinOp {
            op,
            left: Box::new(expr_v(*left)),
            right: Box::new(expr_v(*right)),
        },
        Expr::Not(inner) => ExprV::Not(Box::new(expr_v(*inner))),
        Expr::Global(name) => ExprV::Global(name@),
        Expr::And(left, right) => ExprV::And(Box::new(expr_v(*left)), Box::new(expr_v(*right))),
        Expr::Or(left, right) => ExprV::Or(Box::new(expr_v(*left)), Box::new(expr_v(*right))),
        Expr::Call { func, args } => ExprV::Call {
            func: Box::new(expr_v(*func)),
            args: exprs_v(args@),
        },
        Expr::Field { obj, name } => ExprV::Field { obj: Box::new(expr_v(*obj)), name: name@ },
        Expr::Index { obj, key } => ExprV::Index {
            obj: Box::new(expr_v(*obj)),
            key: Box::new(expr_v(*key)),
        },
        Expr::MethodCall { obj, method, args } => ExprV::MethodCall {
            obj: Box::new(expr_v(*obj)),
            method: method@,
            args: exprs_v(args@),
        },
        Expr::Table { entries } => ExprV::Table { entries: entries_v(entries@) },
        Expr::Len(inner) => ExprV::Len(Box::new(expr_v(*inner))),
        Expr::Function { params, body } => ExprV::Function {
            params: text::views(params@),
            body: stmts_v(body@),
        },
        Expr::Vararg => ExprV::Vararg,
    }
}

/// The values of a sequence of expressions.
pub open spec fn exprs_v(s: Seq<Expr>) -> Seq<ExprV>
    decreases s,
{
    if s.len() == 0 {
        seq![]
    } else {
        exprs_v(s.drop_last()).push(expr_v(s.last()))
    }
}

/// The value of a table entry.
pub open spec fn entry_v(e: TableEntry) -> TableEntryV
    decreases e,
{
    match e {
        TableEntry::Array(value) => TableEntryV::Array(expr_v(value)),
        TableEntry::HashStr(key, value) => TableEntryV::HashStr(key@, expr_v(value)),
        TableEntry::HashExpr(key, value) => TableEntryV::HashExpr(expr_v(key), expr_v(value)),
    }
}

/// The values of a sequence of table entries.
pub open spec fn entries_v(s: Seq<TableEntry>) -> Seq<TableEntryV>
    decreases s,
{
    if s.len() == 0 {
        seq![]
    } else {
        entries_v(s.drop_last()).push(entry_v(s.last()))
    }
}

impl View for Stmt {
    type V = StmtV;

    open spec fn view(&self) -> StmtV {
        stmt_v(*self)
    }
}

impl View for Expr {
    type V = ExprV;

    open spec fn view(&self) -> ExprV {
        expr_v(*self)
    }
}

impl View for TableEntry {
    type V = TableEntryV;

    open spec fn view(&self) -> TableEntryV {
        entry_v(*self)
    }
}

/// The values of statements, one by one.
pub proof fn lemma_stmts_v(s: Seq<Stmt>)
    ensures
        stmts_v(s) == text::views(s),
    decreases s.len(),
{
    if s.len() > 0 {
        lemma_stmts_v(s.drop_last());
    }
    assert(stmts_v(s) =~= text::views(s));
}

/// The values of expressions, one by one.
pub proof fn lemma_exprs_v(s: Seq<Expr>)
    ensures
        exprs_v(s) == text::views(s),
    decreases s.len(),
{
    if s.len() > 0 {
        lemma_exprs_v(s.drop_last());
    }
    assert(exprs_v(s) =~= text::views(s));
}

/// The values of table entries, one by one.
pub proof fn lemma_entries_v(s: Seq<TableEntry>)
    ensures
        entries_v(s) == text::views(s),
    decreases s.len(),
{
    if s.len() > 0 {
        lemma_entries_v(s.drop_last());
    }
    assert(entries_v(s) =~= text::views(s));
}

/// Appending a statement appends its value.
pub proof fn lemma_stmts_push(s: Seq<Stmt>, x: Stmt)
    ensures
        stmts_v(s.push(x)) == stmts_v(s).push(x@),
{
    assert(s.push(x).drop_last() =~= s);
}

/// Appending an expression appends its value.
pub proof fn lemma_exprs_push(s: Seq<Expr>, x: Expr)
    ensures
        exprs_v(s.push(x)) == exprs_v(s).push(x@),
{
    assert(s.push(x).drop_last() =~= s);
}

/// Appending a table entry appends its value.
pub proof fn lemma_entries_push(s: Seq<TableEntry>, x: TableEntry)
    ensures
        entries_v(s.push(x)) == entries_v(s).push(x@),
{
    assert(s.push(x).drop_last() =~= s);
}

// ---- Copies ---------------------------------------------------------------

/// A copy of a list of names.
pub fn copy_names(names: &Vec<String>) -> (out: Vec<String>)
    ensures
        text::views(out@) == text::views(names@),
{
    let mut out: Vec<String> = Vec::new();
    let mut i: usize = 0;
    while i < names.len()
        invariant
            i <= names.len(),
            out@.len() == i,
            forall|k: int| 0 <= k < i ==> (#[trigger] out@[k])@ == names@[k]@,
        decreases names.len() - i,
    {
        out.push(names[i].clone());
        i = i + 1;
    }
    assert(text::views(out@) =~= text::views(names@));
    out
}

/// A copy of a byte string.
pub fn copy_bytes(bytes: &Vec<u8>) -> (out: Vec<u8>)
    ensures
        out@ == bytes@,
{
    vstd::slice::slice_to_vec(bytes.as_slice())
}

/// A copy of a statement.
fn copy_stmt(s: &Stmt) -> (out: Stmt)
    ensures
        out@ == s@,
    decreases s,
{
    match s {
        Stmt::LocalDecl { name, expr } => Stmt::LocalDecl {
            name: name.clone(),
            expr: copy_expr(expr),
        },
        Stmt::Assign { name, expr } => Stmt::Assign { name: name.clone(), expr: copy_expr(expr) },
        Stmt::Return(value) => match value {
            Some(e) => Stmt::Return(Some(copy_expr(e))),
            None => Stmt::Return(None),
        },
        Stmt::If { cond, then_body, else_body } => {
            let else_copy = match else_body {
                Some(b) => Some(copy_stmts(b)),
                None => None,
            };
            Stmt::If {
                cond: copy_expr(cond),
                then_body: copy_stmts(then_body),
                else_body: else_copy,
            }
        },
        Stmt::For { var, start, stop, step, body } => {
            let step_copy = match step {
                Some(e) => Some(copy_expr(e)),
                None => None,
            };
            Stmt::For {
                var: var.clone(),
                start: copy_expr(start),
                stop: copy_expr(stop),
                step: step_copy,
                body: copy_stmts(body),
            }
        },
        Stmt::ForIn { vars, iterator, body } => Stmt::ForIn {
            vars: copy_names(vars),
            iterator: copy_expr(iterator),
            body: copy_stmts(body),
        },
        Stmt::While { cond, body } => Stmt::While { cond: copy_expr(cond), body: copy_stmts(body) },
        Stmt::Repeat { cond, body } => Stmt::Repeat {
            cond: copy_expr(cond),
            body: copy_stmts(body),
        },
        Stmt::Call { func, args } => Stmt::Call { func: copy_expr(func), args: copy_exprs(args) },
        Stmt::MethodCall { obj, method, args } => Stmt::MethodCall {
            obj: copy_expr(obj),
            method: method.clone(),
            args: copy_exprs(args),
        },
        Stmt::TableSet { target, value } => Stmt::TableSet {
            target: copy_expr(target),
            value: copy_expr(value),
        },
        Stmt::LocalDeclMulti { names, expr } => Stmt::LocalDeclMulti {
            names: copy_names(names),
            expr: copy_expr(expr),
        },
    }
}

/// A copy of a list of statements.
fn copy_stmts(v: &Vec<Stmt>) -> (out: Vec<Stmt>)
    ensures
        stmts_v(out@) == stmts_v(v@),
    decreases v,
{
    let mut out: Vec<Stmt> = Vec::new();
    let mut i: usize = 0;
    proof {
        assert(v@.take(0) =~= seq![]);
    }
    while i < v.len()
        invariant
            i <= v.len(),
            stmts_v(out@) == stmts_v(v@.take(i as int)),
        decreases v.len() - i,
    {
        proof {
            assert(decreases_to!(v => v@[i as int]));
        }
        let c = copy_stmt(&v[i]);
        proof {
            lemma_stmts_push(out@, c);
            assert(v@.take(i + 1) =~= v@.take(i as int).push(v@[i as int]));
            lemma_stmts_push(v@.take(i as int), v@[i as int]);
        }
        out.push(c);
        i = i + 1;
    }
    assert(v@.take(i as int) =~= v@);
    out
}

/// A copy of an expression.
fn copy_expr(e: &Expr) -> (out: Expr)
    ensures
        out@ == e@,
    decreases e,
{
    match e {
        Expr::Var(name) => Expr::Var(name.clone()),
        Expr::Int(i) => Expr::Int(*i),
        Expr::Float(bits) => Expr::Float(*bits),
        Expr::Str(bytes) => Expr::Str(copy_bytes(bytes)),
        Expr::Nil => Expr::Nil,
        Expr::True => Expr::True,
        Expr::False => Expr::False,
        Expr::BinOp { op, left, right } => Expr::BinOp {
            op: *op,
            left: Box::new(copy_expr(left)),
            right: Box::new(copy_expr(right)),
        },
        Expr::Not(inner) => Expr::Not(Box::new(copy_expr(inner))),
        Expr::Global(name) => Expr::Global(name.clone()),
        Expr::And(left, right) => Expr::And(Box::new(copy_expr(left)), Box::new(copy_expr(right))),
        Expr::Or(left, right) => Expr::Or(Box::new(copy_expr(left)), Box::new(copy_expr(right))),
        Expr::Call { func, args } => Expr::Call {
            func: Box::new(copy_expr(func)),
            args: copy_exprs(args),
        },
        Expr::Field { obj, name } => Expr::Field {
            obj: Box::new(copy_expr(obj)),
            name: name.clone(),
        },
        Expr::Index { obj, key } => Expr::Index {
            obj: Box::new(copy_expr(obj)),
            key: Box::new(copy_expr(key)),
        },
        Expr::MethodCall { obj, method, args } => Expr::MethodCall {
            obj: Box::new(copy_expr(obj)),
            method: method.clone(),
            args: copy_exprs(args),
        },
        Expr::Table { entries } => Expr::Table { entries: copy_entries(entries) },
        Expr::Len(inner) => Expr::Len(Box::new(copy_expr(inner))),
        Expr::Function { params, body } => Expr::Function {
            params: copy_names(params),
            body: copy_stmts(body),
        },
        Expr::Vararg => Expr::Vararg,
    }
}

/// A copy of a list of expressions.
fn copy_exprs(v: &Vec<Expr>) -> (out: Vec<Expr>)
    ensures
        exprs_v(out@) == exprs_v(v@),
    decreases v,
{
    let mut out: Vec<Expr> = Vec::new();
    let mut i: usize = 0;
    proof {
        assert(v@.take(0) =~= seq![]);
    }
    while i < v.len()
        invariant
            i <= v.len(),
            exprs_v(out@) == exprs_v(v@.take(i as int)),
        decreases v.len() - i,
    {
        proof {
            assert(decreases_to!(v => v@[i as int]));
        }
        let c = copy_expr(&v[i]);
        proof {
            lemma_exprs_push(out@, c);
            assert(v@.take(i + 1) =~= v@.take(i as int).push(v@[i as int]));
            lemma_exprs_push(v@.take(i as int), v@[i as int]);
        }
        out.push(c);
        i = i + 1;
    }
    assert(v@.take(i as int) =~= v@);
    out
}

/// A copy of a table entry.
fn copy_entry(e: &TableEntry) -> (out: TableEntry)
    ensures
        out@ == e@,
    decreases e,
{
    match e {
        TableEntry::Array(value) => TableEntry::Array(copy_expr(value)),
        TableEntry::HashStr(key, value) => TableEntry::HashStr(key.clone(), copy_expr(value)),
        TableEntry::HashExpr(key, value) => TableEntry::HashExpr(copy_expr(key), copy_expr(value)),
    }
}

/// A copy of a list of table entries.
fn copy_entries(v: &Vec<TableEntry>) -> (out: Vec<TableEntry>)
    ensures
        entries_v(out@) == entries_v(v@),
    decreases v,
{
    let mut out: Vec<TableEntry> = Vec::new();
    let mut i: usize = 0;
    proof {
        assert(v@.take(0) =~= seq![]);
    }
    while i < v.len()
        invariant
            i <= v.len(),
            entries_v(out@) == entries_v(v@.take(i as int)),
        decreases v.len() - i,
    {
        proof {
            assert(decreases_to!(v => v@[i as int]));
        }
        let c = copy_entry(&v[i]);
        proof {
            lemma_entries_push(out@, c);
            assert(v@.take(i + 1) =~= v@.take(i as int).push(v@[i as int]));
            lemma_entries_push(v@.take(i as int), v@[i as int]);
        }
        out.push(c);
        i = i + 1;
    }
    assert(v@.take(i as int) =~= v@);
    out
}

impl Clone for Stmt {
    fn clone(&self) -> (out: Self)
        ensures
            out@ == self@,
    {
        copy_stmt(self)
    }
}

impl Clone for Expr {
    fn clone(&self) -> (out: Self)
        ensures
            out@ == self@,
    {
        copy_expr(self)
    }
}

impl Clone for TableEntry {
    fn clone(&self) -> (out: Self)
        ensures
            out@ == self@,
    {
        copy_entry(self)
    }
}

} // verus!
