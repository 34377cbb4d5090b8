//! Renaming of call targets and variable references in function bodies.
use vstd::prelude::*;
use crate::ast::{Block, Expression, Param, Spanned, Statement};
use crate::scope::lookup;

verus! {

/// A renaming table: local name and the name it becomes. A later entry for
/// a name overrides an earlier one.
pub type Table = Seq<(Seq<char>, Seq<char>)>;

pub open spec fn table_view(t: Seq<(String, String)>) -> Table {
    t.map_values(|x: (String, String)| (x.0@, x.1@))
}

/// The name that `n` becomes under `t`: its entry, or itself.
pub open spec fn renamed_name(t: Table, n: Seq<char>) -> Seq<char> {
    match lookup(t, n) {
        Some(m) => m,
        None => n,
    }
}

/// The names bound locally after the first `n` statements of `a`, starting
/// from `l`: each `Declare` adds its name for the statements after it.
pub open spec fn declared(l: Seq<Seq<char>>, a: Seq<Spanned<Statement>>, n: int) -> Seq<Seq<char>>
    decreases n,
{
    if n <= 0 || n > a.len() {
        l
    } else {
        match a[n - 1].data {
            Statement::Declare(name, _) => declared(l, a, n - 1).push(name.data@),
            _ => declared(l, a, n - 1),
        }
    }
}

/// The name a variable `v` becomes: a name bound locally (in `l`) keeps
/// referring to the local binding and stays as it is; any other name is
/// renamed by `t`.
pub open spec fn renamed_var(t: Table, l: Seq<Seq<char>>, v: Seq<char>) -> Seq<char> {
    if l.contains(v) {
        v
    } else {
        renamed_name(t, v)
    }
}

/// `r` is `e` with every call target renamed by `t`, every variable that is
/// not bound locally (in `l`) renamed by `t`, and all else kept. A name with
/// no entry in `t` stays as it is.
pub open spec fn expr_renamed(t: Table, l: Seq<Seq<char>>, e: Spanned<Expression>, r: Spanned<Expression>) -> bool
    decreases e, 0int,
{
    r.span == e.span && match e.data {
        Expression::Call(n, a) => match r.data {
            Expression::Call(m, b) => m.span == n.span && m.data@ == renamed_name(t, n.data@)
                && b@.len() == a@.len() && args_renamed(t, l, a@, b@, a@.len() as int),
            _ => false,
        },
        Expression::Operation(o, x, y) => match r.data {
            Expression::Operation(p, x2, y2) => p == o && expr_renamed(t, l, *x, *x2) && expr_renamed(t, l, *y, *y2),
            _ => false,
        },
        Expression::StringLit(s) => match r.data {
            Expression::StringLit(s2) => s2@ == s@,
            _ => false,
        },
        Expression::NumLit(v) => r.data == Expression::NumLit(v),
        Expression::BoolLit(v) => r.data == Expression::BoolLit(v),
        Expression::Variable(v) => match r.data {
            Expression::Variable(v2) => v2@ == renamed_var(t, l, v@),
            _ => false,
        },
    }
}

/// The first `n` expressions of `b` are those of `a`, renamed by `t`.
pub open spec fn args_renamed(t: Table, l: Seq<Seq<char>>, a: Seq<Spanned<Expression>>, b: Seq<Spanned<Expression>>, n: int) -> bool
    decreases a, n,
{
    if n <= 0 || n > a.len() {
        true
    } else {
        args_renamed(t, l, a, b, n - 1) && expr_renamed(t, l, a[n - 1], b[n - 1])
    }
}

/// `r` is the statement `s` renamed by `t`, with the names of `l` bound
/// locally.
pub open spec fn stmt_renamed(t: Table, l: Seq<Seq<char>>, s: Spanned<Statement>, r: Spanned<Statement>) -> bool
    decreases s, 0int,
{
    r.span == s.span && match s.data {
        Statement::If(c, th, el) => match r.data {
            Statement::If(c2, th2, el2) => expr_renamed(t, l, c, c2) && block_renamed(t, l, th, th2) && match el {
                None => el2 is None,
                Some(e) => match el2 {
                    Some(e2) => block_renamed(t, l, e, e2),
                    None => false,
                },
            },
            _ => false,
        },
        Statement::While(c, b) => match r.data {
            Statement::While(c2, b2) => expr_renamed(t, l, c, c2) && block_renamed(t, l, b, b2),
            _ => false,
        },
        Statement::Return(x) => match r.data {
            Statement::Return(y) => match x {
                None => y is None,
                Some(e) => match y {
                    Some(e2) => expr_renamed(t, l, e, e2),
                    None => false,
                },
            },
            _ => false,
        },
        Statement::Expr(e) => match r.data {
            Statement::Expr(e2) => expr_renamed(t, l, e, e2),
            _ => false,
        },
        Statement::Declare(n, ty) => match r.data {
            Statement::Declare(n2, ty2) => n2.span == n.span && n2.data@ == n.data@ && ty2 == ty,
            _ => false,
        },
        Statement::Define(n, e) => match r.data {
            Statement::Define(n2, e2) => n2.span == n.span && n2.data@ == n.data@ && expr_renamed(t, l, e, e2),
            _ => false,
        },
    }
}

/// `r` is the block `b` renamed by `t`, with the names of `l` bound locally
/// on entry.
pub open spec fn block_renamed(t: Table, l: Seq<Seq<char>>, b: Spanned<Block>, r: Spanned<Block>) -> bool
    decreases b, 0int,
{
    r.span == b.span && r.data@.len() == b.data@.len() && stmts_renamed(t, l, b.data@, r.data@, b.data@.len() as int)
}

/// The first `n` statements of `b` are those of `a`, renamed by `t`, each
/// with the names bound locally before it.
pub open spec fn stmts_renamed(t: Table, l: Seq<Seq<char>>, a: Seq<Spanned<Statement>>, b: Seq<Spanned<Statement>>, n: int) -> bool
    decreases a, n,
{
    if n <= 0 || n > a.len() {
        true
    } else {
        stmts_renamed(t, l, a, b, n - 1) && stmt_renamed(t, declared(l, a, n - 1), a[n - 1], b[n - 1])
    }
}

/// `r` holds the same parameters as `p`.
pub open spec fn params_same(p: Seq<Spanned<Param>>, r: Seq<Spanned<Param>>) -> bool {
    &&& r.len() == p.len()
    &&& forall|i: int| 0 <= i < p.len() ==> {
        &&& #[trigger] r[i].span == p[i].span
        &&& r[i].data.0.span == p[i].data.0.span
        &&& r[i].data.0.data@ == p[i].data.0.data@
        &&& r[i].data.1 == p[i].data.1
    }
}

/// The name that `name` becomes under the table.
pub fn replace_name(items_in_scope: &Vec<(String, String)>, name: &String) -> (r: String)
    ensures
        r@ == renamed_name(table_view(items_in_scope@), name@),
{
    let ghost t = table_view(items_in_scope@);
    let mut i = items_in_scope.len();
    assert(t.subrange(0, i as int) =~= t);
    while i > 0
        invariant
            i <= items_in_scope@.len(),
            t == table_view(items_in_scope@),
            lookup(t, name@) == lookup(t.subrange(0, i as int), name@),
        decreases i,
    {
        assert(t.subrange(0, i as int).drop_last() =~= t.subrange(0, i - 1));
        if items_in_scope[i - 1].0 == *name {
            return items_in_scope[i - 1].1.clone();
        }
        i = i - 1;
    }
    name.clone()
}

pub open spec fn names_view(v: Seq<String>) -> Seq<Seq<char>> {
    v.map_values(|x: String| x@)
}

/// Whether `v` is among the locally bound names.
fn is_local(locals: &Vec<String>, v: &String) -> (r: bool)
    ensures
        r == names_view(locals@).contains(v@),
{
    let mut i: usize = 0;
    while i < locals.len()
        invariant
            i <= locals@.len(),
            forall|j: int| 0 <= j < i ==> locals@[j]@ != v@,
        decreases locals@.len() - i,
    {
        if locals[i] == *v {
            assert(names_view(locals@)[i as int] == v@);
            return true;
        }
        i = i + 1;
    }
    proof {
        if names_view(locals@).contains(v@) {
            let j = choose|j: int| 0 <= j < names_view(locals@).len() && names_view(locals@)[j] == v@;
            assert(locals@[j]@ == v@);
        }
    }
    false
}

/// A copy of a list of names.
fn copy_names(v: &Vec<String>) -> (r: Vec<String>)
    ensures
        names_view(r@) == names_view(v@),
{
    let mut out: Vec<String> = Vec::new();
    let mut i: usize = 0;
    while i < v.len()
        invariant
            i <= v@.len(),
            names_view(out@) == names_view(v@).subrange(0, i as int),
        decreases v@.len() - i,
    {
        let ghost prev = out@;
        let c = v[i].clone();
        out.push(c);
        assert(names_view(out@) =~= names_view(prev).push(v@[i as int]@));
        assert(names_view(out@) =~= names_view(v@).subrange(0, i + 1));
        i = i + 1;
    }
    assert(names_view(v@).subrange(0, i as int) =~= names_view(v@));
    out
}

/// `e` with its call targets and its variables that are not bound locally
/// renamed.
pub fn replace_expression(items_in_scope: &Vec<(String, String)>, locals: &Vec<String>, e: &Spanned<Expression>) -> (r: Spanned<Expression>)
    ensures
        expr_renamed(table_view(items_in_scope@), names_view(locals@), *e, r),
    decreases e, 0int,
{
    let data = match &e.data {
        Expression::Call(n, a) => {
            let m = Spanned { span: n.span, data: replace_name(items_in_scope, &n.data) };
            Expression::Call(m, replace_args(items_in_scope, locals, a))
        },
        Expression::Operation(o, x, y) => Expression::Operation(
            Spanned { span: o.span, data: o.data },
            Box::new(replace_expression(items_in_scope, locals, x)),
            Box::new(replace_expression(items_in_scope, locals, y)),
        ),
        Expression::StringLit(s) => Expression::StringLit(s.clone()),
        Expression::NumLit(v) => Expression::NumLit(*v),
        Expression::BoolLit(v) => Expression::BoolLit(*v),
        Expression::Variable(v) => {
            if is_local(locals, v) {
                Expression::Variable(v.clone())
            } else {
                Expression::Variable(replace_name(items_in_scope, v))
            }
        },
    };
    Spanned { span: e.span, data }
}

fn replace_args(items_in_scope: &Vec<(String, String)>, locals: &Vec<String>, a: &Vec<Spanned<Expression>>) -> (r: Vec<Spanned<Expression>>)
    ensures
        r@.len() == a@.len(),
        args_renamed(table_view(items_in_scope@), names_view(locals@), a@, r@, a@.len() as int),
    decreases a, 1int,
{
    let ghost t = table_view(items_in_scope@);
    let ghost l = names_view(locals@);
    let mut out: Vec<Spanned<Expression>> = Vec::new();
    let mut i: usize = 0;
    while i < a.len()
        invariant
            i <= a@.len(),
            out@.len() == i,
            t == table_view(items_in_scope@),
            l == names_view(locals@),
            args_renamed(t, l, a@, out@, i as int),
        decreases a@.len() - i,
    {
        assert(decreases_to!(a => a@[i as int]));
        let x = replace_expression(items_in_scope, locals, &a[i]);
        let ghost prev = out@;
        out.push(x);
        proof {
            assert(out@.subrange(0, prev.len() as int) =~= prev);
            lemma_args_renamed_prefix(t, l, a@, prev, out@, i as int);
        }
        i = i + 1;
    }
    out
}

proof fn lemma_args_renamed_prefix(
    t: Table,
    l: Seq<Seq<char>>,
    a: Seq<Spanned<Expression>>,
    b: Seq<Spanned<Expression>>,
    c: Seq<Spanned<Expression>>,
    n: int,
)
    requires
        0 <= n <= b.len() <= c.len(),
        c.subrange(0, b.len() as int) == b,
        args_renamed(t, l, a, b, n),
    ensures
        args_renamed(t, l, a, c, n),
    decreases n,
{
    if n > 0 && n <= a.len() {
        assert(c[n - 1] == b[n - 1]);
        lemma_args_renamed_prefix(t, l, a, b, c, n - 1);
    }
}

proof fn lemma_stmts_renamed_prefix(
    t: Table,
    l: Seq<Seq<char>>,
    a: Seq<Spanned<Statement>>,
    b: Seq<Spanned<Statement>>,
    c: Seq<Spanned<Statement>>,
    n: int,
)
    requires
        0 <= n <= b.len() <= c.len(),
        c.subrange(0, b.len() as int) == b,
        stmts_renamed(t, l, a, b, n),
    ensures
        stmts_renamed(t, l, a, c, n),
    decreases n,
{
    if n > 0 && n <= a.len() {
        assert(c[n - 1] == b[n - 1]);
        lemma_stmts_renamed_prefix(t, l, a, b, c, n - 1);
    }
}

/// The statement `s` renamed, with the names of `locals` bound locally.
fn replace_statement(items_in_scope: &Vec<(String, String)>, locals: &Vec<String>, s: &Spanned<Statement>) -> (r: Spanned<Statement>)
    ensures
        stmt_renamed(table_view(items_in_scope@), names_view(locals@), *s, r),
    decreases s, 0int,
{
    let data = match &s.data {
        Statement::If(c, th, el) => {
            let c2 = replace_expression(items_in_scope, locals, c);
            let th2 = replace_block(items_in_scope, locals, th);
            let el2 = match el {
                None => None,
                Some(e) => Some(replace_block(items_in_scope, locals, e)),
            };
            Statement::If(c2, th2, el2)
        },
        Statement::While(c, b) => Statement::While(
            replace_expression(items_in_scope, locals, c),
            replace_block(items_in_scope, locals, b),
        ),
        Statement::Return(x) => Statement::Return(
            match x {
                None => None,
                Some(e) => Some(replace_expression(items_in_scope, locals, e)),
            },
        ),
        Statement::Expr(e) => Statement::Expr(replace_expression(items_in_scope, locals, e)),
        Statement::Declare(n, ty) => Statement::Declare(
            Spanned { span: n.span, data: n.data.clone() },
            Spanned { span: ty.span, data: ty.data },
        ),
        Statement::Define(n, e) => Statement::Define(
            Spanned { span: n.span, data: n.data.clone() },
            replace_expression(items_in_scope, locals, e),
        ),
    };
    Spanned { span: s.span, data }
}

/// The block `b` renamed, with the names of `locals` bound locally on entry.
pub fn replace_block(items_in_scope: &Vec<(String, String)>, locals: &Vec<String>, b: &Spanned<Block>) -> (r: Spanned<Block>)
    ensures
        block_renamed(table_view(items_in_scope@), names_view(locals@), *b, r),
    decreases b, 0int,
{
    let body = replace_body(items_in_scope, locals, &b.data);
    Spanned { span: b.span, data: body }
}

/// The statements of `body` renamed, with the names of `locals` bound
/// locally on entry and each `Declare` binding its name for the statements
/// after it.
pub fn replace_body(items_in_scope: &Vec<(String, String)>, locals: &Vec<String>, body: &Vec<Spanned<Statement>>) -> (r: Vec<Spanned<Statement>>)
    ensures
        r@.len() == body@.len(),
        stmts_renamed(table_view(items_in_scope@), names_view(locals@), body@, r@, body@.len() as int),
    decreases body, 1int,
{
    let ghost t = table_view(items_in_scope@);
    let ghost l = names_view(locals@);
    let mut here = copy_names(locals);
    let mut out: Vec<Spanned<Statement>> = Vec::new();
    let mut i: usize = 0;
    while i < body.len()
        invariant
            i <= body@.len(),
            out@.len() == i,
            t == table_view(items_in_scope@),
            l == names_view(locals@),
            names_view(here@) == declared(l, body@, i as int),
            stmts_renamed(t, l, body@, out@, i as int),
        decreases body@.len() - i,
    {
        assert(decreases_to!(body => body@[i as int]));
        let x = replace_statement(items_in_scope, &here, &body[i]);
        let ghost prev = out@;
        out.push(x);
        proof {
            assert(out@.subrange(0, prev.len() as int) =~= prev);
            lemma_stmts_renamed_prefix(t, l, body@, prev, out@, i as int);
        }
        if let Statement::Declare(n, _) = &body[i].data {
            let ghost before = here@;
            here.push(n.data.clone());
            assert(names_view(here@) =~= names_view(before).push(n.data@));
        }
        i = i + 1;
    }
    out
}

/// The names of a parameter list, in order.
pub open spec fn param_names(p: Seq<Spanned<Param>>) -> Seq<Seq<char>> {
    p.map_values(|q: Spanned<Param>| q.data.0.data@)
}

/// The names of the parameters `p`.
pub fn names_of_params(p: &Vec<Spanned<Param>>) -> (r: Vec<String>)
    ensures
        names_view(r@) == param_names(p@),
{
    let mut out: Vec<String> = Vec::new();
    let mut i: usize = 0;
    while i < p.len()
        invariant
            i <= p@.len(),
            out@.len() == i,
            names_view(out@) == param_names(p@.subrange(0, i as int)),
        decreases p@.len() - i,
    {
        let ghost prev = out@;
        out.push(p[i].data.0.data.clone());
        assert(names_view(out@) =~= names_view(prev).push(p@[i as int].data.0.data@));
        assert(names_view(out@) =~= param_names(p@.subrange(0, i + 1)));
        i = i + 1;
    }
    assert(p@.subrange(0, i as int) =~= p@);
    out
}

/// A copy of a parameter list.
pub fn copy_params(p: &Vec<Spanned<Param>>) -> (r: Vec<Spanned<Param>>)
    ensures
        params_same(p@, r@),
{
    let mut out: Vec<Spanned<Param>> = Vec::new();
    let mut i: usize = 0;
    while i < p.len()
        invariant
            i <= p@.len(),
            params_same(p@.subrange(0, i as int), out@),
        decreases p@.len() - i,
    {
        let q = &p[i];
        let n = Spanned { span: q.data.0.span, data: q.data.0.data.clone() };
        let ty = Spanned { span: q.data.1.span, data: q.data.1.data };
        out.push(Spanned { span: q.span, data: (n, ty) });
        i = i + 1;
    }
    assert(p@.subrange(0, i as int) =~= p@);
    out
}

} // verus!
