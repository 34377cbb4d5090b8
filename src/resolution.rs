//! Why linked code refers only to emitted functions and built-ins.
use vstd::prelude::*;
use crate::ast::{Ast, Block, Expression, Spanned, Statement};
use crate::linker::{
    emitted, is_emitted_name, item_at, item_path, lemma_renamed_targets_emitted, linked_item, links,
    scope_table,
};
use crate::module::{exports_of, module_at, path_view, Module};
use crate::rename::{
    args_renamed, block_renamed, declared, expr_renamed, param_names, renamed_name, stmt_renamed, stmts_renamed, Table,
};
use crate::scope::lookup;
use crate::typecheck::{
    args_check, block_check, bodies, call_signature, cond_check, expr_type, globals, intrinsic_sig,
    module_check, param_bindings, Bindings,
};
use crate::types::{typ_view, TypeView};

verus! {

/// A call target that linked code may hold: the name of an emitted
/// function, or a built-in.
pub open spec fn target_ok(out: Seq<Spanned<Ast>>, c: Seq<char>) -> bool {
    is_emitted_name(out, c) || c == "report"@ || intrinsic_sig(c) is Some
}

pub open spec fn expr_targets_ok(out: Seq<Spanned<Ast>>, gl: Bindings, l: Seq<Seq<char>>, r: Spanned<Expression>) -> bool
    decreases r, 0int,
{
    match r.data {
        Expression::Call(n, a) => target_ok(out, n.data@) && args_targets_ok(out, gl, l, a@, a@.len() as int),
        Expression::Operation(_, x, y) => expr_targets_ok(out, gl, l, *x) && expr_targets_ok(out, gl, l, *y),
        Expression::Variable(v) => l.contains(v@) || var_ok(out, gl, v@),
        _ => true,
    }
}

/// A variable that linked code may hold: the name of an emitted function,
/// or a name that no module-level binding of `gl` makes a function.
pub open spec fn var_ok(out: Seq<Spanned<Ast>>, gl: Bindings, v: Seq<char>) -> bool {
    is_emitted_name(out, v) || !(lookup(gl, v) matches Some(TypeView::Function(_, _)))
}

pub open spec fn args_targets_ok(out: Seq<Spanned<Ast>>, gl: Bindings, l: Seq<Seq<char>>, a: Seq<Spanned<Expression>>, n: int) -> bool
    decreases a, n,
{
    if n <= 0 || n > a.len() {
        true
    } else {
        args_targets_ok(out, gl, l, a, n - 1) && expr_targets_ok(out, gl, l, a[n - 1])
    }
}

pub open spec fn stmt_targets_ok(out: Seq<Spanned<Ast>>, gl: Bindings, l: Seq<Seq<char>>, s: Spanned<Statement>) -> bool
    decreases s, 0int,
{
    match s.data {
        Statement::If(c, th, el) => expr_targets_ok(out, gl, l, c) && block_targets_ok(out, gl, l, th) && match el {
            None => true,
            Some(e) => block_targets_ok(out, gl, l, e),
        },
        Statement::While(c, b) => expr_targets_ok(out, gl, l, c) && block_targets_ok(out, gl, l, b),
        Statement::Return(x) => match x {
            None => true,
            Some(e) => expr_targets_ok(out, gl, l, e),
        },
        Statement::Expr(e) => expr_targets_ok(out, gl, l, e),
        Statement::Declare(_, _) => true,
        Statement::Define(_, e) => expr_targets_ok(out, gl, l, e),
    }
}

/// Every call target and variable in the block `b` is one that linked code
/// may hold, with the names of `l` bound locally on entry.
pub open spec fn block_targets_ok(out: Seq<Spanned<Ast>>, gl: Bindings, l: Seq<Seq<char>>, b: Spanned<Block>) -> bool
    decreases b, 0int,
{
    stmts_targets_ok(out, gl, l, b.data@, b.data@.len() as int)
}

pub open spec fn stmts_targets_ok(out: Seq<Spanned<Ast>>, gl: Bindings, l: Seq<Seq<char>>, a: Seq<Spanned<Statement>>, n: int) -> bool
    decreases a, n,
{
    if n <= 0 || n > a.len() {
        true
    } else {
        stmts_targets_ok(out, gl, l, a, n - 1) && stmt_targets_ok(out, gl, declared(l, a, n - 1), a[n - 1])
    }
}

/// No statement of a block follows a `return`, in `s` and in its nested
/// blocks.
pub open spec fn stmt_ends_ok(s: Spanned<Statement>) -> bool
    decreases s, 0int,
{
    match s.data {
        Statement::If(_, th, el) => block_ends_ok(th) && match el {
            None => true,
            Some(e) => block_ends_ok(e),
        },
        Statement::While(_, b) => block_ends_ok(b),
        _ => true,
    }
}

pub open spec fn block_ends_ok(b: Spanned<Block>) -> bool
    decreases b, 0int,
{
    stmts_ends_ok(b.data@, b.data@.len() as int)
}

pub open spec fn stmts_ends_ok(a: Seq<Spanned<Statement>>, n: int) -> bool
    decreases a, n,
{
    if n <= 0 || n > a.len() {
        true
    } else {
        stmts_ends_ok(a, n - 1) && stmt_ends_ok(a[n - 1]) && (n < a.len() ==> !(a[n - 1].data is Return))
    }
}

/// `b` is `gl` followed by bindings none of which is a function.
pub open spec fn extends_without_functions(b: Bindings, gl: Bindings) -> bool {
    &&& b.len() >= gl.len()
    &&& b.subrange(0, gl.len() as int) == gl
    &&& forall|i: int| gl.len() <= i < b.len() ==> !(#[trigger] b[i].1 is Function)
}

/// Every name bound to a function in `gl` has an entry in `t`.
pub open spec fn table_covers(gl: Bindings, t: Table) -> bool {
    forall|n: Seq<char>| (#[trigger] lookup(gl, n) matches Some(TypeView::Function(_, _))) ==> lookup(t, n) is Some
}

/// Every name that `t` gives is emitted.
pub open spec fn table_emitted(t: Table, out: Seq<Spanned<Ast>>) -> bool {
    forall|e: int| 0 <= e < t.len() ==> is_emitted_name(out, #[trigger] t[e].1)
}

proof fn lemma_lookup_function_global(b: Bindings, gl: Bindings, n: Seq<char>)
    requires
        extends_without_functions(b, gl),
        lookup(b, n) matches Some(TypeView::Function(_, _)),
    ensures
        lookup(gl, n) == lookup(b, n),
    decreases b.len(),
{
    if b.len() > gl.len() {
        assert(!(b.last().1 is Function));
        let c = b.drop_last();
        assert(c.subrange(0, gl.len() as int) =~= b.subrange(0, gl.len() as int));
        assert forall|i: int| gl.len() <= i < c.len() implies !(#[trigger] c[i].1 is Function) by {
            assert(c[i] == b[i]);
        }
        lemma_lookup_function_global(c, gl, n);
    } else {
        assert(b =~= b.subrange(0, gl.len() as int));
    }
}

/// A name found in a table maps to one of the table's entries.
proof fn lemma_lookup_in_table(t: Table, n: Seq<char>)
    ensures
        lookup(t, n) matches Some(v) ==> exists|e: int| 0 <= e < t.len() && #[trigger] t[e].1 == v,
    decreases t.len(),
{
    if t.len() > 0 && t.last().0 != n {
        lemma_lookup_in_table(t.drop_last(), n);
        if let Some(v) = lookup(t, n) {
            let e = choose|e: int| 0 <= e < t.drop_last().len() && #[trigger] t.drop_last()[e].1 == v;
            assert(t[e] == t.drop_last()[e]);
        }
    } else if t.len() > 0 {
        assert(t[t.len() - 1].1 == t.last().1);
    }
}

proof fn lemma_renamed_target_ok(gl: Bindings, b: Bindings, t: Table, out: Seq<Spanned<Ast>>, n: Seq<char>)
    requires
        extends_without_functions(b, gl),
        table_covers(gl, t),
        table_emitted(t, out),
        n == "report"@ || intrinsic_sig(n) is Some || lookup(b, n) matches Some(TypeView::Function(_, _)),
    ensures
        target_ok(out, renamed_name(t, n)),
{
    lemma_lookup_in_table(t, n);
    if lookup(t, n) is Some {
        let v = lookup(t, n)->0;
        let e = choose|e: int| 0 <= e < t.len() && #[trigger] t[e].1 == v;
        assert(is_emitted_name(out, t[e].1));
    } else if !(n == "report"@ || intrinsic_sig(n) is Some) {
        lemma_lookup_function_global(b, gl, n);
        assert(lookup(gl, n) matches Some(TypeView::Function(_, _)));
    }
}

proof fn lemma_expr_targets(
    gl: Bindings,
    b: Bindings,
    t: Table,
    l: Seq<Seq<char>>,
    out: Seq<Spanned<Ast>>,
    e: Spanned<Expression>,
    r: Spanned<Expression>,
)
    requires
        expr_type(b, e) is Ok,
        expr_renamed(t, l, e, r),
        extends_without_functions(b, gl),
        table_covers(gl, t),
        table_emitted(t, out),
    ensures
        expr_targets_ok(out, gl, l, r),
    decreases e, 0int,
{
    match e.data {
        Expression::Call(n, a) => {
            match r.data {
                Expression::Call(m, a2) => {
                    let sig = call_signature(b, n, a@, e.span);
                    assert(sig is Ok);
                    lemma_renamed_target_ok(gl, b, t, out, n.data@);
                    let slots = sig->Ok_0.0;
                    lemma_args_targets(gl, b, t, l, out, a@, a2@, slots, a@.len() as int);
                },
                _ => {},
            }
        },
        Expression::Operation(_, x, y) => {
            match r.data {
                Expression::Operation(_, x2, y2) => {
                    lemma_expr_targets(gl, b, t, l, out, *x, *x2);
                    lemma_expr_targets(gl, b, t, l, out, *y, *y2);
                },
                _ => {},
            }
        },
        Expression::Variable(v) => {
            if !l.contains(v@) {
                lemma_lookup_in_table(t, v@);
                if lookup(t, v@) is Some {
                    let w = lookup(t, v@)->0;
                    let i = choose|i: int| 0 <= i < t.len() && #[trigger] t[i].1 == w;
                    assert(is_emitted_name(out, t[i].1));
                }
            }
        },
        _ => {},
    }
}

proof fn lemma_args_targets(
    gl: Bindings,
    b: Bindings,
    t: Table,
    l: Seq<Seq<char>>,
    out: Seq<Spanned<Ast>>,
    a: Seq<Spanned<Expression>>,
    r: Seq<Spanned<Expression>>,
    slots: Seq<Seq<TypeView>>,
    n: int,
)
    requires
        0 <= n <= a.len(),
        r.len() == a.len(),
        args_check(b, a, slots, n) is Ok,
        args_renamed(t, l, a, r, n),
        extends_without_functions(b, gl),
        table_covers(gl, t),
        table_emitted(t, out),
    ensures
        args_targets_ok(out, gl, l, r, n),
    decreases a, n,
{
    if n > 0 {
        lemma_args_targets(gl, b, t, l, out, a, r, slots, n - 1);
        lemma_expr_targets(gl, b, t, l, out, a[n - 1], r[n - 1]);
    }
}

proof fn lemma_stmts_renamed_each(t: Table, l: Seq<Seq<char>>, a: Seq<Spanned<Statement>>, r: Seq<Spanned<Statement>>, n: int)
    requires
        0 <= n <= a.len(),
        stmts_renamed(t, l, a, r, n),
    ensures
        forall|j: int| 0 <= j < n ==> stmt_renamed(t, declared(l, a, j), #[trigger] a[j], r[j]),
    decreases n,
{
    if n > 0 {
        lemma_stmts_renamed_each(t, l, a, r, n - 1);
    }
}

/// Renaming keeps declarations, so the names bound locally agree.
proof fn lemma_declared_same(t: Table, l: Seq<Seq<char>>, a: Seq<Spanned<Statement>>, r: Seq<Spanned<Statement>>, n: int)
    requires
        0 <= n <= a.len() == r.len(),
        forall|j: int| 0 <= j < a.len() ==> stmt_renamed(t, declared(l, a, j), #[trigger] a[j], r[j]),
    ensures
        declared(l, a, n) == declared(l, r, n),
    decreases n,
{
    if n > 0 {
        lemma_declared_same(t, l, a, r, n - 1);
        assert(stmt_renamed(t, declared(l, a, n - 1), a[n - 1], r[n - 1]));
    }
}

proof fn lemma_stmts_ends_each(a: Seq<Spanned<Statement>>, n: int)
    requires
        0 <= n <= a.len(),
        stmts_ends_ok(a, n),
    ensures
        forall|j: int| 0 <= j < n ==> stmt_ends_ok(#[trigger] a[j]) && (j < a.len() - 1 ==> !(a[j].data is Return)),
    decreases n,
{
    if n > 0 {
        lemma_stmts_ends_each(a, n - 1);
    }
}

proof fn lemma_stmts_targets_all(out: Seq<Spanned<Ast>>, gl: Bindings, l: Seq<Seq<char>>, r: Seq<Spanned<Statement>>, n: int)
    requires
        0 <= n <= r.len(),
        forall|j: int| 0 <= j < n ==> stmt_targets_ok(out, gl, declared(l, r, j), #[trigger] r[j]),
    ensures
        stmts_targets_ok(out, gl, l, r, n),
    decreases n,
{
    if n > 0 {
        lemma_stmts_targets_all(out, gl, l, r, n - 1);
    }
}

/// A nested block that checks, whose statements end well, renamed,
/// holds only call targets and variables that linked code may hold.
proof fn lemma_nested_targets(
    gl: Bindings,
    b: Bindings,
    ret: TypeView,
    t: Table,
    l: Seq<Seq<char>>,
    out: Seq<Spanned<Ast>>,
    blk: Spanned<Block>,
    r: Spanned<Block>,
)
    requires
        block_check(b, ret, blk.data@, 0) is Ok,
        block_ends_ok(blk),
        block_renamed(t, l, blk, r),
        extends_without_functions(b, gl),
        table_covers(gl, t),
        table_emitted(t, out),
    ensures
        block_targets_ok(out, gl, l, r),
    decreases blk, 0int,
{
    let a = blk.data@;
    let rs = r.data@;
    lemma_stmts_renamed_each(t, l, a, rs, a.len() as int);
    lemma_stmts_ends_each(a, a.len() as int);
    lemma_block_targets(gl, b, ret, t, l, out, a, rs, 0);
    assert forall|j: int| 0 <= j < rs.len() implies stmt_targets_ok(out, gl, declared(l, rs, j), #[trigger] rs[j]) by {
        lemma_declared_same(t, l, a, rs, j);
    }
    lemma_stmts_targets_all(out, gl, l, rs, rs.len() as int);
}

proof fn lemma_block_targets(
    gl: Bindings,
    b: Bindings,
    ret: TypeView,
    t: Table,
    l0: Seq<Seq<char>>,
    out: Seq<Spanned<Ast>>,
    stmts: Seq<Spanned<Statement>>,
    rs: Seq<Spanned<Statement>>,
    i: int,
)
    requires
        0 <= i <= stmts.len(),
        rs.len() == stmts.len(),
        block_check(b, ret, stmts, i) is Ok,
        forall|j: int| 0 <= j < stmts.len() ==> stmt_ends_ok(#[trigger] stmts[j]) && (j < stmts.len() - 1 ==> !(stmts[j].data is Return)),
        forall|j: int| 0 <= j < stmts.len() ==> stmt_renamed(t, declared(l0, stmts, j), #[trigger] stmts[j], rs[j]),
        extends_without_functions(b, gl),
        table_covers(gl, t),
        table_emitted(t, out),
    ensures
        forall|j: int| i <= j < stmts.len() ==> stmt_targets_ok(out, gl, declared(l0, stmts, j), #[trigger] rs[j]),
    decreases stmts, stmts.len() - i,
{
    if i < stmts.len() {
        let s = stmts[i];
        let r = rs[i];
        let l = declared(l0, stmts, i);
        assert(stmt_renamed(t, l, s, r));
        assert(stmt_ends_ok(s));
        match s.data {
            Statement::Return(x) => {
                match x {
                    Some(e) => {
                        match r.data {
                            Statement::Return(Some(e2)) => {
                                lemma_expr_targets(gl, b, t, l, out, e, e2);
                            },
                            _ => {},
                        }
                    },
                    None => {},
                }
                assert(i == stmts.len() - 1);
            },
            Statement::Declare(n, ty) => {
                let b2 = b.push((n.data@, typ_view(ty.data)));
                assert(b2.subrange(0, gl.len() as int) =~= b.subrange(0, gl.len() as int));
                assert forall|q: int| gl.len() <= q < b2.len() implies !(#[trigger] b2[q].1 is Function) by {
                    if q < b.len() {
                        assert(b2[q] == b[q]);
                    }
                }
                lemma_block_targets(gl, b2, ret, t, l0, out, stmts, rs, i + 1);
            },
            Statement::Expr(e) => {
                match r.data {
                    Statement::Expr(e2) => {
                        lemma_expr_targets(gl, b, t, l, out, e, e2);
                    },
                    _ => {},
                }
                lemma_block_targets(gl, b, ret, t, l0, out, stmts, rs, i + 1);
            },
            Statement::Define(n, e) => {
                match r.data {
                    Statement::Define(_, e2) => {
                        lemma_expr_targets(gl, b, t, l, out, e, e2);
                    },
                    _ => {},
                }
                lemma_block_targets(gl, b, ret, t, l0, out, stmts, rs, i + 1);
            },
            Statement::If(c, th, el) => {
                match r.data {
                    Statement::If(c2, th2, el2) => {
                        assert(cond_check(b, c) is Ok);
                        lemma_expr_targets(gl, b, t, l, out, c, c2);
                        lemma_nested_targets(gl, b, ret, t, l, out, th, th2);
                        match el {
                            Some(e) => {
                                match el2 {
                                    Some(e2) => {
                                        lemma_nested_targets(gl, b, ret, t, l, out, e, e2);
                                    },
                                    None => {},
                                }
                            },
                            None => {},
                        }
                    },
                    _ => {},
                }
                lemma_block_targets(gl, b, ret, t, l0, out, stmts, rs, i + 1);
            },
            Statement::While(c, body) => {
                match r.data {
                    Statement::While(c2, body2) => {
                        assert(cond_check(b, c) is Ok);
                        lemma_expr_targets(gl, b, t, l, out, c, c2);
                        lemma_nested_targets(gl, b, ret, t, l, out, body, body2);
                    },
                    _ => {},
                }
                lemma_block_targets(gl, b, ret, t, l0, out, stmts, rs, i + 1);
            },
        }
    }
}

/// The name under which item `a` is known in its own module: a function's
/// name, or the last name of an import's path.
pub open spec fn local_name(a: Spanned<Ast>) -> Option<Seq<char>> {
    match a.data {
        Ast::Func(name, _, _, _) => Some(name.data@),
        Ast::Import(p) => if p.data@.len() > 0 {
            Some(path_view(p.data@).last())
        } else {
            None
        },
        Ast::Mod(_) => None,
    }
}

/// A name found in a list of bindings is the name of one of its entries.
proof fn lemma_lookup_has_key<T>(b: Seq<(Seq<char>, T)>, n: Seq<char>)
    ensures
        lookup(b, n) is Some ==> exists|i: int| 0 <= i < b.len() && (#[trigger] b[i]).0 == n,
        (exists|i: int| 0 <= i < b.len() && (#[trigger] b[i]).0 == n) ==> lookup(b, n) is Some,
    decreases b.len(),
{
    if b.len() > 0 {
        lemma_lookup_has_key(b.drop_last(), n);
        if b.last().0 != n {
            if exists|i: int| 0 <= i < b.len() && (#[trigger] b[i]).0 == n {
                let i = choose|i: int| 0 <= i < b.len() && (#[trigger] b[i]).0 == n;
                assert(i < b.len() - 1);
                assert(b.drop_last()[i] == b[i]);
            }
            if lookup(b, n) is Some {
                let i = choose|i: int| 0 <= i < b.drop_last().len() && (#[trigger] b.drop_last()[i]).0 == n;
                assert(b[i] == b.drop_last()[i]);
            }
        } else {
            assert(b[b.len() - 1] == b.last());
        }
    }
}

/// Some item among the first `n` is known locally as `x`.
pub open spec fn key_of_item(items: Seq<Spanned<Ast>>, n: int, x: Seq<char>) -> bool {
    exists|j: int| 0 <= j < n && local_name(#[trigger] items[j]) == Some(x)
}

/// Each module-level binding is made under the local name of an item.
proof fn lemma_globals_keys(g: Module, items: Seq<Spanned<Ast>>, n: int)
    requires
        0 <= n <= items.len(),
        globals(g, items, n) is Ok,
    ensures
        forall|i: int| 0 <= i < globals(g, items, n)->Ok_0.len() ==> key_of_item(items, n, #[trigger] globals(g, items, n)->Ok_0[i].0),
    decreases n,
{
    if n > 0 {
        lemma_globals_keys(g, items, n - 1);
        let prev = globals(g, items, n - 1)->Ok_0;
        let cur = globals(g, items, n)->Ok_0;
        assert forall|i: int| 0 <= i < cur.len() implies key_of_item(items, n, #[trigger] cur[i].0) by {
            if i < prev.len() {
                assert(cur[i] == prev[i]);
                assert(key_of_item(items, n - 1, prev[i].0));
                let j = choose|j: int| 0 <= j < n - 1 && local_name(#[trigger] items[j]) == Some(prev[i].0);
                assert(local_name(items[j]) == Some(cur[i].0));
            } else {
                assert(local_name(items[n - 1]) == Some(cur[i].0));
            }
        }
    }
}

/// Each item whose path is needed gives the renaming table an entry under
/// its local name.
proof fn lemma_table_keys(m: Module, needed: Seq<Seq<Seq<char>>>, n: int)
    requires
        0 <= n <= m.items@.len(),
        forall|i: int| 0 <= i < m.items@.len() ==> (#[trigger] item_path(m, i) matches Some(p) ==> needed.contains(p)),
    ensures
        forall|j: int| 0 <= j < n ==> (local_name(#[trigger] m.items@[j]) matches Some(x) ==> exists|e: int|
            0 <= e < scope_table(m, needed, n).len() && scope_table(m, needed, n)[e].0 == x),
    decreases n,
{
    if n > 0 {
        lemma_table_keys(m, needed, n - 1);
        let prev = scope_table(m, needed, n - 1);
        let cur = scope_table(m, needed, n);
        assert(item_path(m, n - 1) matches Some(p) ==> needed.contains(p));
        match m.items@[n - 1].data {
            Ast::Func(name, _, _, _) => {
                crate::linker::lemma_index_of_found(needed, path_view(m.path@).push(name.data@));
            },
            Ast::Import(path) => {
                crate::linker::lemma_index_of_found(needed, path_view(path.data@));
            },
            _ => {},
        }
        assert forall|j: int| 0 <= j < n implies (local_name(#[trigger] m.items@[j]) matches Some(x) ==> exists|e: int|
            0 <= e < cur.len() && cur[e].0 == x) by {
            if let Some(x) = local_name(m.items@[j]) {
                if j < n - 1 {
                    let e = choose|e: int| 0 <= e < prev.len() && prev[e].0 == x;
                    assert(cur[e] == prev[e]);
                } else {
                    assert(cur[cur.len() - 1].0 == x);
                }
            }
        }
    }
}

proof fn lemma_bodies_each(b: Bindings, items: Seq<Spanned<Ast>>, n: int, j: int)
    requires
        0 <= j < n <= items.len(),
        bodies(b, items, n) is Ok,
    ensures
        match items[j].data {
            Ast::Func(_, ret, params, body) => block_check(b + param_bindings(params@), typ_view(ret.data), body.data@, 0) is Ok,
            _ => true,
        },
    decreases n,
{
    if j < n - 1 {
        lemma_bodies_each(b, items, n - 1, j);
    }
}

/// The module and index of the source of the `k`-th emitted function.
pub open spec fn source_of(g: Module, needed: Seq<Seq<Seq<char>>>, k: int) -> (Module, int) {
    item_at(g, needed[emitted(g, needed, needed.len() as int)[k]])->0
}

/// Linked code refers only to emitted functions and built-ins: every call
/// target in the body of an emitted function is the name of an emitted
/// function, or `report`, or an intrinsic; and every variable is bound
/// locally (a parameter, or a declaration before it), or is the name of an
/// emitted function, or is a name that its module does not bind to a
/// function. This holds when the function's module sits at its own path,
/// checks, and has the paths of all its items needed, in a graph whose
/// export tables were computed from the modules' items, and when no
/// statement of the function follows a `return` in its block (such
/// statements are never checked).
pub proof fn lemma_linked_calls_resolve(g: Module, needed: Seq<Seq<Seq<char>>>, out: Seq<Spanned<Ast>>, k: int)
    requires
        links(g, needed, out),
        forall|p: Seq<Seq<char>>| #[trigger] module_at(g, p) matches Some(x) ==> x.spec_exports() == exports_of(
            x.items@,
            x.items@.len() as int,
        ),
        0 <= k < out.len(),
        module_at(g, path_view(source_of(g, needed, k).0.path@)) == Some(source_of(g, needed, k).0),
        module_check(g, source_of(g, needed, k).0.items@) is Ok,
        forall|i: int| 0 <= i < source_of(g, needed, k).0.items@.len() ==> (#[trigger] item_path(source_of(g, needed, k).0, i) matches Some(p)
            ==> needed.contains(p)),
        match source_of(g, needed, k).0.items@[source_of(g, needed, k).1].data {
            Ast::Func(_, _, _, body) => block_ends_ok(body),
            _ => true,
        },
    ensures
        match out[k].data {
            Ast::Func(_, _, params2, body2) => block_targets_ok(
                out,
                globals(g, source_of(g, needed, k).0.items@, source_of(g, needed, k).0.items@.len() as int)->Ok_0,
                param_names(params2@),
                body2,
            ),
            _ => false,
        },
{
    let (m, j) = source_of(g, needed, k);
    let n = m.items@.len() as int;
    let id = emitted(g, needed, needed.len() as int)[k];
    crate::linker::lemma_find_func_is_func(m.items@, needed[id].last());
    assert(0 <= j < n);
    let t = scope_table(m, needed, n);
    assert(linked_item(g, needed, emitted(g, needed, needed.len() as int)[k], out[k]));
    let gl = globals(g, m.items@, n)->Ok_0;
    lemma_renamed_targets_emitted(g, m, needed, out);
    assert(table_emitted(t, out));
    lemma_globals_keys(g, m.items@, n);
    lemma_table_keys(m, needed, n);
    assert forall|x: Seq<char>| (#[trigger] lookup(gl, x) matches Some(TypeView::Function(_, _))) implies lookup(t, x) is Some by {
        lemma_lookup_has_key(gl, x);
        let i = choose|i: int| 0 <= i < gl.len() && (#[trigger] gl[i]).0 == x;
        assert(key_of_item(m.items@, n, gl[i].0));
        let jj = choose|jj: int| 0 <= jj < n && local_name(#[trigger] m.items@[jj]) == Some(gl[i].0);
        lemma_lookup_has_key(t, x);
    }
    assert(table_covers(gl, t));
    match m.items@[j].data {
        Ast::Func(_, ret, params, body) => {
            match out[k].data {
                Ast::Func(_, _, params2, body2) => {
                    lemma_bodies_each(gl, m.items@, n, j);
                    assert forall|q: int| 0 <= q < params@.len() implies param_names(params2@)[q] == param_names(params@)[q] by {
                        assert(params2@[q].span == params@[q].span);
                    }
                    assert(param_names(params2@) =~= param_names(params@));
                    let b = gl + param_bindings(params@);
                    assert(b.subrange(0, gl.len() as int) =~= gl);
                    assert forall|q: int| gl.len() <= q < b.len() implies !(#[trigger] b[q].1 is Function) by {
                        assert(b[q] == param_bindings(params@)[q - gl.len()]);
                    }
                    lemma_nested_targets(gl, b, typ_view(ret.data), t, param_names(params@), out, body, body2);
                },
                _ => {},
            }
        },
        _ => {},
    }
}

} // verus!
