//! Type checking of function bodies against declared signatures and the
//! fixed table of intrinsics.
use vstd::prelude::*;
use crate::ast::{Ast, Expression, Operator, Param, Span, Spanned, Statement, Typ};
use crate::module::{find_export, function_type, function_view, module_at, path_view, Module};
use crate::scope::{lookup, Binding, GlobalScope, Scope};
use crate::text::{chars_of, is_named};
use crate::types::{
    copy_types, ItemNotFound, ModuleNotFoundError, mismatches_view, types_view, typ_view, ErrorView, ExpressionTypeError,
    FormatError, FunctionArgumentNumber, FunctionArgumentTypeError, FunctionNotFound,
    MismatchView, Type, TypeCheckError, TypeView, VariableNotFound,
};
use vstd::string::StringExecFns;

verus! {

/// Names bound in scope with what their types denote, oldest first.
pub type Bindings = Seq<Binding<TypeView>>;

/// What the bindings of a scope of `Type`s denote.
pub open spec fn bview(b: Seq<Binding<Type>>) -> Bindings {
    b.map_values(|x: Binding<Type>| (x.0, x.1@))
}

/// Looking a name up commutes with taking views.
pub proof fn lemma_lookup_view(b: Seq<Binding<Type>>, n: Seq<char>)
    ensures
        lookup(bview(b), n) == match lookup(b, n) {
            Some(t) => Some(t@),
            None => None::<TypeView>,
        },
    decreases b.len(),
{
    if b.len() > 0 {
        assert(bview(b).drop_last() =~= bview(b.drop_last()));
        lemma_lookup_view(b.drop_last(), n);
    }
}

/// The outcome of typing an expression.
pub type TypeResult = Result<TypeView, ErrorView>;

/// For each argument of a call, the set of types it may have.
pub type Slots = Seq<Seq<TypeView>>;

pub open spec fn result_view(r: Result<Type, TypeCheckError>) -> TypeResult {
    match r {
        Ok(t) => Ok(t@),
        Err(e) => Err(e@),
    }
}

pub open spec fn signature_view(r: Result<(Vec<Vec<Type>>, Type), TypeCheckError>) -> Result<
    (Slots, TypeView),
    ErrorView,
> {
    match r {
        Ok((s, t)) => Ok((slots_view(s@), t@)),
        Err(e) => Err(e@),
    }
}

pub open spec fn mismatch_list_view(r: Result<Vec<ExpressionTypeError>, TypeCheckError>) -> Result<
    Seq<MismatchView>,
    ErrorView,
> {
    match r {
        Ok(m) => Ok(mismatches_view(m@)),
        Err(e) => Err(e@),
    }
}

pub open spec fn slots_view(s: Seq<Vec<Type>>) -> Slots {
    s.map_values(|v: Vec<Type>| types_view(v@))
}

/// Parameter types and return type of each intrinsic other than `report`.
pub open spec fn intrinsic_sig(name: Seq<char>) -> Option<(Seq<Typ>, Typ)> {
    if name == "len"@ {
        Some((seq![Typ::Str], Typ::Num))
    } else if name == "getelement"@ {
        Some((seq![Typ::Str, Typ::Num], Typ::Str))
    } else if name == "setelelment"@ {
        Some((seq![Typ::Str, Typ::Num, Typ::Str], Typ::Str))
    } else if name == "replace"@ {
        Some((seq![Typ::Str, Typ::Str, Typ::Str], Typ::Str))
    } else if name == "split"@ {
        Some((seq![Typ::Str, Typ::Str], Typ::Str))
    } else if name == "openfile"@ {
        Some((seq![Typ::Str], Typ::Str))
    } else {
        None
    }
}

/// The slots of the format string `f` found in its first `n` windows of two
/// characters: `%d` takes a number or a boolean, `%s` a string, `%%` nothing.
/// `None` when a `%` opens a window with any other second character.
pub open spec fn format_slots(f: Seq<char>, n: int) -> Option<Slots>
    decreases n,
{
    if n <= 0 || n >= f.len() {
        Some(Seq::empty())
    } else {
        match format_slots(f, n - 1) {
            None => None,
            Some(s) => if f[n - 1] != '%' {
                Some(s)
            } else if f[n] == 'd' {
                Some(s.push(seq![TypeView::Number, TypeView::Bool]))
            } else if f[n] == 's' {
                Some(s.push(seq![TypeView::String]))
            } else if f[n] == '%' {
                Some(s)
            } else {
                None
            },
        }
    }
}

/// Once a window is refused, every longer scan is refused too.
proof fn lemma_format_none(f: Seq<char>, n: int, m: int)
    requires
        0 < n <= m < f.len(),
        format_slots(f, n) is None,
    ensures
        format_slots(f, m) is None,
    decreases m - n,
{
    if m > n {
        lemma_format_none(f, n, m - 1);
    }
}

/// The slots of a whole format string.
pub open spec fn report_slots(f: Seq<char>) -> Option<Slots> {
    format_slots(f, f.len() - 1)
}

/// The slots and result type of a call of `name` with `args`, before any
/// argument is typed: fixed for intrinsics, taken from the scope otherwise.
pub open spec fn call_signature(
    b: Bindings,
    name: Spanned<String>,
    args: Seq<Spanned<Expression>>,
    span: Span,
) -> Result<(Slots, TypeView), ErrorView> {
    if name.data@ == "report"@ {
        if args.len() == 0 {
            Err(ErrorView::ArgumentNumber(span, name.data@, 1, 0))
        } else {
            match args[0].data {
                Expression::StringLit(f) => match report_slots(f@) {
                    None => Err(ErrorView::Format(args[0].span)),
                    Some(s) => if s.len() + 1 != args.len() {
                        Err(ErrorView::ArgumentNumber(span, name.data@, s.len() + 1, args.len()))
                    } else {
                        Ok((seq![seq![TypeView::String]] + s, TypeView::Void))
                    },
                },
                _ => Err(ErrorView::Format(args[0].span)),
            }
        }
    } else {
        let sig = match intrinsic_sig(name.data@) {
            Some(s) => Some(s),
            None => match lookup(b, name.data@) {
                Some(TypeView::Function(p, r)) => Some((p, r)),
                _ => None,
            },
        };
        match sig {
            None => Err(ErrorView::FunctionNotFound(name.span, name.data@)),
            Some((p, r)) => if p.len() != args.len() {
                Err(ErrorView::ArgumentNumber(span, name.data@, p.len(), args.len()))
            } else {
                Ok((p.map_values(|t: Typ| seq![typ_view(t)]), typ_view(r)))
            },
        }
    }
}

/// The type of a binary operation whose operands have types `l` and `r`.
pub open spec fn operation_type(op: Spanned<Operator>, l: TypeView, r: TypeView) -> TypeResult {
    match op.data {
        Operator::Add | Operator::Sub | Operator::Mod | Operator::GEt | Operator::Lt => {
            let res = if op.data is Add || op.data is Sub || op.data is Mod {
                TypeView::Number
            } else {
                TypeView::Bool
            };
            if l != TypeView::Number {
                Err(ErrorView::Mismatch(MismatchView { span: op.span, found: l, expected: seq![TypeView::Number] }))
            } else if r != TypeView::Number {
                Err(ErrorView::Mismatch(MismatchView { span: op.span, found: r, expected: seq![TypeView::Number] }))
            } else {
                Ok(res)
            }
        },
        Operator::Eq => if r != l {
            Err(ErrorView::Mismatch(MismatchView { span: op.span, found: r, expected: seq![l] }))
        } else {
            Ok(TypeView::Bool)
        },
    }
}

/// Types the first `n` arguments in order against their slots: the
/// mismatches found, or the first error raised inside an argument.
pub open spec fn args_check(
    b: Bindings,
    args: Seq<Spanned<Expression>>,
    slots: Slots,
    n: int,
) -> Result<Seq<MismatchView>, ErrorView>
    decreases args, n,
{
    if n <= 0 || n > args.len() {
        Ok(Seq::empty())
    } else {
        match args_check(b, args, slots, n - 1) {
            Err(x) => Err(x),
            Ok(m) => match expr_type(b, args[n - 1]) {
                Err(x) => Err(x),
                Ok(t) => if slots[n - 1].contains(t) {
                    Ok(m)
                } else {
                    Ok(m.push(MismatchView { span: args[n - 1].span, found: t, expected: slots[n - 1] }))
                },
            },
        }
    }
}

/// Once an argument raises an error, the check of every longer prefix
/// returns that error.
pub proof fn lemma_args_error_stays(b: Bindings, args: Seq<Spanned<Expression>>, slots: Slots, n: int, m: int)
    requires
        0 < n <= m <= args.len(),
        args_check(b, args, slots, n) is Err,
    ensures
        args_check(b, args, slots, m) == args_check(b, args, slots, n),
    decreases m - n,
{
    if m > n {
        lemma_args_error_stays(b, args, slots, n, m - 1);
    }
}

/// The type of `e` in scope `b`, or the error that checking it raises.
/// Mismatched arguments of one call are reported together; a `report` with
/// a single mismatched argument reports that mismatch alone.
pub open spec fn expr_type(b: Bindings, e: Spanned<Expression>) -> TypeResult
    decreases e, 0int,
{
    match e.data {
        Expression::StringLit(_) => Ok(TypeView::String),
        Expression::NumLit(_) => Ok(TypeView::Number),
        Expression::BoolLit(_) => Ok(TypeView::Bool),
        Expression::Variable(n) => match lookup(b, n@) {
            Some(t) => Ok(t),
            None => Err(ErrorView::VariableNotFound(e.span, n@)),
        },
        Expression::Operation(op, l, r) => match expr_type(b, *l) {
            Err(x) => Err(x),
            Ok(lt) => match expr_type(b, *r) {
                Err(x) => Err(x),
                Ok(rt) => operation_type(op, lt, rt),
            },
        },
        Expression::Call(name, args) => match call_signature(b, name, args@, e.span) {
            Err(x) => Err(x),
            Ok((slots, ret)) => match args_check(b, args@, slots, args@.len() as int) {
                Err(x) => Err(x),
                Ok(m) => if m.len() == 0 {
                    Ok(ret)
                } else if m.len() == 1 && name.data@ == "report"@ {
                    Err(ErrorView::Mismatch(m[0]))
                } else {
                    Err(ErrorView::ArgumentTypes(m, name.data@))
                },
            },
        },
    }
}

/// The fixed signature of the intrinsic `name`, other than `report`.
fn intrinsic_signature(name: &String) -> (r: Option<(Vec<Typ>, Typ)>)
    ensures
        match r {
            Some((p, t)) => intrinsic_sig(name@) == Some((p@, t)),
            None => intrinsic_sig(name@) is None,
        },
{
    let r = if is_named(name, "len") {
        Some((vec![Typ::Str], Typ::Num))
    } else if is_named(name, "getelement") {
        Some((vec![Typ::Str, Typ::Num], Typ::Str))
    } else if is_named(name, "setelelment") {
        Some((vec![Typ::Str, Typ::Num, Typ::Str], Typ::Str))
    } else if is_named(name, "replace") {
        Some((vec![Typ::Str, Typ::Str, Typ::Str], Typ::Str))
    } else if is_named(name, "split") {
        Some((vec![Typ::Str, Typ::Str], Typ::Str))
    } else if is_named(name, "openfile") {
        Some((vec![Typ::Str], Typ::Str))
    } else {
        None
    };
    proof {
        match &r {
            Some((p, t)) => {
                let sig = intrinsic_sig(name@)->0;
                assert(p@ =~= sig.0);
            },
            None => {},
        }
    }
    r
}

/// The slots of the format string `f`.
pub fn format_slots_of(f: &String) -> (r: Option<Vec<Vec<Type>>>)
    ensures
        match r {
            Some(s) => report_slots(f@) == Some(slots_view(s@)) && s@.len() < usize::MAX,
            None => report_slots(f@) is None,
        },
{
    let c = chars_of(f);
    let mut out: Vec<Vec<Type>> = Vec::new();
    let mut i: usize = 1;
    while i < c.len()
        invariant
            c@ == f@,
            1 <= i,
            i <= c@.len() || c@.len() == 0,
            format_slots(f@, i - 1) == Some(slots_view(out@)),
            out@.len() < i,
        decreases c.len() - i,
    {
        if c[i - 1] == '%' {
            if c[i] == 'd' {
                let mut v: Vec<Type> = Vec::new();
                v.push(Type::Number);
                v.push(Type::Bool);
                assert(types_view(v@) =~= seq![TypeView::Number, TypeView::Bool]);
                out.push(v);
            } else if c[i] == 's' {
                out.push(single(Type::String));
            } else if c[i] == '%' {
            } else {
                proof {
                    lemma_format_none(f@, i as int, f@.len() - 1);
                }
                return None;
            }
        }
        proof {
            assert(slots_view(out@) =~= format_slots(f@, i as int)->0);
        }
        i = i + 1;
    }
    proof {
        if c@.len() > 0 {
            assert(i == c@.len());
        } else {
            assert(format_slots(f@, -1) == Some(Seq::<Seq<TypeView>>::empty()));
            assert(slots_view(out@) =~= Seq::<Seq<TypeView>>::empty());
        }
    }
    Some(out)
}

/// Whether `t` is one of the types in `slot`.
fn accepts(slot: &Vec<Type>, t: &Type) -> (r: bool)
    ensures
        r == types_view(slot@).contains(t@),
{
    let mut i: usize = 0;
    while i < slot.len()
        invariant
            i <= slot.len(),
            forall|j: int| 0 <= j < i ==> slot@[j]@ != t@,
        decreases slot.len() - i,
    {
        if slot[i].same(t) {
            assert(types_view(slot@)[i as int] == t@);
            return true;
        }
        i = i + 1;
    }
    proof {
        if types_view(slot@).contains(t@) {
            let j = choose|j: int| 0 <= j < types_view(slot@).len() && types_view(slot@)[j] == t@;
            assert(slot@[j]@ == t@);
        }
    }
    false
}

fn single(t: Type) -> (r: Vec<Type>)
    ensures
        types_view(r@) == seq![t@],
{
    let r = vec![t];
    assert(types_view(r@) =~= seq![t@]);
    r
}

fn mismatch(span: Span, found: Type, expected: Vec<Type>) -> (r: TypeCheckError)
    ensures
        r@ == ErrorView::Mismatch(MismatchView { span, found: found@, expected: types_view(expected@) }),
{
    TypeCheckError::ExpressionTypeError(ExpressionTypeError { span, type_found: found, type_expected: expected })
}

/// The type of a binary operation whose operands have types `l` and `r`.
fn operation_result(op: &Spanned<Operator>, l: Type, r: Type) -> (res: Result<Type, TypeCheckError>)
    ensures
        result_view(res) == operation_type(*op, l@, r@),
{
    match op.data {
        Operator::Add | Operator::Sub | Operator::Mod | Operator::GEt | Operator::Lt => {
            let res = match op.data {
                Operator::Add | Operator::Sub | Operator::Mod => Type::Number,
                _ => Type::Bool,
            };
            if !matches!(l, Type::Number) {
                Err(mismatch(op.span, l, single(Type::Number)))
            } else if !matches!(r, Type::Number) {
                Err(mismatch(op.span, r, single(Type::Number)))
            } else {
                Ok(res)
            }
        },
        Operator::Eq => {
            if !r.same(&l) {
                Err(mismatch(op.span, r, single(l)))
            } else {
                Ok(Type::Bool)
            }
        },
    }
}

/// The slots and result type of a call of `name` with `args`.
fn call_signature_of(
    scope: &GlobalScope<Type>,
    name: &Spanned<String>,
    args: &Vec<Spanned<Expression>>,
    span: Span,
) -> (r: Result<(Vec<Vec<Type>>, Type), TypeCheckError>)
    ensures
        signature_view(r) == call_signature(bview(scope.spec_bindings()), *name, args@, span),
        r matches Ok((s, _)) ==> s@.len() == args@.len(),
{
    proof {
        lemma_lookup_view(scope.spec_bindings(), name.data@);
    }
    if is_named(&name.data, "report") {
        if args.len() == 0 {
            return Err(TypeCheckError::FunctionArgumentNumber(FunctionArgumentNumber {
                span,
                item: name.data.clone(),
                expected: 1,
                found: 0,
            }));
        }
        match &args[0].data {
            Expression::StringLit(f) => match format_slots_of(f) {
                None => Err(TypeCheckError::FormatError(FormatError { span: args[0].span })),
                Some(s) => {
                    if s.len() + 1 != args.len() {
                        Err(TypeCheckError::FunctionArgumentNumber(FunctionArgumentNumber {
                            span,
                            item: name.data.clone(),
                            expected: s.len() + 1,
                            found: args.len(),
                        }))
                    } else {
                        let mut all: Vec<Vec<Type>> = vec![single(Type::String)];
                        let mut s = s;
                        all.append(&mut s);
                        proof {
                            assert(slots_view(all@) =~= seq![seq![TypeView::String]] + report_slots(f@)->0);
                        }
                        Ok((all, Type::Void))
                    }
                },
            },
            _ => Err(TypeCheckError::FormatError(FormatError { span: args[0].span })),
        }
    } else {
        let sig = match intrinsic_signature(&name.data) {
            Some(s) => Some(s),
            None => match scope.get(&name.data) {
                Some(Type::Function(p, r)) => Some((crate::types::copy_typs(p), *r)),
                _ => None,
            },
        };
        match sig {
            None => Err(TypeCheckError::FunctionNotFound(FunctionNotFound {
                span: name.span,
                item: name.data.clone(),
            })),
            Some((p, r)) => {
                if p.len() != args.len() {
                    Err(TypeCheckError::FunctionArgumentNumber(FunctionArgumentNumber {
                        span,
                        item: name.data.clone(),
                        expected: p.len(),
                        found: args.len(),
                    }))
                } else {
                    let mut slots: Vec<Vec<Type>> = Vec::new();
                    let mut i: usize = 0;
                    while i < p.len()
                        invariant
                            i <= p.len(),
                            slots_view(slots@) == p@.subrange(0, i as int).map_values(
                                |t: Typ| seq![typ_view(t)],
                            ),
                        decreases p.len() - i,
                    {
                        let ghost prev = slots@;
                        let one = single(Type::from_typ(p[i]));
                        slots.push(one);
                        assert(slots_view(slots@) =~= slots_view(prev).push(seq![typ_view(p@[i as int])]));
                        assert(slots_view(slots@) =~= p@.subrange(0, i + 1).map_values(
                            |t: Typ| seq![typ_view(t)],
                        ));
                        i = i + 1;
                    }
                    assert(p@.subrange(0, i as int) =~= p@);
                    Ok((slots, Type::from_typ(r)))
                }
            },
        }
    }
}

/// Types each argument in order against its slot, collecting every mismatch;
/// an error raised inside an argument is returned at once.
fn check_args(
    scope: &GlobalScope<Type>,
    args: &Vec<Spanned<Expression>>,
    slots: &Vec<Vec<Type>>,
) -> (r: Result<Vec<ExpressionTypeError>, TypeCheckError>)
    requires
        slots@.len() == args@.len(),
    ensures
        args_check(bview(scope.spec_bindings()), args@, slots_view(slots@), args@.len() as int)
            == mismatch_list_view(r),
    decreases args, 1int,
{
    let ghost b = bview(scope.spec_bindings());
    let mut found: Vec<ExpressionTypeError> = Vec::new();
    let mut i: usize = 0;
    assert(mismatches_view(found@) =~= Seq::<MismatchView>::empty());
    while i < args.len()
        invariant
            i <= args@.len() == slots@.len(),
            b == bview(scope.spec_bindings()),
            args_check(b, args@, slots_view(slots@), i as int) == Ok::<Seq<MismatchView>, ErrorView>(
                mismatches_view(found@),
            ),
        decreases args@.len() - i,
    {
        assert(decreases_to!(args => args@[i as int]));
        let t = typecheck_expr(scope, &args[i]);
        match t {
            Err(e) => {
                proof {
                    lemma_args_error_stays(b, args@, slots_view(slots@), i + 1, args@.len() as int);
                }
                return Err(e);
            },
            Ok(t) => {
                if !accepts(&slots[i], &t) {
                    let ghost prev = found@;
                    let m = ExpressionTypeError {
                        span: args[i].span,
                        type_found: t,
                        type_expected: copy_types(&slots[i]),
                    };
                    found.push(m);
                    assert(mismatches_view(found@) =~= mismatches_view(prev).push(m@));
                }
            },
        }
        i = i + 1;
    }
    Ok(found)
}

/// The type of `e` in `scope`, or the first error found in it.
pub fn typecheck_expr(scope: &GlobalScope<Type>, e: &Spanned<Expression>) -> (r: Result<
    Type,
    TypeCheckError,
>)
    ensures
        result_view(r) == expr_type(bview(scope.spec_bindings()), *e),
    decreases e, 0int,
{
    if let Expression::Variable(n) = &e.data {
        proof {
            lemma_lookup_view(scope.spec_bindings(), n@);
        }
    }
    match &e.data {
        Expression::StringLit(_) => Ok(Type::String),
        Expression::NumLit(_) => Ok(Type::Number),
        Expression::BoolLit(_) => Ok(Type::Bool),
        Expression::Variable(n) => match scope.get(n) {
            Some(t) => Ok(t.duplicate()),
            None => Err(TypeCheckError::VariableNotFound(VariableNotFound { span: e.span, name: n.clone() })),
        },
        Expression::Operation(op, l, r) => {
            let lt = typecheck_expr(scope, l)?;
            let rt = typecheck_expr(scope, r)?;
            operation_result(op, lt, rt)
        },
        Expression::Call(name, args) => {
            let (slots, ret) = call_signature_of(scope, name, args, e.span)?;
            let mut m = check_args(scope, args, &slots)?;
            if m.len() == 0 {
                Ok(ret)
            } else if m.len() == 1 && is_named(&name.data, "report") {
                let one = m.pop().unwrap();
                Err(TypeCheckError::ExpressionTypeError(one))
            } else {
                Err(TypeCheckError::FunctionArgumentTypeError(FunctionArgumentTypeError {
                    related: m,
                    function_name: name.data.clone(),
                }))
            }
        },
    }
}

/// The error of a condition of `if` or `while` that is not a boolean.
pub open spec fn cond_check(b: Bindings, c: Spanned<Expression>) -> Result<(), ErrorView> {
    match expr_type(b, c) {
        Err(x) => Err(x),
        Ok(t) => if t != TypeView::Bool {
            Err(ErrorView::Mismatch(MismatchView { span: c.span, found: t, expected: seq![TypeView::Bool] }))
        } else {
            Ok(())
        },
    }
}

/// Checks the statements of a block from index `i` on, in scope `b`, in a
/// function returning `ret`. A `return` ends the check of its block; each
/// nested block starts from the scope of its statement, and what it binds is
/// dropped at its end.
pub open spec fn block_check(b: Bindings, ret: TypeView, stmts: Seq<Spanned<Statement>>, i: int) -> Result<(), ErrorView>
    decreases stmts, stmts.len() - i,
{
    if i < 0 || i >= stmts.len() {
        Ok(())
    } else {
        match stmts[i].data {
            Statement::Return(x) => {
                let t = match x {
                    None => Ok(TypeView::Void),
                    Some(e) => expr_type(b, e),
                };
                let span = match x {
                    None => stmts[i].span,
                    Some(e) => e.span,
                };
                match t {
                    Err(e) => Err(e),
                    Ok(t) => if t != ret {
                        Err(ErrorView::Mismatch(MismatchView { span, found: t, expected: seq![ret] }))
                    } else {
                        Ok(())
                    },
                }
            },
            Statement::Declare(n, t) => block_check(b.push((n.data@, typ_view(t.data))), ret, stmts, i + 1),
            Statement::Expr(e) => match expr_type(b, e) {
                Err(x) => Err(x),
                Ok(_) => block_check(b, ret, stmts, i + 1),
            },
            Statement::Define(n, e) => match lookup(b, n.data@) {
                None => Err(ErrorView::VariableNotFound(n.span, n.data@)),
                Some(t) => match expr_type(b, e) {
                    Err(x) => Err(x),
                    Ok(et) => if et != t {
                        Err(ErrorView::Mismatch(MismatchView { span: e.span, found: et, expected: seq![t] }))
                    } else {
                        block_check(b, ret, stmts, i + 1)
                    },
                },
            },
            Statement::If(c, th, el) => match cond_check(b, c) {
                Err(x) => Err(x),
                Ok(_) => match block_check(b, ret, th.data@, 0) {
                    Err(x) => Err(x),
                    Ok(_) => match el {
                        None => block_check(b, ret, stmts, i + 1),
                        Some(el) => match block_check(b, ret, el.data@, 0) {
                            Err(x) => Err(x),
                            Ok(_) => block_check(b, ret, stmts, i + 1),
                        },
                    },
                },
            },
            Statement::While(c, body) => match cond_check(b, c) {
                Err(x) => Err(x),
                Ok(_) => match block_check(b, ret, body.data@, 0) {
                    Err(x) => Err(x),
                    Ok(_) => block_check(b, ret, stmts, i + 1),
                },
            },
        }
    }
}

pub open spec fn unit_view(r: Result<(), TypeCheckError>) -> Result<(), ErrorView> {
    match r {
        Ok(_) => Ok(()),
        Err(e) => Err(e@),
    }
}

/// The scope `s` extends `o` by bindings only: same open frames, and the
/// bindings of `o` kept as they were.
pub open spec fn extends(s: GlobalScope<Type>, o: GlobalScope<Type>) -> bool {
    &&& s.wf()
    &&& s.spec_frames() == o.spec_frames()
    &&& s.spec_bindings().len() >= o.spec_bindings().len()
    &&& s.spec_bindings().subrange(0, o.spec_bindings().len() as int) == o.spec_bindings()
}

fn cond_result(scope: &GlobalScope<Type>, c: &Spanned<Expression>) -> (r: Result<(), TypeCheckError>)
    ensures
        unit_view(r) == cond_check(bview(scope.spec_bindings()), *c),
{
    let t = typecheck_expr(scope, c)?;
    if !matches!(t, Type::Bool) {
        return Err(mismatch(c.span, t, single(Type::Bool)));
    }
    Ok(())
}

/// Checks a nested block in a frame of its own, which is closed afterwards.
fn typecheck_nested(scope: &mut GlobalScope<Type>, ret: &Type, body: &Vec<Spanned<Statement>>) -> (r: Result<(), TypeCheckError>)
    requires
        old(scope).wf(),
    ensures
        final(scope).wf(),
        final(scope).spec_bindings() == old(scope).spec_bindings(),
        final(scope).spec_frames() == old(scope).spec_frames(),
        unit_view(r) == block_check(bview(old(scope).spec_bindings()), ret@, body@, 0),
    decreases body, 1int,
{
    let ghost o = *scope;
    scope.push();
    let r = typecheck_body(scope, ret, body);
    assert(scope.spec_frames().last() == o.spec_bindings().len());
    scope.pop();
    assert(scope.spec_bindings() =~= o.spec_bindings());
    assert(scope.spec_frames() =~= o.spec_frames());
    r
}

/// Checks the statements of `body` in `scope`, in a function returning `ret`.
pub fn typecheck_body(scope: &mut GlobalScope<Type>, ret: &Type, body: &Vec<Spanned<Statement>>) -> (r: Result<(), TypeCheckError>)
    requires
        old(scope).wf(),
    ensures
        extends(*final(scope), *old(scope)),
        unit_view(r) == block_check(bview(old(scope).spec_bindings()), ret@, body@, 0),
    decreases body, 0int,
{
    let ghost o = *scope;
    let ghost whole = block_check(bview(o.spec_bindings()), ret@, body@, 0);
    let mut i: usize = 0;
    assert(o.spec_bindings().subrange(0, o.spec_bindings().len() as int) =~= o.spec_bindings());
    while i < body.len()
        invariant
            i <= body@.len(),
            o == *old(scope),
            extends(*scope, o),
            whole == block_check(bview(o.spec_bindings()), ret@, body@, 0),
            whole == block_check(bview(scope.spec_bindings()), ret@, body@, i as int),
        decreases body@.len() - i,
    {
        let ghost b = bview(scope.spec_bindings());
        let line = &body[i];
        assert(decreases_to!(body => body@[i as int]));
        match &line.data {
            Statement::Return(x) => {
                let t = match x {
                    None => Type::Void,
                    Some(e) => match typecheck_expr(scope, e) {
                        Ok(t) => t,
                        Err(err) => {
                            return Err(err);
                        },
                    },
                };
                if !t.same(ret) {
                    let span = match x {
                        None => line.span,
                        Some(e) => e.span,
                    };
                    return Err(mismatch(span, t, single(ret.duplicate())));
                }
                return Ok(());
            },
            Statement::Declare(n, t) => {
                scope.add(n.data.clone(), Type::from_typ(t.data));
                proof {
                    assert(bview(scope.spec_bindings()) =~= b.push((n.data@, typ_view(t.data))));
                    assert(scope.spec_bindings().subrange(0, o.spec_bindings().len() as int) =~= o.spec_bindings());
                }
            },
            Statement::Expr(e) => {
                typecheck_expr(scope, e)?;
            },
            Statement::Define(n, e) => {
                proof {
                    lemma_lookup_view(scope.spec_bindings(), n.data@);
                }
                let t = match scope.get(&n.data) {
                    None => {
                        return Err(TypeCheckError::VariableNotFound(VariableNotFound {
                            span: n.span,
                            name: n.data.clone(),
                        }));
                    },
                    Some(t) => t.duplicate(),
                };
                let et = typecheck_expr(scope, e)?;
                if !et.same(&t) {
                    return Err(mismatch(e.span, et, single(t)));
                }
            },
            Statement::If(c, th, el) => {
                cond_result(scope, c)?;
                typecheck_nested(scope, ret, &th.data)?;
                match el {
                    None => {},
                    Some(el) => {
                        typecheck_nested(scope, ret, &el.data)?;
                    },
                }
            },
            Statement::While(c, b) => {
                cond_result(scope, c)?;
                typecheck_nested(scope, ret, &b.data)?;
            },
        }
        i = i + 1;
    }
    Ok(())
}

/// The bindings that the parameters of a function make.
pub open spec fn param_bindings(params: Seq<Spanned<Param>>) -> Bindings {
    params.map_values(|p: Spanned<Param>| (p.data.0.data@, typ_view(p.data.1.data)))
}

/// The binding that an import makes: the module named by all but the last
/// segment of the path must exist in `g`, and export the last segment.
pub open spec fn resolve_import(g: Module, path: Spanned<Vec<String>>) -> Result<Binding<TypeView>, ErrorView> {
    let p = path_view(path.data@);
    if p.len() == 0 {
        Err(ErrorView::ModuleNotFound(path.span))
    } else {
        match module_at(g, p.drop_last()) {
            None => Err(ErrorView::ModuleNotFound(path.span)),
            Some(m) => match find_export(m.spec_exports(), p.last()) {
                None => Err(ErrorView::ItemNotFound(path.span, p.last())),
                Some(t) => Ok((p.last(), t)),
            },
        }
    }
}

/// The module-level bindings made by the first `n` items: each function's
/// signature and each import's item, in order.
pub open spec fn globals(g: Module, items: Seq<Spanned<Ast>>, n: int) -> Result<Bindings, ErrorView>
    decreases n,
{
    if n <= 0 || n > items.len() {
        Ok(Seq::empty())
    } else {
        match globals(g, items, n - 1) {
            Err(x) => Err(x),
            Ok(b) => match items[n - 1].data {
                Ast::Mod(_) => Ok(b),
                Ast::Import(path) => match resolve_import(g, path) {
                    Err(x) => Err(x),
                    Ok(d) => Ok(b.push(d)),
                },
                Ast::Func(name, ret, params, _) => Ok(b.push((name.data@, function_view(params@, ret.data)))),
            },
        }
    }
}

/// The bodies of the functions among the first `n` items, checked in order
/// in scope `b` extended by their parameters.
pub open spec fn bodies(b: Bindings, items: Seq<Spanned<Ast>>, n: int) -> Result<(), ErrorView>
    decreases n,
{
    if n <= 0 || n > items.len() {
        Ok(())
    } else {
        match bodies(b, items, n - 1) {
            Err(x) => Err(x),
            Ok(_) => match items[n - 1].data {
                Ast::Func(_, ret, params, body) => block_check(
                    b + param_bindings(params@),
                    typ_view(ret.data),
                    body.data@,
                    0,
                ),
                _ => Ok(()),
            },
        }
    }
}

/// Whether the module with `items` checks in the module graph `g`, and
/// otherwise the first error.
pub open spec fn module_check(g: Module, items: Seq<Spanned<Ast>>) -> Result<(), ErrorView> {
    match globals(g, items, items.len() as int) {
        Err(x) => Err(x),
        Ok(b) => bodies(b, items, items.len() as int),
    }
}

proof fn lemma_globals_error_stays(g: Module, items: Seq<Spanned<Ast>>, n: int, m: int)
    requires
        0 < n <= m <= items.len(),
        globals(g, items, n) is Err,
    ensures
        globals(g, items, m) == globals(g, items, n),
    decreases m - n,
{
    if m > n {
        lemma_globals_error_stays(g, items, n, m - 1);
    }
}

proof fn lemma_bodies_error_stays(b: Bindings, items: Seq<Spanned<Ast>>, n: int, m: int)
    requires
        0 < n <= m <= items.len(),
        bodies(b, items, n) is Err,
    ensures
        bodies(b, items, m) == bodies(b, items, n),
    decreases m - n,
{
    if m > n {
        lemma_bodies_error_stays(b, items, n, m - 1);
    }
}

/// The binding that the import `path` makes.
fn import_binding(module_graph: &Module, path: &Spanned<Vec<String>>) -> (r: Result<(String, Type), TypeCheckError>)
    ensures
        match r {
            Ok((n, t)) => resolve_import(*module_graph, *path) == Ok::<Binding<TypeView>, ErrorView>((n@, t@)),
            Err(e) => resolve_import(*module_graph, *path) == Err::<Binding<TypeView>, ErrorView>(e@),
        },
{
    let p = &path.data;
    if p.len() == 0 {
        return Err(TypeCheckError::ModuleNotFound(ModuleNotFoundError { span: path.span }));
    }
    let last = p.len() - 1;
    assert(path_view(p@).subrange(0, last as int) =~= path_view(p@).drop_last());
    match module_graph.get_module_prefix(p.as_slice(), last) {
        None => Err(TypeCheckError::ModuleNotFound(ModuleNotFoundError { span: path.span })),
        Some(m) => match m.get_export(&p[last]) {
            None => Err(TypeCheckError::ItemNotFound(ItemNotFound { span: path.span, item: p[last].clone() })),
            Some(t) => Ok((p[last].clone(), t.duplicate())),
        },
    }
}

/// Checks a function body in a frame holding its parameters.
fn typecheck_function(
    scope: &mut GlobalScope<Type>,
    params: &Vec<Spanned<Param>>,
    ret: Typ,
    body: &Vec<Spanned<Statement>>,
) -> (r: Result<(), TypeCheckError>)
    requires
        old(scope).wf(),
    ensures
        final(scope).wf(),
        final(scope).spec_bindings() == old(scope).spec_bindings(),
        final(scope).spec_frames() == old(scope).spec_frames(),
        unit_view(r) == block_check(
            bview(old(scope).spec_bindings()) + param_bindings(params@),
            typ_view(ret),
            body@,
            0,
        ),
{
    let ghost o = *scope;
    scope.push();
    let mut i: usize = 0;
    assert(param_bindings(params@.subrange(0, 0)) =~= Seq::<Binding<TypeView>>::empty());
    assert(bview(o.spec_bindings()) + Seq::<Binding<TypeView>>::empty() =~= bview(o.spec_bindings()));
    assert(scope.spec_bindings().subrange(0, o.spec_bindings().len() as int) =~= o.spec_bindings());
    while i < params.len()
        invariant
            i <= params@.len(),
            scope.wf(),
            scope.spec_frames() == o.spec_frames().push(o.spec_bindings().len() as nat),
            scope.spec_bindings().subrange(0, o.spec_bindings().len() as int) == o.spec_bindings(),
            bview(scope.spec_bindings()) == bview(o.spec_bindings()) + param_bindings(params@.subrange(0, i as int)),
        decreases params@.len() - i,
    {
        let ghost prev = scope.spec_bindings();
        let p = &params[i];
        scope.add(p.data.0.data.clone(), Type::from_typ(p.data.1.data));
        proof {
            let d = (p.data.0.data@, typ_view(p.data.1.data));
            assert(bview(scope.spec_bindings()) =~= bview(prev).push(d));
            assert(param_bindings(params@.subrange(0, i + 1)) =~= param_bindings(params@.subrange(0, i as int)).push(d));
            assert(bview(scope.spec_bindings()) =~= bview(o.spec_bindings()) + param_bindings(params@.subrange(0, i + 1)));
            assert(scope.spec_bindings().subrange(0, o.spec_bindings().len() as int) =~= o.spec_bindings());
        }
        i = i + 1;
    }
    assert(params@.subrange(0, i as int) =~= params@);
    let r = typecheck_body(scope, &Type::from_typ(ret), body);
    scope.pop();
    assert(scope.spec_bindings() =~= o.spec_bindings());
    assert(scope.spec_frames() =~= o.spec_frames());
    r
}

/// Checks the items of one module: first every function signature and
/// import is bound at module level, then each function body is checked.
/// Returns the first error found.
pub fn typecheck(a: &Vec<Spanned<Ast>>, module_graph: &Module) -> (r: Result<(), TypeCheckError>)
    ensures
        unit_view(r) == module_check(*module_graph, a@),
{
    let mut scopes: GlobalScope<Type> = GlobalScope::new();
    assert(bview(scopes.spec_bindings()) =~= Seq::<Binding<TypeView>>::empty());
    let mut i: usize = 0;
    while i < a.len()
        invariant
            i <= a@.len(),
            scopes.wf(),
            scopes.spec_frames() == Seq::<nat>::empty(),
            globals(*module_graph, a@, i as int) == Ok::<Bindings, ErrorView>(bview(scopes.spec_bindings())),
        decreases a@.len() - i,
    {
        let ghost prev = bview(scopes.spec_bindings());
        match &a[i].data {
            Ast::Mod(_) => {},
            Ast::Import(path) => match import_binding(module_graph, path) {
                Err(e) => {
                    proof {
                        lemma_globals_error_stays(*module_graph, a@, i + 1, a@.len() as int);
                    }
                    return Err(e);
                },
                Ok((n, t)) => {
                    scopes.add(n, t);
                    assert(bview(scopes.spec_bindings()) =~= prev.push((n@, t@)));
                },
            },
            Ast::Func(name, ret, params, _) => {
                let t = function_type(params, ret.data);
                scopes.add(name.data.clone(), t);
                assert(bview(scopes.spec_bindings()) =~= prev.push((name.data@, function_view(params@, ret.data))));
            },
        }
        i = i + 1;
    }
    let ghost b = bview(scopes.spec_bindings());
    let mut i: usize = 0;
    while i < a.len()
        invariant
            i <= a@.len(),
            scopes.wf(),
            b == bview(scopes.spec_bindings()),
            globals(*module_graph, a@, a@.len() as int) == Ok::<Bindings, ErrorView>(b),
            bodies(b, a@, i as int) == Ok::<(), ErrorView>(()),
        decreases a@.len() - i,
    {
        match &a[i].data {
            Ast::Func(_, ret, params, body) => {
                let r = typecheck_function(&mut scopes, params, ret.data, &body.data);
                if let Err(e) = r {
                    proof {
                        lemma_bodies_error_stays(b, a@, i + 1, a@.len() as int);
                    }
                    return Err(e);
                }
            },
            _ => {},
        }
        i = i + 1;
    }
    Ok(())
}

} // verus!
