//! The types of the checker, and the errors it reports.
use vstd::prelude::*;
use crate::ast::{Span, Typ};

verus! {

/// The type of a value, or of a callable item.
#[derive(Debug, PartialEq, Eq)]
pub enum Type {
    /// Parameter types and return type.
    Function(Vec<Typ>, Typ),
    Void,
    Number,
    Bool,
    String,
}

/// What a `Type` denotes.
pub enum TypeView {
    Function(Seq<Typ>, Typ),
    Void,
    Number,
    Bool,
    String,
}

impl View for Type {
    type V = TypeView;

    open spec fn view(&self) -> TypeView {
        match self {
            Type::Function(p, r) => TypeView::Function(p@, *r),
            Type::Void => TypeView::Void,
            Type::Number => TypeView::Number,
            Type::Bool => TypeView::Bool,
            Type::String => TypeView::String,
        }
    }
}

/// The type that a declared `Typ` stands for.
pub open spec fn typ_view(t: Typ) -> TypeView {
    match t {
        Typ::Num => TypeView::Number,
        Typ::Str => TypeView::String,
        Typ::Bool => TypeView::Bool,
        Typ::Void => TypeView::Void,
    }
}

impl Type {
    pub fn from_typ(t: Typ) -> (r: Type)
        ensures
            r@ == typ_view(t),
    {
        match t {
            Typ::Num => Type::Number,
            Typ::Str => Type::String,
            Typ::Bool => Type::Bool,
            Typ::Void => Type::Void,
        }
    }

    /// A copy of `self`.
    pub fn duplicate(&self) -> (r: Type)
        ensures
            r@ == self@,
    {
        match self {
            Type::Function(p, ret) => Type::Function(copy_typs(p), *ret),
            Type::Void => Type::Void,
            Type::Number => Type::Number,
            Type::Bool => Type::Bool,
            Type::String => Type::String,
        }
    }

    /// Whether `self` and `o` denote the same type.
    pub fn same(&self, o: &Type) -> (r: bool)
        ensures
            r == (self@ == o@),
    {
        match self {
            Type::Function(p, r) => match o {
                Type::Function(q, s) => {
                    if !(*r == *s) || p.len() != q.len() {
                        return false;
                    }
                    let mut i: usize = 0;
                    while i < p.len()
                        invariant
                            i <= p.len() == q.len(),
                            self@ == TypeView::Function(p@, *r),
                            o@ == TypeView::Function(q@, *s),
                            p@.subrange(0, i as int) == q@.subrange(0, i as int),
                        decreases p.len() - i,
                    {
                        if !(p[i] == q[i]) {
                            assert(p@[i as int] != q@[i as int]);
                            return false;
                        }
                        assert(p@.subrange(0, i + 1) =~= p@.subrange(0, i as int).push(p@[i as int]));
                        assert(q@.subrange(0, i + 1) =~= q@.subrange(0, i as int).push(q@[i as int]));
                        i = i + 1;
                    }
                    assert(p@ =~= p@.subrange(0, i as int));
                    assert(q@ =~= q@.subrange(0, i as int));
                    true
                },
                _ => false,
            },
            Type::Void => matches!(o, Type::Void),
            Type::Number => matches!(o, Type::Number),
            Type::Bool => matches!(o, Type::Bool),
            Type::String => matches!(o, Type::String),
        }
    }
}

/// A copy of a list of declared types.
pub fn copy_typs(p: &Vec<Typ>) -> (r: Vec<Typ>)
    ensures
        r@ == p@,
{
    let mut out: Vec<Typ> = Vec::new();
    let mut i: usize = 0;
    while i < p.len()
        invariant
            i <= p.len(),
            out@ == p@.subrange(0, i as int),
        decreases p.len() - i,
    {
        out.push(p[i]);
        assert(out@ =~= p@.subrange(0, i + 1));
        i = i + 1;
    }
    assert(out@ =~= p@);
    out
}

/// A copy of a list of types.
pub fn copy_types(p: &Vec<Type>) -> (r: Vec<Type>)
    ensures
        types_view(r@) == types_view(p@),
{
    let mut out: Vec<Type> = Vec::new();
    let mut i: usize = 0;
    while i < p.len()
        invariant
            i <= p.len(),
            out@.len() == i,
            types_view(out@) == types_view(p@.subrange(0, i as int)),
        decreases p.len() - i,
    {
        let ghost prev = out@;
        let d = p[i].duplicate();
        out.push(d);
        assert forall|j: int| 0 <= j < i + 1 implies out@[j]@ == p@[j]@ by {
            if j < i {
                assert(types_view(prev)[j] == types_view(p@.subrange(0, i as int))[j]);
            }
        }
        assert(types_view(out@) =~= types_view(p@.subrange(0, i + 1)));
        i = i + 1;
    }
    assert(p@ =~= p@.subrange(0, i as int));
    out
}

pub open spec fn types_view(s: Seq<Type>) -> Seq<TypeView> {
    s.map_values(|t: Type| t@)
}

/// A module path prefix names no module.
#[derive(Debug, PartialEq, Eq)]
pub struct ModuleNotFoundError {
    pub span: Span,
}

/// The module exists but exports no item of that name.
#[derive(Debug, PartialEq, Eq)]
pub struct ItemNotFound {
    pub span: Span,
    pub item: String,
}

/// An expression has a type outside the set the context accepts.
#[derive(Debug, PartialEq, Eq)]
pub struct ExpressionTypeError {
    pub span: Span,
    pub type_found: Type,
    pub type_expected: Vec<Type>,
}

/// A call names nothing callable.
#[derive(Debug, PartialEq, Eq)]
pub struct FunctionNotFound {
    pub span: Span,
    pub item: String,
}

/// A call passes the wrong number of arguments.
#[derive(Debug, PartialEq, Eq)]
pub struct FunctionArgumentNumber {
    pub span: Span,
    pub item: String,
    pub expected: usize,
    pub found: usize,
}

/// Some arguments of one call have the wrong type: one error per argument.
#[derive(Debug, PartialEq, Eq)]
pub struct FunctionArgumentTypeError {
    pub related: Vec<ExpressionTypeError>,
    pub function_name: String,
}

/// A variable is read or assigned without a binding in scope.
#[derive(Debug, PartialEq, Eq)]
pub struct VariableNotFound {
    pub span: Span,
    pub name: String,
}

/// The format argument of `report` is not a string literal, or holds `%`
/// followed by a character other than `d`, `s` or `%`.
#[derive(Debug, PartialEq, Eq)]
pub struct FormatError {
    pub span: Span,
}

/// Every way in which a module can fail to check.
#[derive(Debug, PartialEq, Eq)]
pub enum TypeCheckError {
    ModuleNotFound(ModuleNotFoundError),
    ItemNotFound(ItemNotFound),
    ExpressionTypeError(ExpressionTypeError),
    FunctionNotFound(FunctionNotFound),
    FunctionArgumentNumber(FunctionArgumentNumber),
    FunctionArgumentTypeError(FunctionArgumentTypeError),
    VariableNotFound(VariableNotFound),
    FormatError(FormatError),
}

/// What an `ExpressionTypeError` says.
pub struct MismatchView {
    pub span: Span,
    pub found: TypeView,
    pub expected: Seq<TypeView>,
}

impl View for ExpressionTypeError {
    type V = MismatchView;

    open spec fn view(&self) -> MismatchView {
        MismatchView {
            span: self.span,
            found: self.type_found@,
            expected: types_view(self.type_expected@),
        }
    }
}

pub open spec fn mismatches_view(s: Seq<ExpressionTypeError>) -> Seq<MismatchView> {
    s.map_values(|e: ExpressionTypeError| e@)
}

/// What a `TypeCheckError` says.
pub enum ErrorView {
    ModuleNotFound(Span),
    ItemNotFound(Span, Seq<char>),
    Mismatch(MismatchView),
    FunctionNotFound(Span, Seq<char>),
    ArgumentNumber(Span, Seq<char>, nat, nat),
    ArgumentTypes(Seq<MismatchView>, Seq<char>),
    VariableNotFound(Span, Seq<char>),
    Format(Span),
}

impl View for TypeCheckError {
    type V = ErrorView;

    open spec fn view(&self) -> ErrorView {
        match self {
            TypeCheckError::ModuleNotFound(e) => ErrorView::ModuleNotFound(e.span),
            TypeCheckError::ItemNotFound(e) => ErrorView::ItemNotFound(e.span, e.item@),
            TypeCheckError::ExpressionTypeError(e) => ErrorView::Mismatch(e@),
            TypeCheckError::FunctionNotFound(e) => ErrorView::FunctionNotFound(e.span, e.item@),
            TypeCheckError::FunctionArgumentNumber(e) => ErrorView::ArgumentNumber(
                e.span,
                e.item@,
                e.expected as nat,
                e.found as nat,
            ),
            TypeCheckError::FunctionArgumentTypeError(e) => ErrorView::ArgumentTypes(
                mismatches_view(e.related@),
                e.function_name@,
            ),
            TypeCheckError::VariableNotFound(e) => ErrorView::VariableNotFound(e.span, e.name@),
            TypeCheckError::FormatError(e) => ErrorView::Format(e.span),
        }
    }
}

} // verus!
