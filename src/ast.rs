//! The position-tagged syntax tree handed over by the parser.
use vstd::prelude::*;
use vstd::string::StringExecFns;

verus! {

/// Where a node came from: the index of its file in the file cache, and a
/// byte range in that file.
#[derive(Debug, Clone, Copy, PartialEq, Eq, Structural)]
pub struct Span {
    pub file: usize,
    pub offset: usize,
    pub len: usize,
}

/// A value together with the place in the source that produced it.
#[derive(Debug, Clone, PartialEq, Eq)]
pub struct Spanned<T> {
    pub span: Span,
    pub data: T,
}

/// The types that a declaration can name.
#[derive(Debug, Clone, Copy, PartialEq, Eq, Structural)]
pub enum Typ {
    Num,
    Str,
    Bool,
    Void,
}

/// Binary operators of the language.
#[derive(Debug, Clone, Copy, PartialEq, Eq, Structural)]
pub enum Operator {
    Add,
    Sub,
    Mod,
    GEt,
    Lt,
    Eq,
}

/// An expression, with its sub-expressions tagged by position.
#[derive(Debug, PartialEq, Eq)]
pub enum Expression {
    Call(Spanned<String>, Vec<Spanned<Expression>>),
    Operation(Spanned<Operator>, Box<Spanned<Expression>>, Box<Spanned<Expression>>),
    StringLit(String),
    NumLit(i32),
    BoolLit(bool),
    Variable(String),
}

/// A statement of a function body.
#[derive(Debug, PartialEq, Eq)]
pub enum Statement {
    If(Spanned<Expression>, Spanned<Block>, Option<Spanned<Block>>),
    While(Spanned<Expression>, Spanned<Block>),
    Return(Option<Spanned<Expression>>),
    Expr(Spanned<Expression>),
    Declare(Spanned<String>, Spanned<Typ>),
    Define(Spanned<String>, Spanned<Expression>),
}

/// A sequence of statements.
pub type Block = Vec<Spanned<Statement>>;

/// A parameter of a function: its name and its declared type.
pub type Param = (Spanned<String>, Spanned<Typ>);

/// A top-level item of a file.
#[derive(Debug, PartialEq, Eq)]
pub enum Ast {
    /// A function: name, return type, parameters, body.
    Func(Spanned<String>, Spanned<Typ>, Vec<Spanned<Param>>, Spanned<Block>),
    /// A submodule declaration: a file of that name must exist.
    Mod(Spanned<String>),
    /// An import: a path of names whose last segment is the imported item.
    Import(Spanned<Vec<String>>),
}

impl Typ {
    /// The name under which the type is shown in diagnostics.
    pub fn name(&self) -> (r: String)
        ensures
            r@ == self.spec_name(),
    {
        proof {
            reveal_strlit("int");
            reveal_strlit("string");
            reveal_strlit("boolean");
            reveal_strlit("void");
        }
        match self {
            Typ::Num => String::from_str("int"),
            Typ::Str => String::from_str("string"),
            Typ::Bool => String::from_str("boolean"),
            Typ::Void => String::from_str("void"),
        }
    }

    pub open spec fn spec_name(&self) -> Seq<char> {
        match self {
            Typ::Num => "int"@,
            Typ::Str => "string"@,
            Typ::Bool => "boolean"@,
            Typ::Void => "void"@,
        }
    }
}

} // verus!
