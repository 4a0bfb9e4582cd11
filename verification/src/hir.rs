//! The intermediate representation: expressions and type expressions that refer
//! to each other by position, and the terms that they stand for.

use vstd::prelude::*;

verus! {

/// An interned identifier: equal spellings have equal handles.
#[derive(Clone, Copy, Debug, PartialEq, Eq, Hash, Structural)]
pub struct Name {
    pub raw: u32,
}

/// The position of an expression in the arena of expressions.
#[derive(Clone, Copy, Debug, PartialEq, Eq, Hash, Structural)]
pub struct ExprIdx {
    pub raw: u32,
}

/// The position of a type expression in the arena of type expressions.
#[derive(Clone, Copy, Debug, PartialEq, Eq, Hash, Structural)]
pub struct TypeExprIdx {
    pub raw: u32,
}

/// The position 0 of the arena of expressions, which holds `Expr::Missing`.
pub fn missing_expr_id() -> (idx: ExprIdx)
    ensures
        idx.raw == 0,
{
    ExprIdx { raw: 0 }
}

/// The position 0 of the arena of type expressions, which holds
/// `TypeExpr::Missing`.
pub fn missing_type_expr_id() -> (idx: TypeExprIdx)
    ensures
        idx.raw == 0,
{
    TypeExprIdx { raw: 0 }
}

#[derive(Clone, Copy, Debug, PartialEq, Eq, Structural)]
pub enum Literal {
    Int(i64),
    Bool(bool),
    Unit,
}

/// A parameter: its name and its type, which is missing where none was written.
#[derive(Clone, Copy, Debug, PartialEq, Eq, Structural)]
pub struct Param {
    pub name: Name,
    pub typ: TypeExprIdx,
}

/// `let name params : return_type = defn` in front of `body`.
#[derive(Clone, Debug, PartialEq)]
pub struct LetExpr {
    pub name: Name,
    pub params: Vec<Param>,
    pub return_type: TypeExprIdx,
    pub defn: ExprIdx,
    pub body: ExprIdx,
}

#[derive(Clone, Debug, PartialEq)]
pub enum Expr {
    Missing,
    LetExpr(Box<LetExpr>),
    IdentExpr { name: Name },
    LambdaExpr { param: Param, return_type: TypeExprIdx, body: ExprIdx },
    AppExpr { func: ExprIdx, arg: ExprIdx },
    LiteralExpr(Literal),
}

#[derive(Clone, Copy, Debug, PartialEq, Eq, Structural)]
pub enum TypeExpr {
    Missing,
    IdentTypeExpr { name: Name },
    TypeArrow { from: TypeExprIdx, to: TypeExprIdx },
}

/// `def name params : return_type = body`. The parameters and the return
/// type are kept as they were written; `defn` is the position of what the name
/// is bound to: the body, or, with parameters, the outermost of the closures of
/// the parameters around the body.
#[derive(Clone, Debug, PartialEq)]
pub struct Definition {
    pub name: Name,
    pub params: Vec<Param>,
    pub return_type: TypeExprIdx,
    pub defn: ExprIdx,
}

/// `open path`.
#[derive(Clone, Copy, Debug, PartialEq, Eq, Structural)]
pub struct Open {
    pub path: Name,
}

/// `type name = defn`.
#[derive(Clone, Copy, Debug, PartialEq, Eq, Structural)]
pub struct TypeDefinition {
    pub name: Name,
    pub defn: TypeExprIdx,
}

/// What lowering cannot do.
#[derive(Clone, Copy, Debug, PartialEq, Eq, Structural)]
pub enum LowerError {
    /// The tree holds a binary expression where an expression is lowered.
    /// Binary operators have no lowering yet.
    UnsupportedBinaryExpr,
}

impl Expr {
    pub fn ident_expr(name: Name) -> (e: Expr)
        ensures
            e == (Expr::IdentExpr { name }),
    {
        Expr::IdentExpr { name }
    }

    pub fn int_expr(value: i64) -> (e: Expr)
        ensures
            e == Expr::LiteralExpr(Literal::Int(value)),
    {
        Expr::LiteralExpr(Literal::Int(value))
    }

    pub fn lambda_expr(param: Param, return_type: TypeExprIdx, body: ExprIdx) -> (e: Expr)
        ensures
            e == (Expr::LambdaExpr { param, return_type, body }),
    {
        Expr::LambdaExpr { param, return_type, body }
    }

    pub fn let_expr(
        name: Name,
        params: Vec<Param>,
        return_type: TypeExprIdx,
        defn: ExprIdx,
        body: ExprIdx,
    ) -> (e: Expr)
        ensures
            e == Expr::LetExpr(Box::new(LetExpr { name, params, return_type, defn, body })),
    {
        Expr::LetExpr(Box::new(LetExpr { name, params, return_type, defn, body }))
    }
}

/// A type expression as a tree: names by their spelling, parts in place.
pub enum TypeTerm {
    Missing,
    Ident(Seq<char>),
    Arrow(Box<TypeTerm>, Box<TypeTerm>),
}

/// A parameter as a plain value.
pub struct ParamTerm {
    pub name: Seq<char>,
    pub typ: TypeTerm,
}

/// An expression as a tree: names by their spelling, parts in place.
pub enum Term {
    Missing,
    /// What a binary expression of the source stands for, until binary
    /// operators have a lowering. No expression of an arena stands for it.
    Unsupported,
    Let { name: Seq<char>, params: Seq<ParamTerm>, return_type: TypeTerm, defn: Box<Term>, body: Box<Term> },
    Ident(Seq<char>),
    Lambda { param: ParamTerm, return_type: TypeTerm, body: Box<Term> },
    App { func: Box<Term>, arg: Box<Term> },
    Literal(Literal),
}

/// A definition as a plain value.
pub struct DefinitionTerm {
    pub name: Seq<char>,
    pub params: Seq<ParamTerm>,
    pub return_type: TypeTerm,
    pub defn: Term,
}

/// A type definition as a plain value.
pub struct TypeDefinitionTerm {
    pub name: Seq<char>,
    pub defn: TypeTerm,
}

/// What the arenas and the table of names hold, as plain values.
pub struct Store {
    pub exprs: Seq<Expr>,
    pub types: Seq<TypeExpr>,
    pub names: Seq<Seq<char>>,
}

} // verus!
