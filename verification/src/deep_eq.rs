//! Equality of expressions and type expressions of two modules by what they
//! stand for, whatever their positions in the arenas.

use vstd::prelude::*;
use crate::hir::{Expr, ExprIdx, Literal, Name, Param, Term, TypeExpr, TypeExprIdx};
use crate::interner::name_text;
use crate::lexer::to_chars;
use crate::module::Module;
use crate::store::{expr_term_at, param_term, params_terms, type_term_at};

verus! {

/// Whether two strings hold the same characters.
pub fn same_text(a: &str, b: &str) -> (r: bool)
    ensures
        r == (a@ == b@),
{
    let x = to_chars(a);
    let y = to_chars(b);
    if x.len() != y.len() {
        return false;
    }
    let mut i: usize = 0;
    while i < x.len()
        invariant
            i <= x.len(),
            x.len() == y.len(),
            x@ == a@,
            y@ == b@,
            forall|j: int| 0 <= j < i ==> x@[j] == y@[j],
        decreases x.len() - i,
    {
        if x[i] != y[i] {
            return false;
        }
        i = i + 1;
    }
    proof {
        assert(a@ =~= b@);
    }
    true
}

/// Whether two names, each of its own module, are spelled alike.
pub fn name_deep_eq(a: &Module, b: &Module, x: Name, y: Name) -> (r: bool)
    ensures
        r == (name_text(a.store().names, x) == name_text(b.store().names, y)),
{
    same_text(a.lookup(x), b.lookup(y))
}

/// Whether the type expressions at two positions, each of its own module,
/// stand for the same tree.
pub fn type_expr_deep_eq(a: &Module, b: &Module, x: TypeExprIdx, y: TypeExprIdx) -> (r: bool)
    ensures
        r == (type_term_at(a.store(), x.raw as nat) == type_term_at(b.store(), y.raw as nat)),
    decreases x.raw,
{
    let missing = TypeExpr::Missing;
    let left = match a.type_expr(x) {
        Some(t) => t,
        None => &missing,
    };
    let right = match b.type_expr(y) {
        Some(t) => t,
        None => &missing,
    };
    match left {
        TypeExpr::Missing => match right {
            TypeExpr::Missing => true,
            _ => false,
        },
        TypeExpr::IdentTypeExpr { name } => match right {
            TypeExpr::IdentTypeExpr { name: other } => name_deep_eq(a, b, *name, *other),
            _ => false,
        },
        TypeExpr::TypeArrow { from, to } => match right {
            TypeExpr::TypeArrow { from: other_from, to: other_to } => {
                let same_from = if from.raw < x.raw {
                    if other_from.raw < y.raw {
                        type_expr_deep_eq(a, b, *from, *other_from)
                    } else {
                        type_is_missing(a, *from)
                    }
                } else {
                    if other_from.raw < y.raw {
                        type_is_missing(b, *other_from)
                    } else {
                        true
                    }
                };
                let same_to = if to.raw < x.raw {
                    if other_to.raw < y.raw {
                        type_expr_deep_eq(a, b, *to, *other_to)
                    } else {
                        type_is_missing(a, *to)
                    }
                } else {
                    if other_to.raw < y.raw {
                        type_is_missing(b, *other_to)
                    } else {
                        true
                    }
                };
                same_from && same_to
            },
            _ => false,
        },
    }
}

/// Whether the position stands for a missing type expression.
pub fn type_is_missing(m: &Module, x: TypeExprIdx) -> (r: bool)
    ensures
        r == (type_term_at(m.store(), x.raw as nat) is Missing),
{
    match m.type_expr(x) {
        Some(t) => match t {
            TypeExpr::Missing => true,
            _ => false,
        },
        None => true,
    }
}

/// Whether the position stands for a missing expression.
pub fn expr_is_missing(m: &Module, x: ExprIdx) -> (r: bool)
    ensures
        r == (expr_term_at(m.store(), x.raw as nat) is Missing),
{
    match m.expr(x) {
        Some(e) => match e {
            Expr::Missing => true,
            _ => false,
        },
        None => true,
    }
}

/// Whether two parameters, each of its own module, stand for the same.
pub fn param_deep_eq(a: &Module, b: &Module, x: &Param, y: &Param) -> (r: bool)
    ensures
        r == (param_term(a.store(), *x) == param_term(b.store(), *y)),
{
    name_deep_eq(a, b, x.name, y.name) && type_expr_deep_eq(a, b, x.typ, y.typ)
}

/// Whether two lists of parameters, each of its own module, stand for the
/// same.
pub fn params_deep_eq(a: &Module, b: &Module, x: &Vec<Param>, y: &Vec<Param>) -> (r: bool)
    ensures
        r == (params_terms(a.store(), x@) == params_terms(b.store(), y@)),
{
    if x.len() != y.len() {
        proof {
            assert(params_terms(a.store(), x@).len() != params_terms(b.store(), y@).len());
        }
        return false;
    }
    let mut i: usize = 0;
    while i < x.len()
        invariant
            i <= x.len(),
            x.len() == y.len(),
            forall|j: int|
                0 <= j < i ==> param_term(a.store(), x@[j]) == param_term(b.store(), y@[j]),
        decreases x.len() - i,
    {
        if !param_deep_eq(a, b, &x[i], &y[i]) {
            proof {
                assert(params_terms(a.store(), x@)[i as int] != params_terms(b.store(), y@)[i as int]);
            }
            return false;
        }
        i = i + 1;
    }
    proof {
        assert(params_terms(a.store(), x@) =~= params_terms(b.store(), y@));
    }
    true
}

/// Whether two parts, each of its own expression, stand for the same tree. A
/// part that does not point back from the expression it belongs to counts as
/// missing.
fn part_deep_eq(a: &Module, b: &Module, x: ExprIdx, px: ExprIdx, y: ExprIdx, py: ExprIdx) -> (r:
    bool)
    ensures
        r == ((if px.raw < x.raw {
            expr_term_at(a.store(), px.raw as nat)
        } else {
            Term::Missing
        }) == (if py.raw < y.raw {
            expr_term_at(b.store(), py.raw as nat)
        } else {
            Term::Missing
        })),
    decreases x.raw, 0nat,
{
    if px.raw < x.raw {
        if py.raw < y.raw {
            expr_deep_eq(a, b, px, py)
        } else {
            expr_is_missing(a, px)
        }
    } else {
        if py.raw < y.raw {
            expr_is_missing(b, py)
        } else {
            true
        }
    }
}

/// Whether the expressions at two positions, each of its own module, stand
/// for the same tree: names are compared by their spelling, parts by what they
/// stand for.
pub fn expr_deep_eq(a: &Module, b: &Module, x: ExprIdx, y: ExprIdx) -> (r: bool)
    ensures
        r == (expr_term_at(a.store(), x.raw as nat) == expr_term_at(b.store(), y.raw as nat)),
    decreases x.raw, 1nat,
{
    let missing = Expr::Missing;
    let left = match a.expr(x) {
        Some(e) => e,
        None => &missing,
    };
    let right = match b.expr(y) {
        Some(e) => e,
        None => &missing,
    };
    match left {
        Expr::Missing => match right {
            Expr::Missing => true,
            _ => false,
        },
        Expr::LetExpr(l) => match right {
            Expr::LetExpr(r) => {
                name_deep_eq(a, b, l.name, r.name) && params_deep_eq(a, b, &l.params, &r.params)
                    && type_expr_deep_eq(a, b, l.return_type, r.return_type) && part_deep_eq(
                    a,
                    b,
                    x,
                    l.defn,
                    y,
                    r.defn,
                ) && part_deep_eq(a, b, x, l.body, y, r.body)
            },
            _ => false,
        },
        Expr::IdentExpr { name } => match right {
            Expr::IdentExpr { name: other } => name_deep_eq(a, b, *name, *other),
            _ => false,
        },
        Expr::LambdaExpr { param, return_type, body } => match right {
            Expr::LambdaExpr { param: other_param, return_type: other_type, body: other_body } => {
                param_deep_eq(a, b, param, other_param) && type_expr_deep_eq(
                    a,
                    b,
                    *return_type,
                    *other_type,
                ) && part_deep_eq(a, b, x, *body, y, *other_body)
            },
            _ => false,
        },
        Expr::AppExpr { func, arg } => match right {
            Expr::AppExpr { func: other_func, arg: other_arg } => {
                part_deep_eq(a, b, x, *func, y, *other_func) && part_deep_eq(
                    a,
                    b,
                    x,
                    *arg,
                    y,
                    *other_arg,
                )
            },
            _ => false,
        },
        Expr::LiteralExpr(l) => match right {
            Expr::LiteralExpr(r) => match (l, r) {
                (Literal::Int(v), Literal::Int(w)) => *v == *w,
                (Literal::Bool(v), Literal::Bool(w)) => *v == *w,
                (Literal::Unit, Literal::Unit) => true,
                _ => false,
            },
            _ => false,
        },
    }
}

} // verus!
