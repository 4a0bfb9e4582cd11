//! What the arenas of a module mean: the term that a position stands for, and
//! what stays as the arenas grow.

use vstd::prelude::*;
use crate::hir::{Expr, Literal, Name, Param, ParamTerm, Store, Term, TypeExpr, TypeTerm};
use crate::interner::{distinct, name_text};

verus! {

/// The type expression at the position `idx`, as a tree. A reference that
/// does not point back to an earlier position stands for a missing part.
pub open spec fn type_term_at(s: Store, idx: nat) -> TypeTerm
    decreases idx,
{
    if idx < s.types.len() {
        match s.types[idx as int] {
            TypeExpr::Missing => TypeTerm::Missing,
            TypeExpr::IdentTypeExpr { name } => TypeTerm::Ident(name_text(s.names, name)),
            TypeExpr::TypeArrow { from, to } => TypeTerm::Arrow(
                Box::new(
                    if from.raw < idx {
                        type_term_at(s, from.raw as nat)
                    } else {
                        TypeTerm::Missing
                    },
                ),
                Box::new(
                    if to.raw < idx {
                        type_term_at(s, to.raw as nat)
                    } else {
                        TypeTerm::Missing
                    },
                ),
            ),
        }
    } else {
        TypeTerm::Missing
    }
}

/// A type expression that may not be in the arena yet, as a tree.
pub open spec fn type_value_term(s: Store, t: TypeExpr) -> TypeTerm {
    match t {
        TypeExpr::Missing => TypeTerm::Missing,
        TypeExpr::IdentTypeExpr { name } => TypeTerm::Ident(name_text(s.names, name)),
        TypeExpr::TypeArrow { from, to } => TypeTerm::Arrow(
            Box::new(type_term_at(s, from.raw as nat)),
            Box::new(type_term_at(s, to.raw as nat)),
        ),
    }
}

pub open spec fn param_term(s: Store, p: Param) -> ParamTerm {
    ParamTerm { name: name_text(s.names, p.name), typ: type_term_at(s, p.typ.raw as nat) }
}

pub open spec fn params_terms(s: Store, params: Seq<Param>) -> Seq<ParamTerm> {
    params.map_values(|p: Param| param_term(s, p))
}

/// The expression at the position `idx`, as a tree. A reference that does not
/// point back to an earlier position stands for a missing part.
pub open spec fn expr_term_at(s: Store, idx: nat) -> Term
    decreases idx,
{
    if idx < s.exprs.len() {
        match s.exprs[idx as int] {
            Expr::Missing => Term::Missing,
            Expr::LetExpr(b) => Term::Let {
                name: name_text(s.names, b.name),
                params: params_terms(s, b.params@),
                return_type: type_term_at(s, b.return_type.raw as nat),
                defn: Box::new(
                    if b.defn.raw < idx {
                        expr_term_at(s, b.defn.raw as nat)
                    } else {
                        Term::Missing
                    },
                ),
                body: Box::new(
                    if b.body.raw < idx {
                        expr_term_at(s, b.body.raw as nat)
                    } else {
                        Term::Missing
                    },
                ),
            },
            Expr::IdentExpr { name } => Term::Ident(name_text(s.names, name)),
            Expr::LambdaExpr { param, return_type, body } => Term::Lambda {
                param: param_term(s, param),
                return_type: type_term_at(s, return_type.raw as nat),
                body: Box::new(
                    if body.raw < idx {
                        expr_term_at(s, body.raw as nat)
                    } else {
                        Term::Missing
                    },
                ),
            },
            Expr::AppExpr { func, arg } => Term::App {
                func: Box::new(
                    if func.raw < idx {
                        expr_term_at(s, func.raw as nat)
                    } else {
                        Term::Missing
                    },
                ),
                arg: Box::new(
                    if arg.raw < idx {
                        expr_term_at(s, arg.raw as nat)
                    } else {
                        Term::Missing
                    },
                ),
            },
            Expr::LiteralExpr(l) => Term::Literal(l),
        }
    } else {
        Term::Missing
    }
}

/// An expression that may not be in the arena yet, as a tree.
pub open spec fn expr_value_term(s: Store, e: Expr) -> Term {
    match e {
        Expr::Missing => Term::Missing,
        Expr::LetExpr(b) => Term::Let {
            name: name_text(s.names, b.name),
            params: params_terms(s, b.params@),
            return_type: type_term_at(s, b.return_type.raw as nat),
            defn: Box::new(expr_term_at(s, b.defn.raw as nat)),
            body: Box::new(expr_term_at(s, b.body.raw as nat)),
        },
        Expr::IdentExpr { name } => Term::Ident(name_text(s.names, name)),
        Expr::LambdaExpr { param, return_type, body } => Term::Lambda {
            param: param_term(s, param),
            return_type: type_term_at(s, return_type.raw as nat),
            body: Box::new(expr_term_at(s, body.raw as nat)),
        },
        Expr::AppExpr { func, arg } => Term::App {
            func: Box::new(expr_term_at(s, func.raw as nat)),
            arg: Box::new(expr_term_at(s, arg.raw as nat)),
        },
        Expr::LiteralExpr(l) => Term::Literal(l),
    }
}

pub open spec fn name_ok(s: Store, n: Name) -> bool {
    n.raw < s.names.len()
}

/// The references of `t` are names of the table and positions below `bound`.
pub open spec fn type_ok(s: Store, t: TypeExpr, bound: nat) -> bool {
    match t {
        TypeExpr::Missing => true,
        TypeExpr::IdentTypeExpr { name } => name_ok(s, name),
        TypeExpr::TypeArrow { from, to } => from.raw < bound && to.raw < bound,
    }
}

pub open spec fn param_ok(s: Store, p: Param) -> bool {
    name_ok(s, p.name) && p.typ.raw < s.types.len()
}

pub open spec fn params_ok(s: Store, params: Seq<Param>) -> bool {
    forall|i: int| 0 <= i < params.len() ==> param_ok(s, #[trigger] params[i])
}

/// The references of `e` are names of the table, positions of type
/// expressions, and positions of expressions below `bound`.
pub open spec fn expr_ok(s: Store, e: Expr, bound: nat) -> bool {
    match e {
        Expr::Missing => true,
        Expr::LetExpr(b) => {
            &&& name_ok(s, b.name)
            &&& params_ok(s, b.params@)
            &&& b.return_type.raw < s.types.len()
            &&& b.defn.raw < bound
            &&& b.body.raw < bound
        },
        Expr::IdentExpr { name } => name_ok(s, name),
        Expr::LambdaExpr { param, return_type, body } => {
            &&& param_ok(s, param)
            &&& return_type.raw < s.types.len()
            &&& body.raw < bound
        },
        Expr::AppExpr { func, arg } => func.raw < bound && arg.raw < bound,
        Expr::LiteralExpr(_) => true,
    }
}

/// The invariant of the arenas. The position 0 of each holds `Missing`, and
/// no other position does; every reference points back, to an earlier
/// position; no name stands in the table twice.
pub open spec fn store_wf(s: Store) -> bool {
    &&& s.exprs.len() >= 1
    &&& s.exprs[0] is Missing
    &&& forall|i: int| 1 <= i < s.exprs.len() ==> !(#[trigger] s.exprs[i] is Missing)
    &&& forall|i: int| 0 <= i < s.exprs.len() ==> expr_ok(s, #[trigger] s.exprs[i], i as nat)
    &&& s.types.len() >= 1
    &&& s.types[0] is Missing
    &&& forall|i: int| 1 <= i < s.types.len() ==> !(#[trigger] s.types[i] is Missing)
    &&& forall|i: int| 0 <= i < s.types.len() ==> type_ok(s, #[trigger] s.types[i], i as nat)
    &&& distinct(s.names)
}

/// `after` holds what `before` holds, at the same positions.
pub open spec fn grows(before: Store, after: Store) -> bool {
    &&& before.exprs.len() <= after.exprs.len()
    &&& forall|i: int| 0 <= i < before.exprs.len() ==> #[trigger] after.exprs[i] == before.exprs[i]
    &&& before.types.len() <= after.types.len()
    &&& forall|i: int| 0 <= i < before.types.len() ==> #[trigger] after.types[i] == before.types[i]
    &&& before.names.len() <= after.names.len()
    &&& forall|i: int| 0 <= i < before.names.len() ==> #[trigger] after.names[i] == before.names[i]
}

/// Every position is a value of its index type.
pub open spec fn fits(s: Store) -> bool {
    s.exprs.len() <= 0x1_0000_0000 && s.types.len() <= 0x1_0000_0000 && s.names.len()
        <= 0x1_0000_0000
}

pub proof fn lemma_grows_trans(a: Store, b: Store, c: Store)
    requires
        grows(a, b),
        grows(b, c),
    ensures
        grows(a, c),
        fits(c) ==> fits(b),
{
    assert forall|i: int| 0 <= i < a.exprs.len() implies #[trigger] c.exprs[i] == a.exprs[i] by {
        assert(b.exprs[i] == a.exprs[i]);
    }
    assert forall|i: int| 0 <= i < a.types.len() implies #[trigger] c.types[i] == a.types[i] by {
        assert(b.types[i] == a.types[i]);
    }
    assert forall|i: int| 0 <= i < a.names.len() implies #[trigger] c.names[i] == a.names[i] by {
        assert(b.names[i] == a.names[i]);
    }
}

/// What a position held stays what it stands for when the arenas grow.
pub proof fn lemma_type_stable(a: Store, b: Store, idx: nat)
    requires
        store_wf(a),
        grows(a, b),
        idx < a.types.len(),
    ensures
        type_term_at(b, idx) == type_term_at(a, idx),
    decreases idx,
{
    assert(b.types[idx as int] == a.types[idx as int]);
    assert(type_ok(a, a.types[idx as int], idx));
    match a.types[idx as int] {
        TypeExpr::TypeArrow { from, to } => {
            lemma_type_stable(a, b, from.raw as nat);
            lemma_type_stable(a, b, to.raw as nat);
        },
        TypeExpr::IdentTypeExpr { name } => {
            assert(b.names[name.raw as int] == a.names[name.raw as int]);
        },
        _ => {},
    }
}

pub proof fn lemma_param_stable(a: Store, b: Store, p: Param)
    requires
        store_wf(a),
        grows(a, b),
        param_ok(a, p),
    ensures
        param_term(b, p) == param_term(a, p),
{
    lemma_type_stable(a, b, p.typ.raw as nat);
    assert(b.names[p.name.raw as int] == a.names[p.name.raw as int]);
}

pub proof fn lemma_params_stable(a: Store, b: Store, params: Seq<Param>)
    requires
        store_wf(a),
        grows(a, b),
        params_ok(a, params),
    ensures
        params_terms(b, params) == params_terms(a, params),
        params_ok(b, params),
{
    assert forall|i: int| 0 <= i < params.len() implies param_term(b, params[i]) == param_term(
        a,
        params[i],
    ) by {
        assert(param_ok(a, params[i]));
        lemma_param_stable(a, b, params[i]);
    }
    assert(params_terms(b, params) =~= params_terms(a, params));
    assert forall|i: int| 0 <= i < params.len() implies param_ok(b, #[trigger] params[i]) by {
        assert(param_ok(a, params[i]));
    }
}

/// What a position held stays what it stands for when the arenas grow.
pub proof fn lemma_expr_stable(a: Store, b: Store, idx: nat)
    requires
        store_wf(a),
        grows(a, b),
        idx < a.exprs.len(),
    ensures
        expr_term_at(b, idx) == expr_term_at(a, idx),
    decreases idx,
{
    assert(b.exprs[idx as int] == a.exprs[idx as int]);
    assert(expr_ok(a, a.exprs[idx as int], idx));
    match a.exprs[idx as int] {
        Expr::LetExpr(l) => {
            lemma_params_stable(a, b, l.params@);
            lemma_type_stable(a, b, l.return_type.raw as nat);
            lemma_expr_stable(a, b, l.defn.raw as nat);
            lemma_expr_stable(a, b, l.body.raw as nat);
            assert(b.names[l.name.raw as int] == a.names[l.name.raw as int]);
        },
        Expr::IdentExpr { name } => {
            assert(b.names[name.raw as int] == a.names[name.raw as int]);
        },
        Expr::LambdaExpr { param, return_type, body } => {
            lemma_param_stable(a, b, param);
            lemma_type_stable(a, b, return_type.raw as nat);
            lemma_expr_stable(a, b, body.raw as nat);
        },
        Expr::AppExpr { func, arg } => {
            lemma_expr_stable(a, b, func.raw as nat);
            lemma_expr_stable(a, b, arg.raw as nat);
        },
        _ => {},
    }
}

/// A value whose references are in range stands for the same tree when the
/// arenas grow, and its references stay in range.
pub proof fn lemma_type_value_stable(a: Store, b: Store, t: TypeExpr)
    requires
        store_wf(a),
        grows(a, b),
        type_ok(a, t, a.types.len()),
    ensures
        type_value_term(b, t) == type_value_term(a, t),
        type_ok(b, t, b.types.len()),
{
    match t {
        TypeExpr::TypeArrow { from, to } => {
            lemma_type_stable(a, b, from.raw as nat);
            lemma_type_stable(a, b, to.raw as nat);
        },
        TypeExpr::IdentTypeExpr { name } => {
            assert(b.names[name.raw as int] == a.names[name.raw as int]);
        },
        _ => {},
    }
}

pub proof fn lemma_expr_value_stable(a: Store, b: Store, e: Expr)
    requires
        store_wf(a),
        grows(a, b),
        expr_ok(a, e, a.exprs.len()),
    ensures
        expr_value_term(b, e) == expr_value_term(a, e),
        expr_ok(b, e, b.exprs.len()),
{
    match e {
        Expr::LetExpr(l) => {
            lemma_params_stable(a, b, l.params@);
            lemma_type_stable(a, b, l.return_type.raw as nat);
            lemma_expr_stable(a, b, l.defn.raw as nat);
            lemma_expr_stable(a, b, l.body.raw as nat);
            assert(b.names[l.name.raw as int] == a.names[l.name.raw as int]);
        },
        Expr::IdentExpr { name } => {
            assert(b.names[name.raw as int] == a.names[name.raw as int]);
        },
        Expr::LambdaExpr { param, return_type, body } => {
            lemma_param_stable(a, b, param);
            lemma_type_stable(a, b, return_type.raw as nat);
            lemma_expr_stable(a, b, body.raw as nat);
        },
        Expr::AppExpr { func, arg } => {
            lemma_expr_stable(a, b, func.raw as nat);
            lemma_expr_stable(a, b, arg.raw as nat);
        },
        _ => {},
    }
}

/// In a well-formed store a position stands for what its value stands for.
pub proof fn lemma_type_at_value(s: Store, idx: nat)
    requires
        store_wf(s),
        idx < s.types.len(),
    ensures
        type_term_at(s, idx) == type_value_term(s, s.types[idx as int]),
{
    assert(type_ok(s, s.types[idx as int], idx));
}

pub proof fn lemma_expr_at_value(s: Store, idx: nat)
    requires
        store_wf(s),
        idx < s.exprs.len(),
    ensures
        expr_term_at(s, idx) == expr_value_term(s, s.exprs[idx as int]),
{
    assert(expr_ok(s, s.exprs[idx as int], idx));
}

} // verus!
