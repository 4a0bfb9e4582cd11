//! What a syntax node lowers to, as a term: currying, blocks as nested
//! let-bindings, and what counts as missing.

use vstd::prelude::*;
use crate::ast::{is_node_of, node_index, NodeClass, token_index};
use crate::hir::{DefinitionTerm, Literal, ParamTerm, Term, TypeDefinitionTerm, TypeTerm};
use crate::syntax_kind::SyntaxKind;
use crate::tree::{SyntaxElement, SyntaxNode};

verus! {

/// The text of the first identifier among the children of `node`; empty when
/// there is none.
pub open spec fn ident_text(node: SyntaxNode) -> Seq<char> {
    match node.spec_token(SyntaxKind::IDENT, 0) {
        Some(t) => t.text@,
        None => Seq::empty(),
    }
}

/// What a type expression of the source stands for.
///
/// An identifier stands for itself, parentheses for what they hold, and
/// `a -> b` for the arrow from `a`, the type expression before the arrow token,
/// to `b`, the one after it: with `b` an arrow again, `a -> b -> c` is
/// `a -> (b -> c)`. What is absent is `Missing`.
pub open spec fn type_of(node: SyntaxNode) -> TypeTerm
    decreases node,
{
    let children = node.children@;
    if node.kind == SyntaxKind::TYPE_IDENT {
        match node.spec_token(SyntaxKind::IDENT, 0) {
            Some(t) => TypeTerm::Ident(t.text@),
            None => TypeTerm::Missing,
        }
    } else if node.kind == SyntaxKind::TYPE_ARROW {
        let arrow = token_index(children, SyntaxKind::ARROW, 0);
        let from = node_index(children, NodeClass::TypeExpr, 0);
        let to = node_index(children, NodeClass::TypeExpr, arrow + 1);
        TypeTerm::Arrow(
            Box::new(
                if 0 <= from < arrow && from < children.len() && children[from] is Node {
                    type_of(children[from]->Node_0)
                } else {
                    TypeTerm::Missing
                },
            ),
            Box::new(
                if 0 <= to < children.len() && children[to] is Node {
                    type_of(children[to]->Node_0)
                } else {
                    TypeTerm::Missing
                },
            ),
        )
    } else if node.kind == SyntaxKind::TYPE_PAREN {
        let inner = node_index(children, NodeClass::TypeExpr, 0);
        if 0 <= inner < children.len() && children[inner] is Node {
            type_of(children[inner]->Node_0)
        } else {
            TypeTerm::Missing
        }
    } else {
        TypeTerm::Missing
    }
}

pub open spec fn type_of_opt(node: Option<SyntaxNode>) -> TypeTerm {
    match node {
        Some(n) => type_of(n),
        None => TypeTerm::Missing,
    }
}

/// The type that an annotation `: type` gives; `Missing` without annotation.
pub open spec fn annotation_of(node: Option<SyntaxNode>) -> TypeTerm {
    match node {
        Some(a) => type_of_opt(a.spec_child(NodeClass::TypeExpr, 0)),
        None => TypeTerm::Missing,
    }
}

/// The annotation among the children of `node`, as a type.
pub open spec fn annotated_type(node: SyntaxNode) -> TypeTerm {
    annotation_of(node.spec_child(NodeClass::Kind(SyntaxKind::TYPE_ANNOTATION), 0))
}

/// A parameter: its name, empty where the identifier is missing, and its
/// annotated type.
pub open spec fn param_of(node: SyntaxNode) -> ParamTerm {
    ParamTerm { name: ident_text(node), typ: annotated_type(node) }
}

/// The parameters among the first `n` children.
pub open spec fn params_upto(children: Seq<SyntaxElement>, n: nat) -> Seq<ParamTerm>
    decreases n,
{
    if n == 0 || n > children.len() {
        Seq::empty()
    } else {
        let before = params_upto(children, (n - 1) as nat);
        if is_node_of(children, NodeClass::Kind(SyntaxKind::PARAM), n - 1) {
            before.push(param_of(children[n - 1]->Node_0))
        } else {
            before
        }
    }
}

/// The parameters of a node `PARAMS`, in the order of the source; none
/// without such a node.
pub open spec fn params_of(node: Option<SyntaxNode>) -> Seq<ParamTerm> {
    match node {
        Some(p) => params_upto(p.children@, p.children@.len()),
        None => Seq::empty(),
    }
}

/// The parameters of the node `PARAMS` among the children of `node`.
pub open spec fn params_in(node: SyntaxNode) -> Seq<ParamTerm> {
    params_of(node.spec_child(NodeClass::Kind(SyntaxKind::PARAMS), 0))
}

/// The parameter of a closure that was written without any.
pub open spec fn empty_param() -> ParamTerm {
    ParamTerm { name: Seq::empty(), typ: TypeTerm::Missing }
}

/// `inner` under one closure for each parameter, the first parameter
/// outermost. None of these closures has a return type.
pub open spec fn closures(params: Seq<ParamTerm>, inner: Term) -> Term
    decreases params.len(),
{
    if params.len() == 0 {
        inner
    } else {
        closures(
            params.drop_last(),
            Term::Lambda {
                param: params.last(),
                return_type: TypeTerm::Missing,
                body: Box::new(inner),
            },
        )
    }
}

/// Currying: a function of the parameters `params` with the result type
/// `return_type` and the body `body`, as nested closures of one parameter
/// each. The innermost closure binds the last parameter and has the return
/// type; the closures around it bind the parameters before it, the first
/// outermost, and have none. Without parameters it is one closure of the empty
/// parameter.
pub open spec fn curried(params: Seq<ParamTerm>, return_type: TypeTerm, body: Term) -> Term {
    if params.len() == 0 {
        Term::Lambda { param: empty_param(), return_type, body: Box::new(body) }
    } else {
        closures(
            params.drop_last(),
            Term::Lambda { param: params.last(), return_type, body: Box::new(body) },
        )
    }
}

pub open spec fn is_digit_char(c: char) -> bool {
    '0' <= c && c <= '9'
}

/// The number that a sequence of digits spells.
pub open spec fn digits_value(text: Seq<char>) -> int
    decreases text.len(),
{
    if text.len() == 0 {
        0
    } else {
        digits_value(text.drop_last()) * 10 + (text.last() as int - '0' as int)
    }
}

pub open spec fn all_digits(text: Seq<char>) -> bool {
    forall|i: int| 0 <= i < text.len() ==> is_digit_char(#[trigger] text[i])
}

/// The integer literal that `text` spells: `Missing` unless `text` is made of
/// digits and spells a number that an `i64` can hold.
pub open spec fn int_literal(text: Seq<char>) -> Term {
    if text.len() > 0 && all_digits(text) && digits_value(text) <= i64::MAX {
        Term::Literal(Literal::Int(digits_value(text) as i64))
    } else {
        Term::Missing
    }
}

pub open spec fn unit() -> Term {
    Term::Literal(Literal::Unit)
}

/// What an expression of the source stands for.
///
/// An identifier and an integer stand for themselves. Parentheses stand for
/// the application or the expression they hold, and for the unit value when
/// they hold nothing. A lambda stands for its curried form. A block stands for
/// its statements as nested `let`s around its tail. A binary expression is
/// `Unsupported`. What is absent is `Missing`.
pub open spec fn expr_of(node: SyntaxNode) -> Term
    decreases node, node.children@.len() + 2,
{
    let children = node.children@;
    if node.kind == SyntaxKind::IDENT_EXPR {
        match node.spec_token(SyntaxKind::IDENT, 0) {
            Some(t) => Term::Ident(t.text@),
            None => Term::Missing,
        }
    } else if node.kind == SyntaxKind::LITERAL_EXPR {
        match node.spec_token(SyntaxKind::INT, 0) {
            Some(t) => int_literal(t.text@),
            None => Term::Missing,
        }
    } else if node.kind == SyntaxKind::PAREN_EXPR {
        let app = node_index(children, NodeClass::Kind(SyntaxKind::APP_EXPR), 0);
        let inner = node_index(children, NodeClass::Expr, 0);
        if 0 <= app < children.len() && children[app] is Node {
            app_of(children[app]->Node_0)
        } else if 0 <= inner < children.len() && children[inner] is Node {
            expr_of(children[inner]->Node_0)
        } else {
            unit()
        }
    } else if node.kind == SyntaxKind::LAMBDA_EXPR {
        let body = node_index(children, NodeClass::Expr, 0);
        curried(
            params_in(node),
            annotated_type(node),
            if 0 <= body < children.len() && children[body] is Node {
                expr_of(children[body]->Node_0)
            } else {
                Term::Missing
            },
        )
    } else if node.kind == SyntaxKind::BLOCK_EXPR {
        let tail = node_index(children, NodeClass::Expr, 0);
        block_from(
            node,
            children.len(),
            if 0 <= tail < children.len() && children[tail] is Node {
                expr_of(children[tail]->Node_0)
            } else {
                unit()
            },
        )
    } else if node.kind == SyntaxKind::BINARY_EXPR {
        Term::Unsupported
    } else {
        Term::Missing
    }
}

/// What an application stands for. The function is the first node of the
/// application, an application itself or an expression; the argument is the
/// expression after it. So `(f a b)`, whose function is the application `f a`,
/// is `(f a) b`.
pub open spec fn app_of(node: SyntaxNode) -> Term
    decreases node, node.children@.len() + 2,
{
    let children = node.children@;
    let first = node_index(children, NodeClass::Any, 0);
    let arg = node_index(children, NodeClass::Expr, first + 1);
    Term::App {
        func: Box::new(
            if 0 <= first < children.len() && children[first] is Node {
                if children[first]->Node_0.kind == SyntaxKind::APP_EXPR {
                    app_of(children[first]->Node_0)
                } else if NodeClass::Expr.has(children[first]->Node_0.kind) {
                    expr_of(children[first]->Node_0)
                } else {
                    Term::Missing
                }
            } else {
                Term::Missing
            },
        ),
        arg: Box::new(
            if 0 <= arg < children.len() && children[arg] is Node {
                expr_of(children[arg]->Node_0)
            } else {
                Term::Missing
            },
        ),
    }
}

/// The statements among the first `n` children of the block `node`, as
/// `let`s around `cont`: the last statement is the innermost.
pub open spec fn block_from(node: SyntaxNode, n: nat, cont: Term) -> Term
    decreases node, n,
{
    let children = node.children@;
    if n == 0 || n > children.len() {
        cont
    } else if is_node_of(children, NodeClass::Stmt, n - 1) {
        block_from(node, (n - 1) as nat, stmt_of(children[n - 1]->Node_0, cont))
    } else {
        block_from(node, (n - 1) as nat, cont)
    }
}

/// A statement in front of `cont`. An expression statement is a `let` without
/// name, parameters and type, whose value is not used; without an expression
/// its value is the unit value. A `let` statement binds its name.
pub open spec fn stmt_of(node: SyntaxNode, cont: Term) -> Term
    decreases node, node.children@.len() + 2,
{
    let children = node.children@;
    let value = node_index(children, NodeClass::Expr, 0);
    if node.kind == SyntaxKind::EXPR_STMT {
        Term::Let {
            name: Seq::empty(),
            params: Seq::empty(),
            return_type: TypeTerm::Missing,
            defn: Box::new(
                if 0 <= value < children.len() && children[value] is Node {
                    expr_of(children[value]->Node_0)
                } else {
                    unit()
                },
            ),
            body: Box::new(cont),
        }
    } else {
        Term::Let {
            name: ident_text(node),
            params: params_in(node),
            return_type: annotated_type(node),
            defn: Box::new(
                if 0 <= value < children.len() && children[value] is Node {
                    expr_of(children[value]->Node_0)
                } else {
                    Term::Missing
                },
            ),
            body: Box::new(cont),
        }
    }
}

pub open spec fn expr_of_opt(node: Option<SyntaxNode>) -> Term {
    match node {
        Some(n) => expr_of(n),
        None => Term::Missing,
    }
}

/// An expression, or the unit value where there is none.
pub open spec fn expr_or_unit(node: Option<SyntaxNode>) -> Term {
    match node {
        Some(n) => expr_of(n),
        None => unit(),
    }
}

/// Whether a binary expression stands somewhere in `t`.
pub open spec fn has_unsupported(t: Term) -> bool
    decreases t,
{
    match t {
        Term::Unsupported => true,
        Term::Let { defn, body, .. } => has_unsupported(*defn) || has_unsupported(*body),
        Term::Lambda { body, .. } => has_unsupported(*body),
        Term::App { func, arg } => has_unsupported(*func) || has_unsupported(*arg),
        _ => false,
    }
}

/// The body of a definition: the block of its node `DEF_BODY`, or else the
/// expression there.
pub open spec fn body_of(node: SyntaxNode) -> Term {
    match node.spec_child(NodeClass::Kind(SyntaxKind::DEF_BODY), 0) {
        Some(body) => match body.spec_child(NodeClass::Kind(SyntaxKind::BLOCK_EXPR), 0) {
            Some(block) => expr_of(block),
            None => expr_of_opt(body.spec_child(NodeClass::Expr, 0)),
        },
        None => Term::Missing,
    }
}

/// The return type of a definition: its annotation; without one, the type of
/// the `let` that its body begins with, if it begins with one.
pub open spec fn return_type_of(node: SyntaxNode) -> TypeTerm {
    if node.spec_child(NodeClass::Kind(SyntaxKind::TYPE_ANNOTATION), 0) is Some {
        annotated_type(node)
    } else {
        match body_of(node) {
            Term::Let { return_type, .. } => return_type,
            _ => TypeTerm::Missing,
        }
    }
}

/// A definition as it is written: its name, its parameters, its return type
/// and its body.
pub open spec fn declared_of(node: SyntaxNode) -> DefinitionTerm {
    DefinitionTerm {
        name: ident_text(node),
        params: params_in(node),
        return_type: return_type_of(node),
        defn: body_of(node),
    }
}

/// What a definition binds its name to: the body itself where the definition
/// has no parameters; else the body under its parameters, curried, with the
/// return type at the innermost closure.
pub open spec fn definition_value_term(d: DefinitionTerm) -> Term {
    if d.params.len() == 0 {
        d.defn
    } else {
        curried(d.params, d.return_type, d.defn)
    }
}

/// What a definition of the source stands for: `def f x y = b` binds `f` to
/// the closure of `x` around the closure of `y` around `b`. The definition
/// keeps its parameters and its return type as they were written.
pub open spec fn definition_of(node: SyntaxNode) -> DefinitionTerm {
    DefinitionTerm {
        defn: definition_value_term(declared_of(node)),
        ..declared_of(node)
    }
}

/// What a type definition of the source stands for.
pub open spec fn type_definition_of(node: SyntaxNode) -> TypeDefinitionTerm {
    TypeDefinitionTerm {
        name: ident_text(node),
        defn: type_of_opt(node.spec_child(NodeClass::TypeExpr, 0)),
    }
}

/// The definitions among the first `n` children, in the order of the source.
pub open spec fn definitions_upto(children: Seq<SyntaxElement>, n: nat) -> Seq<DefinitionTerm>
    decreases n,
{
    if n == 0 || n > children.len() {
        Seq::empty()
    } else {
        let before = definitions_upto(children, (n - 1) as nat);
        if is_node_of(children, NodeClass::Kind(SyntaxKind::DEFINITION), n - 1) {
            before.push(definition_of(children[n - 1]->Node_0))
        } else {
            before
        }
    }
}

/// The names of the `open` declarations among the first `n` children.
pub open spec fn opens_upto(children: Seq<SyntaxElement>, n: nat) -> Seq<Seq<char>>
    decreases n,
{
    if n == 0 || n > children.len() {
        Seq::empty()
    } else {
        let before = opens_upto(children, (n - 1) as nat);
        if is_node_of(children, NodeClass::Kind(SyntaxKind::OPEN), n - 1) {
            before.push(ident_text(children[n - 1]->Node_0))
        } else {
            before
        }
    }
}

/// The type definitions among the first `n` children.
pub open spec fn type_definitions_upto(children: Seq<SyntaxElement>, n: nat) -> Seq<
    TypeDefinitionTerm,
>
    decreases n,
{
    if n == 0 || n > children.len() {
        Seq::empty()
    } else {
        let before = type_definitions_upto(children, (n - 1) as nat);
        if is_node_of(children, NodeClass::Kind(SyntaxKind::TYPE_DEFINITION), n - 1) {
            before.push(type_definition_of(children[n - 1]->Node_0))
        } else {
            before
        }
    }
}

/// Whether the body of one of the definitions among the first `n` children
/// holds a binary expression.
pub open spec fn unsupported_upto(children: Seq<SyntaxElement>, n: nat) -> bool
    decreases n,
{
    if n == 0 || n > children.len() {
        false
    } else {
        unsupported_upto(children, (n - 1) as nat) || (is_node_of(
            children,
            NodeClass::Kind(SyntaxKind::DEFINITION),
            n - 1,
        ) && has_unsupported(body_of(children[n - 1]->Node_0)))
    }
}

/// How many of the first `n` children are taken by lowering: all of them,
/// or those before the first definition whose body holds a binary expression.
pub open spec fn taken_upto(children: Seq<SyntaxElement>, n: nat) -> nat
    decreases n,
{
    if n == 0 || n > children.len() {
        0
    } else {
        let before = taken_upto(children, (n - 1) as nat);
        if before < n - 1 {
            before
        } else if is_node_of(children, NodeClass::Kind(SyntaxKind::DEFINITION), n - 1)
            && has_unsupported(body_of(children[n - 1]->Node_0)) {
            (n - 1) as nat
        } else {
            n
        }
    }
}

/// All children are taken exactly when no definition is unsupported.
pub proof fn lemma_taken_upto(children: Seq<SyntaxElement>, n: nat)
    requires
        n <= children.len(),
    ensures
        taken_upto(children, n) <= n,
        taken_upto(children, n) < n <==> unsupported_upto(children, n),
    decreases n,
{
    if n > 0 {
        lemma_taken_upto(children, (n - 1) as nat);
    }
}

/// Once lowering has stopped, it takes nothing more.
pub proof fn lemma_taken_stops(children: Seq<SyntaxElement>, n: nat, m: nat)
    requires
        n <= m <= children.len(),
        taken_upto(children, n) < n,
    ensures
        taken_upto(children, m) == taken_upto(children, n),
    decreases m - n,
{
    if n < m {
        lemma_taken_stops(children, n, (m - 1) as nat);
    }
}

} // verus!
