//! Where lowering puts what it makes: the arenas and the table of names after a
//! step of lowering, as a function of what they held before and of the syntax
//! node. Positions are part of it, so two lowerings of one tree fill their
//! arenas alike.

use vstd::prelude::*;
use crate::ast::{is_node_of, node_index, NodeClass, token_index};
use crate::hir::{
    Definition, Expr, ExprIdx, Literal, LowerError, Name, Open, Param, Store, Term, TypeDefinition,
    TypeExpr, TypeExprIdx,
};
use crate::interner::{interned, position_of};
use crate::lexer::Token;
use crate::lower_spec::int_literal;
use crate::store::{expr_term_at, param_term, params_terms, type_term_at};
use crate::syntax_kind::SyntaxKind;
use crate::tree::{SyntaxElement, SyntaxNode};

verus! {

/// An expression of an arena as a plain value.
pub enum ExprShape {
    Missing,
    Let { name: Name, params: Seq<Param>, return_type: TypeExprIdx, defn: ExprIdx, body: ExprIdx },
    Ident { name: Name },
    Lambda { param: Param, return_type: TypeExprIdx, body: ExprIdx },
    App { func: ExprIdx, arg: ExprIdx },
    Literal(Literal),
}

/// A definition as it stands in its arena, as a plain value.
pub struct DefinitionShape {
    pub name: Name,
    pub params: Seq<Param>,
    pub return_type: TypeExprIdx,
    pub defn: ExprIdx,
}

impl Expr {
    pub open spec fn view(&self) -> ExprShape {
        match *self {
            Expr::Missing => ExprShape::Missing,
            Expr::LetExpr(b) => ExprShape::Let {
                name: b.name,
                params: b.params@,
                return_type: b.return_type,
                defn: b.defn,
                body: b.body,
            },
            Expr::IdentExpr { name } => ExprShape::Ident { name },
            Expr::LambdaExpr { param, return_type, body } => ExprShape::Lambda {
                param,
                return_type,
                body,
            },
            Expr::AppExpr { func, arg } => ExprShape::App { func, arg },
            Expr::LiteralExpr(l) => ExprShape::Literal(l),
        }
    }
}

impl Definition {
    pub open spec fn view(&self) -> DefinitionShape {
        DefinitionShape {
            name: self.name,
            params: self.params@,
            return_type: self.return_type,
            defn: self.defn,
        }
    }
}

/// What the arenas of expressions and type expressions and the table of names
/// hold, position by position.
pub struct Layout {
    pub exprs: Seq<ExprShape>,
    pub types: Seq<TypeExpr>,
    pub names: Seq<Seq<char>>,
}

pub open spec fn layout_of(s: Store) -> Layout {
    Layout { exprs: s.exprs.map_values(|e: Expr| e@), types: s.types, names: s.names }
}

/// A result of lowering as a plain value.
pub open spec fn shaped(r: Result<Expr, LowerError>) -> Result<ExprShape, LowerError> {
    match r {
        Ok(e) => Ok(e@),
        Err(e) => Err(e),
    }
}

/// Interning: a new spelling goes to the end of the table; the handle is the
/// position of the spelling, as a `u32`.
pub open spec fn put_name(l: Layout, text: Seq<char>) -> (Layout, Name) {
    (
        Layout { names: interned(l.names, text), ..l },
        Name { raw: position_of(l.names, text, 0) as u32 },
    )
}

/// A type expression goes to the end of its arena, and its position is the
/// length that the arena had, as a `u32`; unless it is missing: then nothing is
/// stored and the position is 0.
pub open spec fn put_type(l: Layout, t: TypeExpr) -> (Layout, TypeExprIdx) {
    if t is Missing {
        (l, TypeExprIdx { raw: 0 })
    } else {
        (Layout { types: l.types.push(t), ..l }, TypeExprIdx { raw: l.types.len() as u32 })
    }
}

/// An expression goes to the end of its arena, and its position is the length
/// that the arena had, as a `u32`; unless it is missing: then nothing is stored
/// and the position is 0.
pub open spec fn put_expr(l: Layout, e: ExprShape) -> (Layout, ExprIdx) {
    if e is Missing {
        (l, ExprIdx { raw: 0 })
    } else {
        (Layout { exprs: l.exprs.push(e), ..l }, ExprIdx { raw: l.exprs.len() as u32 })
    }
}

/// The name of an identifier token; the empty name without a token.
pub open spec fn laid_ident(l: Layout, ident: Option<Token>) -> (Layout, Name) {
    match ident {
        Some(t) => put_name(l, t.text@),
        None => put_name(l, Seq::empty()),
    }
}

/// A type expression: the name of an identifier is interned; of an arrow,
/// first what stands before it is lowered and stored, then what stands after
/// it.
pub open spec fn laid_type(l: Layout, node: SyntaxNode) -> (Layout, TypeExpr)
    decreases node,
{
    let children = node.children@;
    if node.kind == SyntaxKind::TYPE_IDENT {
        match node.spec_token(SyntaxKind::IDENT, 0) {
            Some(t) => {
                let named = put_name(l, t.text@);
                (named.0, TypeExpr::IdentTypeExpr { name: named.1 })
            },
            None => (l, TypeExpr::Missing),
        }
    } else if node.kind == SyntaxKind::TYPE_ARROW {
        let arrow = token_index(children, SyntaxKind::ARROW, 0);
        let first = node_index(children, NodeClass::TypeExpr, 0);
        let second = node_index(children, NodeClass::TypeExpr, arrow + 1);
        let from = if 0 <= first < arrow && first < children.len() && children[first] is Node {
            laid_type(l, children[first]->Node_0)
        } else {
            (l, TypeExpr::Missing)
        };
        let from_at = put_type(from.0, from.1);
        let to = if 0 <= second < children.len() && children[second] is Node {
            laid_type(from_at.0, children[second]->Node_0)
        } else {
            (from_at.0, TypeExpr::Missing)
        };
        let to_at = put_type(to.0, to.1);
        (to_at.0, TypeExpr::TypeArrow { from: from_at.1, to: to_at.1 })
    } else if node.kind == SyntaxKind::TYPE_PAREN {
        let inner = node_index(children, NodeClass::TypeExpr, 0);
        if 0 <= inner < children.len() && children[inner] is Node {
            laid_type(l, children[inner]->Node_0)
        } else {
            (l, TypeExpr::Missing)
        }
    } else {
        (l, TypeExpr::Missing)
    }
}

/// The first type expression among the children of `node`, if there is a
/// node and it has one.
pub open spec fn laid_type_in(l: Layout, node: Option<SyntaxNode>) -> (Layout, TypeExpr) {
    match node {
        Some(n) => match n.spec_child(NodeClass::TypeExpr, 0) {
            Some(inner) => laid_type(l, inner),
            None => (l, TypeExpr::Missing),
        },
        None => (l, TypeExpr::Missing),
    }
}

/// The type of an annotation, stored.
pub open spec fn laid_annotation(l: Layout, node: Option<SyntaxNode>) -> (Layout, TypeExprIdx) {
    let t = laid_type_in(l, node);
    put_type(t.0, t.1)
}

/// A parameter: first its name, then its type.
pub open spec fn laid_param(l: Layout, node: SyntaxNode) -> (Layout, Param) {
    let name = laid_ident(l, node.spec_token(SyntaxKind::IDENT, 0));
    let typ = laid_annotation(
        name.0,
        node.spec_child(NodeClass::Kind(SyntaxKind::TYPE_ANNOTATION), 0),
    );
    (typ.0, Param { name: name.1, typ: typ.1 })
}

/// The parameters among the first `n` children, in the order of the source.
pub open spec fn laid_params_upto(l: Layout, children: Seq<SyntaxElement>, n: nat) -> (
    Layout,
    Seq<Param>,
)
    decreases n,
{
    if n == 0 || n > children.len() {
        (l, Seq::empty())
    } else {
        let before = laid_params_upto(l, children, (n - 1) as nat);
        if is_node_of(children, NodeClass::Kind(SyntaxKind::PARAM), n - 1) {
            let param = laid_param(before.0, children[n - 1]->Node_0);
            (param.0, before.1.push(param.1))
        } else {
            before
        }
    }
}

/// The parameters of a node `PARAMS`; none without such a node.
pub open spec fn laid_params(l: Layout, node: Option<SyntaxNode>) -> (Layout, Seq<Param>) {
    match node {
        Some(p) => laid_params_upto(l, p.children@, p.children@.len()),
        None => (l, Seq::empty()),
    }
}

/// `inner` under one closure for each of the first `n` parameters, the first
/// parameter outermost: what stands inside a closure is stored before the
/// closure is made. None of these closures has a return type.
pub open spec fn laid_closures(l: Layout, params: Seq<Param>, n: nat, inner: ExprShape) -> (
    Layout,
    ExprShape,
)
    decreases n,
{
    if n == 0 || n > params.len() {
        (l, inner)
    } else {
        let at = put_expr(l, inner);
        laid_closures(
            at.0,
            params,
            (n - 1) as nat,
            ExprShape::Lambda {
                param: params[n - 1],
                return_type: TypeExprIdx { raw: 0 },
                body: at.1,
            },
        )
    }
}

/// Currying: the empty name is interned; the innermost closure binds the last
/// parameter, or the empty one where there is none, and has the return type;
/// the others follow from the inside out.
pub open spec fn laid_curry(
    l: Layout,
    body: ExprIdx,
    params: Seq<Param>,
    return_type: TypeExprIdx,
) -> (Layout, ExprShape) {
    let empty = put_name(l, Seq::empty());
    if params.len() == 0 {
        (
            empty.0,
            ExprShape::Lambda {
                param: Param { name: empty.1, typ: TypeExprIdx { raw: 0 } },
                return_type,
                body,
            },
        )
    } else {
        laid_closures(
            empty.0,
            params,
            (params.len() - 1) as nat,
            ExprShape::Lambda { param: params.last(), return_type, body },
        )
    }
}

/// The integer literal that `text` spells; missing unless it spells one.
pub open spec fn literal_shape(text: Seq<char>) -> ExprShape {
    match int_literal(text) {
        Term::Literal(l) => ExprShape::Literal(l),
        _ => ExprShape::Missing,
    }
}

/// An expression. Of a lambda, the parameters come first, then the body,
/// which is stored, then the return type, then the closures. A binary
/// expression is an error, and nothing is lowered after it.
pub open spec fn laid_expr(l: Layout, node: SyntaxNode) -> (Layout, Result<ExprShape, LowerError>)
    decreases node, 3nat, 0nat,
{
    let children = node.children@;
    if node.kind == SyntaxKind::IDENT_EXPR {
        match node.spec_token(SyntaxKind::IDENT, 0) {
            Some(t) => {
                let named = put_name(l, t.text@);
                (named.0, Ok(ExprShape::Ident { name: named.1 }))
            },
            None => (l, Ok(ExprShape::Missing)),
        }
    } else if node.kind == SyntaxKind::LITERAL_EXPR {
        match node.spec_token(SyntaxKind::INT, 0) {
            Some(t) => (l, Ok(literal_shape(t.text@))),
            None => (l, Ok(ExprShape::Missing)),
        }
    } else if node.kind == SyntaxKind::PAREN_EXPR {
        let app = node_index(children, NodeClass::Kind(SyntaxKind::APP_EXPR), 0);
        if 0 <= app < children.len() && children[app] is Node {
            laid_app(l, children[app]->Node_0)
        } else {
            laid_expr_or_unit(l, node)
        }
    } else if node.kind == SyntaxKind::LAMBDA_EXPR {
        let params = laid_params(l, node.spec_child(NodeClass::Kind(SyntaxKind::PARAMS), 0));
        let body = laid_child_expr(params.0, node);
        match body.1 {
            Err(e) => (body.0, Err(e)),
            Ok(b) => {
                let body_at = put_expr(body.0, b);
                let return_type = laid_annotation(
                    body_at.0,
                    node.spec_child(NodeClass::Kind(SyntaxKind::TYPE_ANNOTATION), 0),
                );
                let closure = laid_curry(return_type.0, body_at.1, params.1, return_type.1);
                (closure.0, Ok(closure.1))
            },
        }
    } else if node.kind == SyntaxKind::BLOCK_EXPR {
        laid_block(l, node)
    } else if node.kind == SyntaxKind::BINARY_EXPR {
        (l, Err(LowerError::UnsupportedBinaryExpr))
    } else {
        (l, Ok(ExprShape::Missing))
    }
}

/// The first expression among the children of `parent`; missing without one.
pub open spec fn laid_child_expr(l: Layout, parent: SyntaxNode) -> (
    Layout,
    Result<ExprShape, LowerError>,
)
    decreases parent, 0nat, 0nat,
{
    let children = parent.children@;
    let child = node_index(children, NodeClass::Expr, 0);
    if 0 <= child < children.len() && children[child] is Node {
        laid_expr(l, children[child]->Node_0)
    } else {
        (l, Ok(ExprShape::Missing))
    }
}

/// The first expression among the children of `parent`; the unit value
/// without one.
pub open spec fn laid_expr_or_unit(l: Layout, parent: SyntaxNode) -> (
    Layout,
    Result<ExprShape, LowerError>,
)
    decreases parent, 0nat, 0nat,
{
    let children = parent.children@;
    let child = node_index(children, NodeClass::Expr, 0);
    if 0 <= child < children.len() && children[child] is Node {
        laid_expr(l, children[child]->Node_0)
    } else {
        (l, Ok(ExprShape::Literal(Literal::Unit)))
    }
}

/// An application: the function is lowered and stored, then the argument.
pub open spec fn laid_app(l: Layout, node: SyntaxNode) -> (Layout, Result<ExprShape, LowerError>)
    decreases node, 3nat, 0nat,
{
    let children = node.children@;
    let first = node_index(children, NodeClass::Any, 0);
    let second = node_index(children, NodeClass::Expr, first + 1);
    let func = if 0 <= first < children.len() && children[first] is Node {
        if children[first]->Node_0.kind == SyntaxKind::APP_EXPR {
            laid_app(l, children[first]->Node_0)
        } else if NodeClass::Expr.has(children[first]->Node_0.kind) {
            laid_expr(l, children[first]->Node_0)
        } else {
            (l, Ok(ExprShape::Missing))
        }
    } else {
        (l, Ok(ExprShape::Missing))
    };
    match func.1 {
        Err(e) => (func.0, Err(e)),
        Ok(f) => {
            let func_at = put_expr(func.0, f);
            let arg = if 0 <= second < children.len() && children[second] is Node {
                laid_expr(func_at.0, children[second]->Node_0)
            } else {
                (func_at.0, Ok(ExprShape::Missing))
            };
            match arg.1 {
                Err(e) => (arg.0, Err(e)),
                Ok(a) => {
                    let arg_at = put_expr(arg.0, a);
                    (arg_at.0, Ok(ExprShape::App { func: func_at.1, arg: arg_at.1 }))
                },
            }
        },
    }
}

/// A statement in front of what stands at `cont`. Of an expression
/// statement the value is lowered and stored, then the empty name is interned.
/// Of a `let` the name comes first, then the parameters, the type and the
/// value, which is stored.
pub open spec fn laid_stmt(l: Layout, node: SyntaxNode, cont: ExprIdx) -> (
    Layout,
    Result<ExprShape, LowerError>,
)
    decreases node, 1nat, 0nat,
{
    if node.kind == SyntaxKind::EXPR_STMT {
        let value = laid_expr_or_unit(l, node);
        match value.1 {
            Err(e) => (value.0, Err(e)),
            Ok(v) => {
                let value_at = put_expr(value.0, v);
                let name = put_name(value_at.0, Seq::empty());
                (
                    name.0,
                    Ok(
                        ExprShape::Let {
                            name: name.1,
                            params: Seq::empty(),
                            return_type: TypeExprIdx { raw: 0 },
                            defn: value_at.1,
                            body: cont,
                        },
                    ),
                )
            },
        }
    } else {
        let name = laid_ident(l, node.spec_token(SyntaxKind::IDENT, 0));
        let params = laid_params(name.0, node.spec_child(NodeClass::Kind(SyntaxKind::PARAMS), 0));
        let return_type = laid_annotation(
            params.0,
            node.spec_child(NodeClass::Kind(SyntaxKind::TYPE_ANNOTATION), 0),
        );
        let defn = laid_child_expr(return_type.0, node);
        match defn.1 {
            Err(e) => (defn.0, Err(e)),
            Ok(d) => {
                let defn_at = put_expr(defn.0, d);
                (
                    defn_at.0,
                    Ok(
                        ExprShape::Let {
                            name: name.1,
                            params: params.1,
                            return_type: return_type.1,
                            defn: defn_at.1,
                            body: cont,
                        },
                    ),
                )
            },
        }
    }
}

/// The statements among the first `n` children of the block `node`, from the
/// last to the first, around `body`: what a statement stands in front of is
/// stored before the statement is lowered.
pub open spec fn laid_block_from(l: Layout, node: SyntaxNode, n: nat, body: ExprShape) -> (
    Layout,
    Result<ExprShape, LowerError>,
)
    decreases node, 1nat, n,
{
    let children = node.children@;
    if n == 0 || n > children.len() {
        (l, Ok(body))
    } else if is_node_of(children, NodeClass::Stmt, n - 1) {
        let cont = put_expr(l, body);
        let stmt = laid_stmt(cont.0, children[n - 1]->Node_0, cont.1);
        match stmt.1 {
            Err(e) => (stmt.0, Err(e)),
            Ok(s) => laid_block_from(stmt.0, node, (n - 1) as nat, s),
        }
    } else {
        laid_block_from(l, node, (n - 1) as nat, body)
    }
}

/// A block: its tail, or the unit value without one, then its statements
/// from the last to the first.
pub open spec fn laid_block(l: Layout, node: SyntaxNode) -> (Layout, Result<ExprShape, LowerError>)
    decreases node, 2nat, 0nat,
{
    let tail = laid_expr_or_unit(l, node);
    match tail.1 {
        Err(e) => (tail.0, Err(e)),
        Ok(body) => laid_block_from(tail.0, node, node.children@.len(), body),
    }
}

/// The body of a definition: the block of its node `DEF_BODY`, or else the
/// expression there.
pub open spec fn laid_body(l: Layout, node: SyntaxNode) -> (Layout, Result<ExprShape, LowerError>) {
    match node.spec_child(NodeClass::Kind(SyntaxKind::DEF_BODY), 0) {
        Some(body) => match body.spec_child(NodeClass::Kind(SyntaxKind::BLOCK_EXPR), 0) {
            Some(block) => laid_block(l, block),
            None => laid_child_expr(l, body),
        },
        None => (l, Ok(ExprShape::Missing)),
    }
}

/// A definition as it is written: its parameters, its body, its return
/// type, then the body is stored, and its name comes last. Without an
/// annotation the return type is the one of the `let` that the body begins
/// with, at the same position.
pub open spec fn laid_declared(l: Layout, node: SyntaxNode) -> (
    Layout,
    Result<DefinitionShape, LowerError>,
) {
    let params = laid_params(l, node.spec_child(NodeClass::Kind(SyntaxKind::PARAMS), 0));
    let body = laid_body(params.0, node);
    match body.1 {
        Err(e) => (body.0, Err(e)),
        Ok(b) => {
            let annotation = node.spec_child(NodeClass::Kind(SyntaxKind::TYPE_ANNOTATION), 0);
            let return_type = if annotation is Some {
                laid_annotation(body.0, annotation)
            } else {
                (
                    body.0,
                    match b {
                        ExprShape::Let { return_type, .. } => return_type,
                        _ => TypeExprIdx { raw: 0 },
                    },
                )
            };
            let defn = put_expr(return_type.0, b);
            let name = laid_ident(defn.0, node.spec_token(SyntaxKind::IDENT, 0));
            (
                name.0,
                Ok(
                    DefinitionShape {
                        name: name.1,
                        params: params.1,
                        return_type: return_type.1,
                        defn: defn.1,
                    },
                ),
            )
        },
    }
}

/// The value that a definition binds: its body itself where it has no
/// parameters; else its curried form, stored.
pub open spec fn laid_definition_value(l: Layout, d: DefinitionShape) -> (Layout, ExprIdx) {
    if d.params.len() == 0 {
        (l, d.defn)
    } else {
        let closure = laid_curry(l, d.defn, d.params, d.return_type);
        put_expr(closure.0, closure.1)
    }
}

/// A definition: as it is written, and then what it binds: with parameters,
/// the closures are made and the outermost is stored, and the definition is
/// bound to its position.
pub open spec fn laid_definition(l: Layout, node: SyntaxNode) -> (
    Layout,
    Result<DefinitionShape, LowerError>,
) {
    let declared = laid_declared(l, node);
    match declared.1 {
        Err(e) => (declared.0, Err(e)),
        Ok(d) => {
            let value = laid_definition_value(declared.0, d);
            (value.0, Ok(DefinitionShape { defn: value.1, ..d }))
        },
    }
}

/// An `open` declaration: its name.
pub open spec fn laid_open(l: Layout, node: SyntaxNode) -> (Layout, Open) {
    let name = laid_ident(l, node.spec_token(SyntaxKind::IDENT, 0));
    (name.0, Open { path: name.1 })
}

/// A type definition: its type, stored, then its name.
pub open spec fn laid_type_definition(l: Layout, node: SyntaxNode) -> (Layout, TypeDefinition) {
    let defn = laid_annotation(l, Some(node));
    let name = laid_ident(defn.0, node.spec_token(SyntaxKind::IDENT, 0));
    (name.0, TypeDefinition { name: name.1, defn: defn.1 })
}

/// All that a module holds, position by position.
pub struct Content {
    pub layout: Layout,
    pub defs: Seq<DefinitionShape>,
    pub opens: Seq<Open>,
    pub type_defs: Seq<TypeDefinition>,
}

/// A definition that was lowered, or the error, as a plain value.
pub open spec fn shaped_definition(r: Result<Definition, LowerError>) -> Result<
    DefinitionShape,
    LowerError,
> {
    match r {
        Ok(d) => Ok(d@),
        Err(e) => Err(e),
    }
}

/// The declarations among the first `n` children, in the order of the
/// source: each is lowered and appended to the declarations of its kind. After
/// an error nothing more is lowered.
pub open spec fn laid_items_upto(c: Content, children: Seq<SyntaxElement>, n: nat) -> (
    Content,
    Result<(), LowerError>,
)
    decreases n,
{
    if n == 0 || n > children.len() {
        (c, Ok(()))
    } else {
        let before = laid_items_upto(c, children, (n - 1) as nat);
        if before.1 is Err {
            before
        } else if is_node_of(children, NodeClass::Kind(SyntaxKind::DEFINITION), n - 1) {
            let d = laid_definition(before.0.layout, children[n - 1]->Node_0);
            match d.1 {
                Err(e) => (Content { layout: d.0, ..before.0 }, Err(e)),
                Ok(definition) => (
                    Content { layout: d.0, defs: before.0.defs.push(definition), ..before.0 },
                    Ok(()),
                ),
            }
        } else if is_node_of(children, NodeClass::Kind(SyntaxKind::OPEN), n - 1) {
            let o = laid_open(before.0.layout, children[n - 1]->Node_0);
            (Content { layout: o.0, opens: before.0.opens.push(o.1), ..before.0 }, Ok(()))
        } else if is_node_of(children, NodeClass::Kind(SyntaxKind::TYPE_DEFINITION), n - 1) {
            let t = laid_type_definition(before.0.layout, children[n - 1]->Node_0);
            (Content { layout: t.0, type_defs: before.0.type_defs.push(t.1), ..before.0 }, Ok(()))
        } else {
            before
        }
    }
}

/// The declarations of a module.
pub open spec fn laid_module(c: Content, node: SyntaxNode) -> (Content, Result<(), LowerError>) {
    laid_items_upto(c, node.children@, node.children@.len())
}

/// After an error nothing more is lowered.
pub proof fn lemma_items_stop(c: Content, children: Seq<SyntaxElement>, n: nat, m: nat)
    requires
        n <= m <= children.len(),
        laid_items_upto(c, children, n).1 is Err,
    ensures
        laid_items_upto(c, children, m) == laid_items_upto(c, children, n),
    decreases m - n,
{
    if n < m {
        lemma_items_stop(c, children, n, (m - 1) as nat);
    }
}

/// What a store holds after a value is appended to its expressions.
pub proof fn lemma_layout_push(s: Store, e: Expr)
    ensures
        layout_of(Store { exprs: s.exprs.push(e), ..s }) == (Layout {
            exprs: layout_of(s).exprs.push(e@),
            ..layout_of(s)
        }),
{
    assert(s.exprs.push(e).map_values(|e: Expr| e@) =~= s.exprs.map_values(|e: Expr| e@).push(e@));
}

/// What a position of the arena of type expressions stands for depends on the
/// layout alone.
pub proof fn lemma_layout_type(a: Store, b: Store, idx: nat)
    requires
        layout_of(a) == layout_of(b),
    ensures
        type_term_at(a, idx) == type_term_at(b, idx),
    decreases idx,
{
    if idx < a.types.len() {
        match a.types[idx as int] {
            TypeExpr::TypeArrow { from, to } => {
                if from.raw < idx {
                    lemma_layout_type(a, b, from.raw as nat);
                }
                if to.raw < idx {
                    lemma_layout_type(a, b, to.raw as nat);
                }
            },
            _ => {},
        }
    }
}

/// What parameters stand for depends on the layout alone.
pub proof fn lemma_layout_params(a: Store, b: Store, params: Seq<Param>)
    requires
        layout_of(a) == layout_of(b),
    ensures
        params_terms(a, params) == params_terms(b, params),
{
    assert forall|i: int| 0 <= i < params.len() implies param_term(a, params[i]) == param_term(
        b,
        params[i],
    ) by {
        lemma_layout_type(a, b, params[i].typ.raw as nat);
    }
    assert(params_terms(a, params) =~= params_terms(b, params));
}

/// What a position of the arena of expressions stands for depends on the
/// layout alone.
pub proof fn lemma_layout_expr(a: Store, b: Store, idx: nat)
    requires
        layout_of(a) == layout_of(b),
    ensures
        expr_term_at(a, idx) == expr_term_at(b, idx),
    decreases idx,
{
    assert(a.exprs.len() == layout_of(a).exprs.len());
    assert(b.exprs.len() == layout_of(b).exprs.len());
    if idx < a.exprs.len() {
        assert(a.exprs[idx as int]@ == layout_of(a).exprs[idx as int]);
        assert(b.exprs[idx as int]@ == layout_of(b).exprs[idx as int]);
        match a.exprs[idx as int]@ {
            ExprShape::Let { params, return_type, defn, body, .. } => {
                lemma_layout_params(a, b, params);
                lemma_layout_type(a, b, return_type.raw as nat);
                if defn.raw < idx {
                    lemma_layout_expr(a, b, defn.raw as nat);
                }
                if body.raw < idx {
                    lemma_layout_expr(a, b, body.raw as nat);
                }
            },
            ExprShape::Lambda { param, return_type, body } => {
                lemma_layout_type(a, b, param.typ.raw as nat);
                lemma_layout_type(a, b, return_type.raw as nat);
                if body.raw < idx {
                    lemma_layout_expr(a, b, body.raw as nat);
                }
            },
            ExprShape::App { func, arg } => {
                if func.raw < idx {
                    lemma_layout_expr(a, b, func.raw as nat);
                }
                if arg.raw < idx {
                    lemma_layout_expr(a, b, arg.raw as nat);
                }
            },
            _ => {},
        }
    }
}

} // verus!
