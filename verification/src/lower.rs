//! Lowering: from the syntax tree to the arenas of a module. What is missing in
//! the tree is the sentinel at position 0; a binary expression is an error.

use vstd::prelude::*;
use vstd::string::*;
use crate::ast::{AstNode, is_node_of, Module as ModuleNode, NodeClass};
use crate::hir::{
    Definition, DefinitionTerm, Expr, ExprIdx, Literal, LowerError, missing_type_expr_id, Name,
    Open, Param, ParamTerm, Term, TypeDefinition, TypeDefinitionTerm, TypeExpr, TypeExprIdx,
    TypeTerm,
};
use crate::interner::name_text;
use crate::layout::{
    laid_annotation, laid_app, laid_block, laid_block_from, laid_child_expr, laid_closures,
    laid_curry, laid_declared, laid_definition, laid_definition_value, laid_expr, laid_expr_or_unit,
    laid_ident, laid_items_upto, laid_module, laid_open, laid_param, laid_params, laid_params_upto,
    laid_stmt, laid_type, laid_type_definition, Layout, lemma_items_stop, shaped, shaped_definition,
};
use crate::lexer::{to_chars, Token};
use crate::lower_spec::{
    all_digits, annotated_type, annotation_of, app_of, block_from, body_of, closures, curried,
    declared_of, definition_of, definition_value_term, definitions_upto, digits_value, expr_of,
    expr_of_opt, expr_or_unit, has_unsupported, ident_text, int_literal, is_digit_char,
    lemma_taken_stops, lemma_taken_upto, opens_upto, param_of, params_in, params_of, params_upto,
    return_type_of, stmt_of, taken_upto, type_definition_of, type_definitions_upto, type_of,
    type_of_opt, unsupported_upto,
};
use crate::module::{
    definition_ok, definition_term, lemma_definition_stable, lemma_type_definition_stable, Module,
    type_definition_ok, type_definition_term,
};
use crate::store::{
    expr_ok, expr_term_at, expr_value_term, fits, grows, lemma_expr_stable, lemma_grows_trans,
    lemma_params_stable, lemma_type_stable, name_ok, param_ok, param_term, params_ok, params_terms,
    type_ok, type_term_at, type_value_term,
};
use crate::syntax_kind::SyntaxKind;
use crate::tree::{SyntaxElement, SyntaxNode};

verus! {

impl Module {
    /// `t` is a type expression for this module that stands for `term`, as
    /// long as positions fit into 32 bits.
    pub open spec fn holds_type(&self, t: TypeExpr, term: TypeTerm) -> bool {
        &&& type_ok(self.store(), t, self.store().types.len())
        &&& fits(self.store()) ==> type_value_term(self.store(), t) == term
    }

    /// The position `idx` stands for `term`, as long as positions fit into 32
    /// bits.
    pub open spec fn holds_type_at(&self, idx: TypeExprIdx, term: TypeTerm) -> bool {
        &&& idx.raw < self.store().types.len()
        &&& fits(self.store()) ==> type_term_at(self.store(), idx.raw as nat) == term
    }

    /// `name` is a name of this module that is spelled `text`, as long as
    /// positions fit into 32 bits.
    pub open spec fn holds_name(&self, name: Name, text: Seq<char>) -> bool {
        &&& name_ok(self.store(), name)
        &&& fits(self.store()) ==> name_text(self.store().names, name) == text
    }

    /// The module holds what `laid` gives, and `out` is its result.
    pub open spec fn laid<T>(&self, laid: (Layout, T), out: T) -> bool {
        laid == (self.layout(), out)
    }

    pub open spec fn holds_param(&self, p: Param, term: ParamTerm) -> bool {
        &&& param_ok(self.store(), p)
        &&& fits(self.store()) ==> param_term(self.store(), p) == term
    }

    pub open spec fn holds_params(&self, params: Seq<Param>, terms: Seq<ParamTerm>) -> bool {
        &&& params_ok(self.store(), params)
        &&& params.len() == terms.len()
        &&& fits(self.store()) ==> params_terms(self.store(), params) == terms
    }

    /// What a position stood for, it stands for after the module has grown.
    pub proof fn lemma_keeps_type_at(&self, before: &Self, idx: TypeExprIdx, term: TypeTerm)
        requires
            before.wf(),
            self.follows(before),
            before.holds_type_at(idx, term),
        ensures
            self.holds_type_at(idx, term),
    {
        lemma_type_stable(before.store(), self.store(), idx.raw as nat);
    }

    pub proof fn lemma_keeps_name(&self, before: &Self, name: Name, text: Seq<char>)
        requires
            before.wf(),
            self.follows(before),
            before.holds_name(name, text),
        ensures
            self.holds_name(name, text),
    {
        assert(self.store().names[name.raw as int] == before.store().names[name.raw as int]);
    }

    pub proof fn lemma_keeps_params(&self, before: &Self, params: Seq<Param>, terms: Seq<ParamTerm>)
        requires
            before.wf(),
            self.follows(before),
            before.holds_params(params, terms),
        ensures
            self.holds_params(params, terms),
    {
        lemma_params_stable(before.store(), self.store(), params);
    }

    pub proof fn lemma_follows_trans(&self, mid: &Self, before: &Self)
        requires
            mid.follows(before),
            self.follows(mid),
        ensures
            self.follows(before),
    {
        lemma_grows_trans(before.store(), mid.store(), self.store());
    }

    /// The name that an identifier token spells; the empty name without a
    /// token.
    pub fn lower_ident(&mut self, ident: Option<&Token>) -> (name: Name)
        requires
            old(self).wf(),
        ensures
            final(self).follows(old(self)),
            final(self).holds_name(
                name,
                match ident {
                    Some(t) => t.text@,
                    None => Seq::empty(),
                },
            ),
            final(self).store().exprs == old(self).store().exprs,
            final(self).store().types == old(self).store().types,
            final(self).laid(
                laid_ident(
                    old(self).layout(),
                    match ident {
                        Some(t) => Some(*t),
                        None => None,
                    },
                ),
                name,
            ),
    {
        match ident {
            Some(t) => self.name(t.text.as_str()),
            None => self.empty_name(),
        }
    }

    /// Lowers a type expression. The parts of an arrow go into the arena, the
    /// type expression itself does not.
    pub fn lower_type_expr(&mut self, node: &SyntaxNode) -> (t: TypeExpr)
        requires
            old(self).wf(),
        ensures
            final(self).follows(old(self)),
            final(self).holds_type(t, type_of(*node)),
            final(self).store().exprs == old(self).store().exprs,
            final(self).laid(laid_type(old(self).layout(), *node), t),
        decreases node,
    {
        if node.kind == SyntaxKind::TYPE_IDENT {
            match node.token(SyntaxKind::IDENT) {
                Some(ident) => {
                    let name = self.name(ident.text.as_str());
                    TypeExpr::IdentTypeExpr { name }
                },
                None => TypeExpr::Missing,
            }
        } else if node.kind == SyntaxKind::TYPE_ARROW {
            let arrow = node.find_token(SyntaxKind::ARROW, 0);
            let first = node.find_node(NodeClass::TypeExpr, 0);
            let from = if first < arrow {
                match &node.children[first] {
                    SyntaxElement::Node(part) => self.lower_type_expr(part),
                    SyntaxElement::Token(_) => TypeExpr::Missing,
                }
            } else {
                TypeExpr::Missing
            };
            let ghost s1 = *self;
            let from = self.alloc_type_expr(from);
            let ghost s2 = *self;
            let to = if arrow < node.children.len() {
                match node.child(NodeClass::TypeExpr, arrow + 1) {
                    Some(part) => self.lower_type_expr(part),
                    None => TypeExpr::Missing,
                }
            } else {
                TypeExpr::Missing
            };
            let ghost s3 = *self;
            let to = self.alloc_type_expr(to);
            proof {
                s3.lemma_follows_trans(&s2, &s1);
                self.lemma_follows_trans(&s3, &s1);
                self.lemma_follows_trans(&s1, old(self));
                self.lemma_follows_trans(&s3, &s2);
                self.lemma_keeps_type_at(
                    &s2,
                    from,
                    type_term_at(s2.store(), from.raw as nat),
                );
            }
            TypeExpr::TypeArrow { from, to }
        } else if node.kind == SyntaxKind::TYPE_PAREN {
            match node.child(NodeClass::TypeExpr, 0) {
                Some(inner) => self.lower_type_expr(inner),
                None => TypeExpr::Missing,
            }
        } else {
            TypeExpr::Missing
        }
    }

    /// Lowers the type of an annotation `: type` and puts it into the arena.
    /// Without annotation, and for an annotation without type, the position is
    /// 0, that of the missing type.
    pub fn lower_type_annotation(&mut self, node: Option<&SyntaxNode>) -> (idx: TypeExprIdx)
        requires
            old(self).wf(),
        ensures
            final(self).follows(old(self)),
            final(self).holds_type_at(
                idx,
                annotation_of(
                    match node {
                        Some(n) => Some(*n),
                        None => None,
                    },
                ),
            ),
            final(self).store().exprs == old(self).store().exprs,
            final(self).laid(
                laid_annotation(
                    old(self).layout(),
                    match node {
                        Some(n) => Some(*n),
                        None => None,
                    },
                ),
                idx,
            ),
    {
        let t = match node {
            Some(annotation) => match annotation.child(NodeClass::TypeExpr, 0) {
                Some(inner) => self.lower_type_expr(inner),
                None => TypeExpr::Missing,
            },
            None => TypeExpr::Missing,
        };
        let ghost mid = *self;
        let idx = self.alloc_type_expr(t);
        proof {
            self.lemma_follows_trans(&mid, old(self));
        }
        idx
    }

    /// Lowers a parameter: its name, which is empty where the identifier is
    /// missing, and its type, which goes into the arena.
    pub fn lower_param(&mut self, node: &SyntaxNode) -> (param: Param)
        requires
            old(self).wf(),
        ensures
            final(self).follows(old(self)),
            final(self).holds_param(param, param_of(*node)),
            final(self).store().exprs == old(self).store().exprs,
            final(self).laid(laid_param(old(self).layout(), *node), param),
    {
        let name = self.lower_ident(node.token(SyntaxKind::IDENT));
        let ghost mid = *self;
        let typ = self.lower_type_annotation(
            node.child(NodeClass::Kind(SyntaxKind::TYPE_ANNOTATION), 0),
        );
        proof {
            self.lemma_follows_trans(&mid, old(self));
            self.lemma_keeps_name(&mid, name, ident_text(*node));
        }
        Param { name, typ }
    }

    /// Lowers the parameters of a node `PARAMS`, in the order of the source.
    /// Without such a node there are none.
    pub fn lower_params(&mut self, node: Option<&SyntaxNode>) -> (params: Vec<Param>)
        requires
            old(self).wf(),
        ensures
            final(self).follows(old(self)),
            final(self).holds_params(
                params@,
                params_of(
                    match node {
                        Some(n) => Some(*n),
                        None => None,
                    },
                ),
            ),
            final(self).store().exprs == old(self).store().exprs,
            final(self).laid(
                laid_params(
                    old(self).layout(),
                    match node {
                        Some(n) => Some(*n),
                        None => None,
                    },
                ),
                params@,
            ),
    {
        let mut params: Vec<Param> = Vec::new();
        match node {
            Some(list) => {
                let mut i: usize = 0;
                proof {
                    assert(params_terms(self.store(), params@) =~= params_upto(list.children@, 0));
                }
                while i < list.children.len()
                    invariant
                        i <= list.children.len(),
                        old(self).wf(),
                        self.follows(old(self)),
                        self.holds_params(params@, params_upto(list.children@, i as nat)),
                        self.store().exprs == old(self).store().exprs,
                        self.laid(
                            laid_params_upto(old(self).layout(), list.children@, i as nat),
                            params@,
                        ),
                    decreases list.children.len() - i,
                {
                    match &list.children[i] {
                        SyntaxElement::Node(child) => {
                            if child.kind == SyntaxKind::PARAM {
                                let ghost before = *self;
                                let ghost terms = params_upto(list.children@, i as nat);
                                let param = self.lower_param(child);
                                proof {
                                    self.lemma_follows_trans(&before, old(self));
                                    self.lemma_keeps_params(&before, params@, terms);
                                    assert(params_terms(self.store(), params@.push(param))
                                        =~= params_terms(self.store(), params@).push(
                                        param_term(self.store(), param),
                                    ));
                                }
                                params.push(param);
                            }
                        },
                        SyntaxElement::Token(_) => {},
                    }
                    i = i + 1;
                }
            },
            None => {
                proof {
                    assert(params_terms(self.store(), params@) =~= Seq::<ParamTerm>::empty());
                }
            },
        }
        params
    }

    /// `e` is an expression for this module that stands for `term`, as long
    /// as positions fit into 32 bits.
    pub open spec fn holds_expr(&self, e: Expr, term: Term) -> bool {
        &&& expr_ok(self.store(), e, self.store().exprs.len())
        &&& fits(self.store()) ==> expr_value_term(self.store(), e) == term
    }

    /// The position `idx` stands for `term`, as long as positions fit into 32
    /// bits.
    pub open spec fn holds_expr_at(&self, idx: ExprIdx, term: Term) -> bool {
        &&& idx.raw < self.store().exprs.len()
        &&& fits(self.store()) ==> expr_term_at(self.store(), idx.raw as nat) == term
    }

    pub proof fn lemma_keeps_expr_at(&self, before: &Self, idx: ExprIdx, term: Term)
        requires
            before.wf(),
            self.follows(before),
            before.holds_expr_at(idx, term),
        ensures
            self.holds_expr_at(idx, term),
    {
        lemma_expr_stable(before.store(), self.store(), idx.raw as nat);
    }

    pub proof fn lemma_keeps_expr(&self, before: &Self, e: Expr, term: Term)
        requires
            before.wf(),
            self.follows(before),
            before.holds_expr(e, term),
        ensures
            self.holds_expr(e, term),
    {
        crate::store::lemma_expr_value_stable(before.store(), self.store(), e);
    }

    /// Currying: the closure of the parameters `params` with the return type
    /// `return_type` and the body `body`, as nested closures of one parameter
    /// each. The closures inside the outermost go into the arena; the outermost
    /// is returned. The empty name is interned in any case.
    ///
    /// So one closure less than there are parameters is stored. With one
    /// parameter nothing is stored, and the closure returned has the return
    /// type; with more, only the innermost closure has it.
    pub fn curry(&mut self, body: ExprIdx, params: &Vec<Param>, return_type: TypeExprIdx) -> (e:
        Expr)
        requires
            old(self).wf(),
            body.raw < old(self).store().exprs.len(),
            return_type.raw < old(self).store().types.len(),
            params_ok(old(self).store(), params@),
        ensures
            final(self).follows(old(self)),
            final(self).holds_expr(
                e,
                curried(
                    params_terms(old(self).store(), params@),
                    type_term_at(old(self).store(), return_type.raw as nat),
                    expr_term_at(old(self).store(), body.raw as nat),
                ),
            ),
            e is LambdaExpr,
            final(self).laid(laid_curry(old(self).layout(), body, params@, return_type), e@),
            final(self).store().types == old(self).store().types,
            final(self).store().exprs.len() == old(self).store().exprs.len() + (if params@.len()
                == 0 {
                0int
            } else {
                params@.len() - 1
            }),
            params@.len() == 1 ==> e == (Expr::LambdaExpr { param: params@[0], return_type, body }),
            params@.len() >= 2 ==> (e matches Expr::LambdaExpr { param, return_type: outer, .. }
                && param == params@[0] && outer.raw == 0),
    {
        let ghost whole = laid_curry(old(self).layout(), body, params@, return_type);
        let ghost terms = params_terms(old(self).store(), params@);
        let ghost rt = type_term_at(old(self).store(), return_type.raw as nat);
        let ghost bt = expr_term_at(old(self).store(), body.raw as nat);
        let empty = Param { name: self.empty_name(), typ: missing_type_expr_id() };
        let ghost named = *self;
        proof {
            lemma_params_stable(old(self).store(), self.store(), params@);
            lemma_type_stable(old(self).store(), self.store(), return_type.raw as nat);
            lemma_expr_stable(old(self).store(), self.store(), body.raw as nat);
        }
        let mut i: usize = params.len();
        let tail = if i > 0 {
            i = i - 1;
            params[i]
        } else {
            empty
        };
        let mut result = Expr::lambda_expr(tail, return_type, body);
        proof {
            if params.len() > 0 {
                assert(terms.drop_last() =~= terms.take(i as int));
                assert(param_ok(self.store(), params@[i as int]));
            }
        }
        while i > 0
            invariant
                i <= params.len(),
                old(self).wf(),
                self.follows(old(self)),
                params_ok(self.store(), params@),
                terms.len() == params@.len(),
                fits(self.store()) ==> params_terms(self.store(), params@) == terms,
                self.holds_expr(result, expr_value_term(self.store(), result)),
                fits(self.store()) ==> closures(
                    terms.take(i as int),
                    expr_value_term(self.store(), result),
                ) == curried(terms, rt, bt),
                result is LambdaExpr,
                whole == laid_curry(old(self).layout(), body, params@, return_type),
                laid_closures(self.layout(), params@, i as nat, result@) == whole,
                self.store().types == old(self).store().types,
                params@.len() == 0 ==> i == 0 && self.store().exprs.len() == old(
                    self,
                ).store().exprs.len(),
                params@.len() >= 1 ==> i < params@.len() && self.store().exprs.len() == old(
                    self,
                ).store().exprs.len() + (params@.len() - 1 - i),
                params@.len() >= 1 && i + 1 == params@.len() ==> result == (Expr::LambdaExpr {
                    param: params@[i as int],
                    return_type,
                    body,
                }),
                params@.len() >= 1 && i + 1 < params@.len() ==> (result matches Expr::LambdaExpr {
                    param,
                    return_type: outer,
                    ..
                } && param == params@[i as int] && outer.raw == 0),
            decreases i,
        {
            let ghost before = *self;
            let ghost inner = expr_value_term(self.store(), result);
            let idx = self.alloc_expr(result);
            i = i - 1;
            result = Expr::lambda_expr(params[i], missing_type_expr_id(), idx);
            proof {
                self.lemma_follows_trans(&before, old(self));
                lemma_params_stable(before.store(), self.store(), params@);
                assert(param_ok(self.store(), params@[i as int]));
                if fits(self.store()) {
                    assert(terms.take(i + 1).drop_last() =~= terms.take(i as int));
                    assert(terms.take(i + 1).last() == terms[i as int]);
                    assert(param_term(self.store(), params@[i as int]) == terms[i as int]);
                }
            }
        }
        proof {
            if fits(self.store()) {
                assert(terms.take(0).len() == 0);
            }
        }
        result
    }

    /// Lowers an expression. Its parts go into the arena, the expression
    /// itself does not. A binary expression anywhere in it is an error.
    pub fn lower_expr(&mut self, node: &SyntaxNode) -> (r: Result<Expr, LowerError>)
        requires
            old(self).wf(),
        ensures
            final(self).follows(old(self)),
            r is Err <==> has_unsupported(expr_of(*node)),
            r matches Ok(e) ==> final(self).holds_expr(e, expr_of(*node)),
            final(self).laid(laid_expr(old(self).layout(), *node), shaped(r)),
        decreases node, 3nat,
    {
        if node.kind == SyntaxKind::IDENT_EXPR {
            match node.token(SyntaxKind::IDENT) {
                Some(ident) => {
                    let name = self.name(ident.text.as_str());
                    Ok(Expr::ident_expr(name))
                },
                None => Ok(Expr::Missing),
            }
        } else if node.kind == SyntaxKind::LITERAL_EXPR {
            match node.token(SyntaxKind::INT) {
                Some(literal) => match parse_int(literal.text.as_str()) {
                    Some(value) => Ok(Expr::int_expr(value)),
                    None => Ok(Expr::Missing),
                },
                None => Ok(Expr::Missing),
            }
        } else if node.kind == SyntaxKind::PAREN_EXPR {
            match node.child(NodeClass::Kind(SyntaxKind::APP_EXPR), 0) {
                Some(app) => self.lower_app(app),
                None => self.lower_expr_defaulting_to_unit(node),
            }
        } else if node.kind == SyntaxKind::LAMBDA_EXPR {
            let params = self.lower_params(node.child(NodeClass::Kind(SyntaxKind::PARAMS), 0));
            let ghost s1 = *self;
            let body = match self.lower_child_expr(node) {
                Ok(body) => body,
                Err(e) => {
                    proof {
                        self.lemma_follows_trans(&s1, old(self));
                        lemma_curried_unsupported(
                            params_in(*node),
                            annotated_type(*node),
                            expr_of_opt(node.spec_child(NodeClass::Expr, 0)),
                        );
                    }
                    return Err(e);
                },
            };
            let ghost s2 = *self;
            let body = self.alloc_expr(body);
            let ghost s3 = *self;
            let return_type = self.lower_type_annotation(
                node.child(NodeClass::Kind(SyntaxKind::TYPE_ANNOTATION), 0),
            );
            let ghost s4 = *self;
            proof {
                s2.lemma_follows_trans(&s1, old(self));
                s3.lemma_follows_trans(&s2, &s1);
                s4.lemma_follows_trans(&s3, &s1);
                s4.lemma_follows_trans(&s3, old(self));
                s4.lemma_follows_trans(&s1, old(self));
                s4.lemma_keeps_params(&s1, params@, params_in(*node));
                s4.lemma_keeps_expr_at(
                    &s3,
                    body,
                    expr_of_opt(node.spec_child(NodeClass::Expr, 0)),
                );
            }
            let result = self.curry(body, &params, return_type);
            proof {
                self.lemma_follows_trans(&s4, old(self));
                lemma_curried_unsupported(
                    params_in(*node),
                    annotated_type(*node),
                    expr_of_opt(node.spec_child(NodeClass::Expr, 0)),
                );
            }
            Ok(result)
        } else if node.kind == SyntaxKind::BLOCK_EXPR {
            self.lower_block(node)
        } else if node.kind == SyntaxKind::BINARY_EXPR {
            Err(LowerError::UnsupportedBinaryExpr)
        } else {
            Ok(Expr::Missing)
        }
    }

    /// Lowers the first expression among the children of `parent`; without
    /// one the result is `Missing`.
    pub fn lower_child_expr(&mut self, parent: &SyntaxNode) -> (r: Result<Expr, LowerError>)
        requires
            old(self).wf(),
        ensures
            final(self).follows(old(self)),
            r is Err <==> has_unsupported(expr_of_opt(parent.spec_child(NodeClass::Expr, 0))),
            r matches Ok(e) ==> final(self).holds_expr(
                e,
                expr_of_opt(parent.spec_child(NodeClass::Expr, 0)),
            ),
            final(self).laid(laid_child_expr(old(self).layout(), *parent), shaped(r)),
        decreases parent, 0nat,
    {
        match parent.child(NodeClass::Expr, 0) {
            Some(child) => self.lower_expr(child),
            None => Ok(Expr::Missing),
        }
    }

    /// Lowers the first expression among the children of `parent`; without
    /// one the result is the unit value.
    pub fn lower_expr_defaulting_to_unit(&mut self, parent: &SyntaxNode) -> (r: Result<
        Expr,
        LowerError,
    >)
        requires
            old(self).wf(),
        ensures
            final(self).follows(old(self)),
            r is Err <==> has_unsupported(expr_or_unit(parent.spec_child(NodeClass::Expr, 0))),
            r matches Ok(e) ==> final(self).holds_expr(
                e,
                expr_or_unit(parent.spec_child(NodeClass::Expr, 0)),
            ),
            final(self).laid(laid_expr_or_unit(old(self).layout(), *parent), shaped(r)),
        decreases parent, 0nat,
    {
        match parent.child(NodeClass::Expr, 0) {
            Some(child) => self.lower_expr(child),
            None => Ok(Expr::LiteralExpr(Literal::Unit)),
        }
    }

    /// Lowers an application. Function and argument go into the arena, the
    /// function first.
    pub fn lower_app(&mut self, node: &SyntaxNode) -> (r: Result<Expr, LowerError>)
        requires
            old(self).wf(),
        ensures
            final(self).follows(old(self)),
            r is Err <==> has_unsupported(app_of(*node)),
            r matches Ok(e) ==> final(self).holds_expr(e, app_of(*node)),
            final(self).laid(laid_app(old(self).layout(), *node), shaped(r)),
        decreases node, 3nat,
    {
        let first = node.find_node(NodeClass::Any, 0);
        let func = if first < node.children.len() {
            match &node.children[first] {
                SyntaxElement::Node(child) => {
                    if child.kind == SyntaxKind::APP_EXPR {
                        self.lower_app(child)
                    } else if NodeClass::Expr.contains(child.kind) {
                        self.lower_expr(child)
                    } else {
                        Ok(Expr::Missing)
                    }
                },
                SyntaxElement::Token(_) => Ok(Expr::Missing),
            }
        } else {
            Ok(Expr::Missing)
        };
        let func = match func {
            Ok(func) => func,
            Err(e) => {
                return Err(e);
            },
        };
        let ghost s1 = *self;
        let ghost func_term = app_of(*node)->func;
        let func = self.alloc_expr(func);
        let ghost s2 = *self;
        let arg = if first < node.children.len() {
            match node.child(NodeClass::Expr, first + 1) {
                Some(child) => self.lower_expr(child),
                None => Ok(Expr::Missing),
            }
        } else {
            Ok(Expr::Missing)
        };
        let arg = match arg {
            Ok(arg) => arg,
            Err(e) => {
                proof {
                    self.lemma_follows_trans(&s2, &s1);
                    self.lemma_follows_trans(&s1, old(self));
                }
                return Err(e);
            },
        };
        let ghost s3 = *self;
        let arg = self.alloc_expr(arg);
        proof {
            s2.lemma_follows_trans(&s1, old(self));
            s3.lemma_follows_trans(&s2, old(self));
            self.lemma_follows_trans(&s3, old(self));
            self.lemma_follows_trans(&s3, &s2);
            self.lemma_keeps_expr_at(&s2, func, *func_term);
            assert(!has_unsupported(*app_of(*node)->func));
            assert(!has_unsupported(*app_of(*node)->arg));
            assert(!has_unsupported(app_of(*node)));
        }
        Ok(Expr::AppExpr { func, arg })
    }

    /// Lowers a statement in front of `cont`, the position of what follows
    /// it: the statement becomes a `let` whose body is `cont`. The value of the
    /// statement goes into the arena.
    pub fn lower_stmt(&mut self, node: &SyntaxNode, cont: ExprIdx) -> (r: Result<Expr, LowerError>)
        requires
            old(self).wf(),
            cont.raw < old(self).store().exprs.len(),
        ensures
            final(self).follows(old(self)),
            r is Err <==> has_unsupported(stmt_of(*node, Term::Missing)),
            r matches Ok(e) ==> final(self).holds_expr(
                e,
                stmt_of(*node, expr_term_at(old(self).store(), cont.raw as nat)),
            ) && e is LetExpr,
            final(self).laid(laid_stmt(old(self).layout(), *node, cont), shaped(r)),
        decreases node, 1nat,
    {
        let ghost cont_term = expr_term_at(old(self).store(), cont.raw as nat);
        proof {
            lemma_stmt_unsupported(*node, cont_term);
        }
        if node.kind == SyntaxKind::EXPR_STMT {
            let value = match self.lower_expr_defaulting_to_unit(node) {
                Ok(value) => value,
                Err(e) => {
                    return Err(e);
                },
            };
            let ghost s1 = *self;
            let value = self.alloc_expr(value);
            let ghost s2 = *self;
            let name = self.empty_name();
            let ghost s3 = *self;
            let return_type = self.alloc_type_expr(TypeExpr::Missing);
            proof {
                s2.lemma_follows_trans(&s1, old(self));
                s3.lemma_follows_trans(&s2, old(self));
                self.lemma_follows_trans(&s3, old(self));
                self.lemma_follows_trans(&s3, &s2);
                self.lemma_keeps_expr_at(
                    &s2,
                    value,
                    expr_or_unit(node.spec_child(NodeClass::Expr, 0)),
                );
                lemma_expr_stable(old(self).store(), self.store(), cont.raw as nat);
                assert(params_terms(self.store(), Seq::<Param>::empty()) =~= Seq::<
                    ParamTerm,
                >::empty());
            }
            let params: Vec<Param> = Vec::new();
            proof {
                assert(params@ =~= Seq::<Param>::empty());
            }
            Ok(Expr::let_expr(name, params, return_type, value, cont))
        } else {
            let name = self.lower_ident(node.token(SyntaxKind::IDENT));
            let ghost s1 = *self;
            let params = self.lower_params(node.child(NodeClass::Kind(SyntaxKind::PARAMS), 0));
            let ghost s2 = *self;
            let return_type = self.lower_type_annotation(
                node.child(NodeClass::Kind(SyntaxKind::TYPE_ANNOTATION), 0),
            );
            let ghost s3 = *self;
            proof {
                s2.lemma_follows_trans(&s1, old(self));
                s3.lemma_follows_trans(&s2, old(self));
                s3.lemma_follows_trans(&s2, &s1);
            }
            let defn = match self.lower_child_expr(node) {
                Ok(defn) => defn,
                Err(e) => {
                    proof {
                        self.lemma_follows_trans(&s3, old(self));
                    }
                    return Err(e);
                },
            };
            let ghost s4 = *self;
            let defn = self.alloc_expr(defn);
            proof {
                s4.lemma_follows_trans(&s3, old(self));
                self.lemma_follows_trans(&s4, old(self));
                s4.lemma_follows_trans(&s3, &s2);
                self.lemma_follows_trans(&s4, &s2);
                self.lemma_follows_trans(&s4, &s3);
                s4.lemma_follows_trans(&s3, &s1);
                self.lemma_follows_trans(&s4, &s1);
                self.lemma_keeps_name(&s1, name, ident_text(*node));
                self.lemma_keeps_params(&s2, params@, params_in(*node));
                self.lemma_keeps_type_at(&s3, return_type, annotated_type(*node));
                lemma_expr_stable(old(self).store(), self.store(), cont.raw as nat);
            }
            Ok(Expr::let_expr(name, params, return_type, defn, cont))
        }
    }

    /// Lowers a block: its tail, or the unit value without one, under one
    /// `let` for each statement, the first statement outermost. The tail and
    /// each `let` but the outermost go into the arena.
    pub fn lower_block(&mut self, node: &SyntaxNode) -> (r: Result<Expr, LowerError>)
        requires
            old(self).wf(),
        ensures
            final(self).follows(old(self)),
            r is Err <==> has_unsupported(
                block_from(
                    *node,
                    node.children@.len(),
                    expr_or_unit(node.spec_child(NodeClass::Expr, 0)),
                ),
            ),
            r matches Ok(e) ==> final(self).holds_expr(
                e,
                block_from(
                    *node,
                    node.children@.len(),
                    expr_or_unit(node.spec_child(NodeClass::Expr, 0)),
                ),
            ),
            final(self).laid(laid_block(old(self).layout(), *node), shaped(r)),
        decreases node, 2nat,
    {
        let ghost laid_whole = laid_block(old(self).layout(), *node);
        let ghost tail = expr_or_unit(node.spec_child(NodeClass::Expr, 0));
        let ghost whole = block_from(*node, node.children@.len(), tail);
        let mut body = match self.lower_expr_defaulting_to_unit(node) {
            Ok(body) => body,
            Err(e) => {
                proof {
                    lemma_block_unsupported(*node, node.children@.len(), tail);
                }
                return Err(e);
            },
        };
        let ghost mut current = tail;
        let mut i: usize = node.children.len();
        while i > 0
            invariant
                i <= node.children.len(),
                old(self).wf(),
                self.follows(old(self)),
                self.holds_expr(body, current),
                !has_unsupported(current),
                block_from(*node, i as nat, current) == whole,
                whole == block_from(
                    *node,
                    node.children@.len(),
                    expr_or_unit(node.spec_child(NodeClass::Expr, 0)),
                ),
                laid_whole == laid_block(old(self).layout(), *node),
                laid_block_from(self.layout(), *node, i as nat, body@) == laid_whole,
            decreases i,
        {
            i = i - 1;
            match &node.children[i] {
                SyntaxElement::Node(child) => {
                    if NodeClass::Stmt.contains(child.kind) {
                        let ghost s1 = *self;
                        let cont = self.alloc_expr(body);
                        let ghost s2 = *self;
                        match self.lower_stmt(child, cont) {
                            Ok(stmt) => {
                                proof {
                                    s2.lemma_follows_trans(&s1, old(self));
                                    self.lemma_follows_trans(&s2, old(self));
                                    lemma_stmt_unsupported(*child, current);
                                    current = stmt_of(*child, current);
                                }
                                body = stmt;
                            },
                            Err(e) => {
                                proof {
                                    s2.lemma_follows_trans(&s1, old(self));
                                    self.lemma_follows_trans(&s2, old(self));
                                    lemma_stmt_unsupported(*child, current);
                                    assert(is_node_of(node.children@, NodeClass::Stmt, i as int));
                                    assert(block_from(*node, (i + 1) as nat, current)
                                        == block_from(
                                        *node,
                                        i as nat,
                                        stmt_of(*child, current),
                                    ));
                                    lemma_block_unsupported(
                                        *node,
                                        i as nat,
                                        stmt_of(*child, current),
                                    );
                                }
                                return Err(e);
                            },
                        }
                    }
                },
                SyntaxElement::Token(_) => {},
            }
        }
        proof {
            lemma_block_supported(*node, 0, current);
        }
        Ok(body)
    }

    /// Lowers a definition. Its parameters, its body, its return type and its
    /// name are lowered in this order, and the body goes into the arena. A
    /// definition with parameters is then curried: the closures of its
    /// parameters around its body are made, the outermost goes into the arena
    /// too, and the definition is bound to it. Without parameters the definition
    /// is bound to its body. A binary expression in the body is an error.
    pub fn lower_definition(&mut self, node: &SyntaxNode) -> (r: Result<Definition, LowerError>)
        requires
            old(self).wf(),
        ensures
            final(self).follows(old(self)),
            r is Err <==> has_unsupported(body_of(*node)),
            r matches Ok(d) ==> definition_ok(final(self).store(), d) && (fits(final(self).store())
                ==> definition_term(final(self).store(), d) == definition_of(*node)),
            final(self).laid(laid_definition(old(self).layout(), *node), shaped_definition(r)),
    {
        let declared = match self.lower_declared(node) {
            Ok(declared) => declared,
            Err(e) => {
                return Err(e);
            },
        };
        let ghost written = *self;
        let defn = self.definition_value(&declared);
        proof {
            self.lemma_follows_trans(&written, old(self));
            lemma_definition_stable(written.store(), self.store(), declared);
        }
        Ok(
            Definition {
                name: declared.name,
                params: declared.params,
                return_type: declared.return_type,
                defn,
            },
        )
    }

    /// Lowers a definition as it is written: its parameters, its body, its
    /// return type and its name, in this order. The body goes into the arena
    /// as it is.
    fn lower_declared(&mut self, node: &SyntaxNode) -> (r: Result<Definition, LowerError>)
        requires
            old(self).wf(),
        ensures
            final(self).follows(old(self)),
            r is Err <==> has_unsupported(body_of(*node)),
            r matches Ok(d) ==> definition_ok(final(self).store(), d) && (fits(final(self).store())
                ==> definition_term(final(self).store(), d) == declared_of(*node)),
            final(self).laid(laid_declared(old(self).layout(), *node), shaped_definition(r)),
    {
        let params = self.lower_params(node.child(NodeClass::Kind(SyntaxKind::PARAMS), 0));
        let ghost s1 = *self;
        let body = match node.child(NodeClass::Kind(SyntaxKind::DEF_BODY), 0) {
            Some(def_body) => match def_body.child(NodeClass::Kind(SyntaxKind::BLOCK_EXPR), 0) {
                Some(block) => self.lower_block(block),
                None => self.lower_child_expr(def_body),
            },
            None => Ok(Expr::Missing),
        };
        let body = match body {
            Ok(body) => body,
            Err(e) => {
                proof {
                    self.lemma_follows_trans(&s1, old(self));
                }
                return Err(e);
            },
        };
        let ghost s2 = *self;
        proof {
            s2.lemma_follows_trans(&s1, old(self));
        }
        let return_type = match node.child(NodeClass::Kind(SyntaxKind::TYPE_ANNOTATION), 0) {
            Some(annotation) => self.lower_type_annotation(Some(annotation)),
            None => match &body {
                Expr::LetExpr(binding) => binding.return_type,
                _ => missing_type_expr_id(),
            },
        };
        let ghost s3 = *self;
        proof {
            s3.lemma_follows_trans(&s2, old(self));
            s3.lemma_follows_trans(&s2, &s1);
            s3.lemma_keeps_expr(&s2, body, body_of(*node));
            if fits(s3.store()) {
                assert(s3.holds_type_at(return_type, return_type_of(*node)));
            }
        }
        let defn = self.alloc_expr(body);
        let ghost s4 = *self;
        let name = self.lower_ident(node.token(SyntaxKind::IDENT));
        proof {
            s4.lemma_follows_trans(&s3, old(self));
            self.lemma_follows_trans(&s4, old(self));
            s4.lemma_follows_trans(&s3, &s1);
            self.lemma_follows_trans(&s4, &s1);
            self.lemma_follows_trans(&s4, &s3);
            self.lemma_keeps_params(&s1, params@, params_in(*node));
            self.lemma_keeps_expr_at(&s4, defn, body_of(*node));
            if fits(self.store()) {
                self.lemma_keeps_type_at(&s3, return_type, return_type_of(*node));
            } else {
                lemma_type_stable(s3.store(), self.store(), return_type.raw as nat);
            }
        }
        Ok(Definition { name, params, return_type, defn })
    }

    /// Lowers an `open` declaration: its name.
    pub fn lower_open(&mut self, node: &SyntaxNode) -> (open: Open)
        requires
            old(self).wf(),
        ensures
            final(self).follows(old(self)),
            final(self).holds_name(open.path, ident_text(*node)),
            final(self).laid(laid_open(old(self).layout(), *node), open),
    {
        Open { path: self.lower_ident(node.token(SyntaxKind::IDENT)) }
    }

    /// Lowers a type definition: its type, which goes into the arena, and its
    /// name.
    pub fn lower_type_definition(&mut self, node: &SyntaxNode) -> (d: TypeDefinition)
        requires
            old(self).wf(),
        ensures
            final(self).follows(old(self)),
            type_definition_ok(final(self).store(), d),
            fits(final(self).store()) ==> type_definition_term(final(self).store(), d)
                == type_definition_of(*node),
            final(self).laid(laid_type_definition(old(self).layout(), *node), d),
    {
        let defn = match node.child(NodeClass::TypeExpr, 0) {
            Some(inner) => self.lower_type_expr(inner),
            None => TypeExpr::Missing,
        };
        let ghost s1 = *self;
        let defn = self.alloc_type_expr(defn);
        let ghost s2 = *self;
        let name = self.lower_ident(node.token(SyntaxKind::IDENT));
        proof {
            s2.lemma_follows_trans(&s1, old(self));
            self.lemma_follows_trans(&s2, old(self));
            self.lemma_keeps_type_at(
                &s2,
                defn,
                type_of_opt(node.spec_child(NodeClass::TypeExpr, 0)),
            );
        }
        TypeDefinition { name, defn }
    }

    /// The value that a definition binds, as a position in the arena: its
    /// body under its parameters, curried. The innermost closure has the return
    /// type of the definition. Without parameters the value is the body itself,
    /// under no closure.
    fn definition_value(&mut self, definition: &Definition) -> (idx: ExprIdx)
        requires
            old(self).wf(),
            definition_ok(old(self).store(), *definition),
        ensures
            final(self).follows(old(self)),
            final(self).holds_expr_at(
                idx,
                definition_value_term(definition_term(old(self).store(), *definition)),
            ),
            final(self).laid(laid_definition_value(old(self).layout(), definition@), idx),
    {
        if definition.params.len() == 0 {
            definition.defn
        } else {
            let closure = self.curry(definition.defn, &definition.params, definition.return_type);
            let ghost curried = *self;
            let idx = self.alloc_expr(closure);
            proof {
                self.lemma_follows_trans(&curried, old(self));
            }
            idx
        }
    }

    /// The definitions of the module, as plain values.
    pub open spec fn def_terms(&self) -> Seq<DefinitionTerm> {
        self.defs().map_values(|d: Definition| definition_term(self.store(), d))
    }

    /// The names of the `open` declarations of the module.
    pub open spec fn open_names(&self) -> Seq<Seq<char>> {
        self.open_decls().map_values(|o: Open| name_text(self.store().names, o.path))
    }

    /// The type definitions of the module, as plain values.
    pub open spec fn type_def_terms(&self) -> Seq<TypeDefinitionTerm> {
        self.type_defs().map_values(|d: TypeDefinition| type_definition_term(self.store(), d))
    }

    /// What the declarations stood for, they stand for after the module has
    /// grown.
    pub proof fn lemma_keeps_decls(&self, before: &Self)
        requires
            before.wf(),
            self.follows(before),
        ensures
            self.def_terms() == before.def_terms(),
            self.open_names() == before.open_names(),
            self.type_def_terms() == before.type_def_terms(),
    {
        assert forall|i: int| 0 <= i < self.defs().len() implies self.def_terms()[i]
            == before.def_terms()[i] by {
            assert(definition_ok(before.store(), before.defs()[i]));
            lemma_definition_stable(before.store(), self.store(), before.defs()[i]);
        }
        assert(self.def_terms() =~= before.def_terms());
        assert forall|i: int| 0 <= i < self.open_decls().len() implies self.open_names()[i]
            == before.open_names()[i] by {
            assert(name_ok(before.store(), before.open_decls()[i].path));
        }
        assert(self.open_names() =~= before.open_names());
        assert forall|i: int| 0 <= i < self.type_defs().len() implies self.type_def_terms()[i]
            == before.type_def_terms()[i] by {
            assert(type_definition_ok(before.store(), before.type_defs()[i]));
            lemma_type_definition_stable(before.store(), self.store(), before.type_defs()[i]);
        }
        assert(self.type_def_terms() =~= before.type_def_terms());
    }

    /// Lowers the declarations of a module, in the order of the source, and
    /// appends each to the declarations of its kind.
    ///
    /// Each declaration is lowered by itself: what is missing in one (a name,
    /// a type, a body) is `Missing` there and does not touch the others. Only a
    /// binary expression in the body of a definition is an error; the
    /// declarations before that definition have been appended by then.
    ///
    /// A definition with parameters is bound to its curried form: `def f x y =
    /// b` is bound to the closure of `x` around the closure of `y` around `b`,
    /// which stand in the arena of expressions when the call returns.
    ///
    /// Each arena of declarations grows by the declarations of its kind, in
    /// the order of the source, whatever the size of the arenas. What the
    /// declarations stand for is stated as long as positions fit into 32 bits.
    pub fn lower_module(&mut self, ast: &ModuleNode) -> (r: Result<(), LowerError>)
        requires
            old(self).wf(),
        ensures
            final(self).wf(),
            grows(old(self).store(), final(self).store()),
            r is Err <==> unsupported_upto(ast.node().children@, ast.node().children@.len()),
            fits(final(self).store()) ==> {
                let children = ast.node().children@;
                let taken = taken_upto(children, children.len());
                &&& final(self).def_terms() == old(self).def_terms() + definitions_upto(
                    children,
                    taken,
                )
                &&& final(self).open_names() == old(self).open_names() + opens_upto(
                    children,
                    taken,
                )
                &&& final(self).type_def_terms() == old(self).type_def_terms()
                    + type_definitions_upto(children, taken)
            },
            laid_module(old(self).content(), ast.node()) == (final(self).content(), r),
            ({
                let children = ast.node().children@;
                let taken = taken_upto(children, children.len());
                &&& final(self).defs().len() == old(self).defs().len() + definitions_upto(
                    children,
                    taken,
                ).len()
                &&& final(self).open_decls().len() == old(self).open_decls().len() + opens_upto(
                    children,
                    taken,
                ).len()
                &&& final(self).type_defs().len() == old(self).type_defs().len()
                    + type_definitions_upto(children, taken).len()
            }),
    {
        let root = ast.syntax();
        let mut i: usize = 0;
        proof {
            lemma_taken_upto(root.children@, root.children@.len());
            assert(old(self).def_terms() + definitions_upto(root.children@, 0) =~= old(
                self,
            ).def_terms());
            assert(old(self).open_names() + opens_upto(root.children@, 0) =~= old(
                self,
            ).open_names());
            assert(old(self).type_def_terms() + type_definitions_upto(root.children@, 0) =~= old(
                self,
            ).type_def_terms());
        }
        while i < root.children.len()
            invariant
                i <= root.children.len(),
                *root == ast.node(),
                old(self).wf(),
                self.wf(),
                grows(old(self).store(), self.store()),
                !unsupported_upto(root.children@, i as nat),
                fits(self.store()) ==> {
                    &&& self.def_terms() == old(self).def_terms() + definitions_upto(
                        root.children@,
                        i as nat,
                    )
                    &&& self.open_names() == old(self).open_names() + opens_upto(
                        root.children@,
                        i as nat,
                    )
                    &&& self.type_def_terms() == old(self).type_def_terms()
                        + type_definitions_upto(root.children@, i as nat)
                },
                laid_items_upto(old(self).content(), root.children@, i as nat) == (
                    self.content(),
                    Ok::<(), LowerError>(()),
                ),
                self.defs().len() == old(self).defs().len() + definitions_upto(
                    root.children@,
                    i as nat,
                ).len(),
                self.open_decls().len() == old(self).open_decls().len() + opens_upto(
                    root.children@,
                    i as nat,
                ).len(),
                self.type_defs().len() == old(self).type_defs().len() + type_definitions_upto(
                    root.children@,
                    i as nat,
                ).len(),
            decreases root.children.len() - i,
        {
            let ghost before = *self;
            match &root.children[i] {
                SyntaxElement::Node(child) => {
                    if child.kind == SyntaxKind::DEFINITION {
                        match self.lower_definition(child) {
                            Ok(definition) => {
                                let ghost lowered = *self;
                                self.add_definition(definition);
                                proof {
                                    lemma_grows_trans(
                                        old(self).store(),
                                        before.store(),
                                        self.store(),
                                    );
                                    lowered.lemma_keeps_decls(&before);
                                    if fits(self.store()) {
                                        assert(self.def_terms() =~= lowered.def_terms().push(
                                            definition_of(*child),
                                        ));
                                        assert(self.open_names() =~= lowered.open_names());
                                        assert(self.type_def_terms() =~= lowered.type_def_terms());
                                        assert(self.def_terms() =~= old(self).def_terms()
                                            + definitions_upto(root.children@, (i + 1) as nat));
                                    }
                                    assert(self.content().defs =~= before.content().defs.push(
                                        definition@,
                                    ));
                                }
                            },
                            Err(e) => {
                                proof {
                                    lemma_grows_trans(
                                        old(self).store(),
                                        before.store(),
                                        self.store(),
                                    );
                                    lemma_unsupported_rest(
                                        root.children@,
                                        (i + 1) as nat,
                                        root.children@.len(),
                                    );
                                    lemma_taken_upto(root.children@, i as nat);
                                    lemma_taken_upto(root.children@, (i + 1) as nat);
                                    lemma_taken_stops(
                                        root.children@,
                                        (i + 1) as nat,
                                        root.children@.len(),
                                    );
                                    self.lemma_keeps_decls(&before);
                                    lemma_items_stop(
                                        old(self).content(),
                                        root.children@,
                                        (i + 1) as nat,
                                        root.children@.len(),
                                    );
                                }
                                return Err(e);
                            },
                        }
                    } else if child.kind == SyntaxKind::OPEN {
                        let open = self.lower_open(child);
                        let ghost lowered = *self;
                        self.add_open(open);
                        proof {
                            lemma_grows_trans(old(self).store(), before.store(), self.store());
                            lowered.lemma_keeps_decls(&before);
                            if fits(self.store()) {
                                assert(self.open_names() =~= lowered.open_names().push(
                                    ident_text(*child),
                                ));
                                assert(self.def_terms() =~= lowered.def_terms());
                                assert(self.type_def_terms() =~= lowered.type_def_terms());
                                assert(self.open_names() =~= old(self).open_names() + opens_upto(
                                    root.children@,
                                    (i + 1) as nat,
                                ));
                            }
                        }
                    } else if child.kind == SyntaxKind::TYPE_DEFINITION {
                        let type_definition = self.lower_type_definition(child);
                        let ghost lowered = *self;
                        self.add_type_definition(type_definition);
                        proof {
                            lemma_grows_trans(old(self).store(), before.store(), self.store());
                            lowered.lemma_keeps_decls(&before);
                            if fits(self.store()) {
                                assert(self.type_def_terms() =~= lowered.type_def_terms().push(
                                    type_definition_of(*child),
                                ));
                                assert(self.def_terms() =~= lowered.def_terms());
                                assert(self.open_names() =~= lowered.open_names());
                                assert(self.type_def_terms() =~= old(self).type_def_terms()
                                    + type_definitions_upto(root.children@, (i + 1) as nat));
                            }
                        }
                    }
                },
                SyntaxElement::Token(_) => {},
            }
            i = i + 1;
        }
        proof {
            lemma_taken_upto(root.children@, root.children@.len());
        }
        Ok(())
    }
}

/// A statement in front of `cont` is unsupported exactly when its value or
/// `cont` is.
pub proof fn lemma_stmt_unsupported(node: SyntaxNode, cont: Term)
    ensures
        has_unsupported(stmt_of(node, cont)) == (has_unsupported(stmt_of(node, Term::Missing))
            || has_unsupported(cont)),
        has_unsupported(stmt_of(node, Term::Missing)) == has_unsupported(
            *stmt_of(node, Term::Missing)->defn,
        ),
        stmt_of(node, cont)->defn == stmt_of(node, Term::Missing)->defn,
{
    reveal_with_fuel(has_unsupported, 2);
}

/// Once a definition is unsupported, the module is.
pub proof fn lemma_unsupported_rest(children: Seq<SyntaxElement>, n: nat, m: nat)
    requires
        unsupported_upto(children, n),
        n <= m <= children.len(),
    ensures
        unsupported_upto(children, m),
    decreases m - n,
{
    if n < m {
        lemma_unsupported_rest(children, n, (m - 1) as nat);
    }
}

/// A block around something unsupported is unsupported.
pub proof fn lemma_block_unsupported(node: SyntaxNode, n: nat, cont: Term)
    requires
        has_unsupported(cont),
    ensures
        has_unsupported(block_from(node, n, cont)),
    decreases n,
{
    let children = node.children@;
    if n == 0 || n > children.len() {
    } else if is_node_of(children, NodeClass::Stmt, n - 1) {
        lemma_block_unsupported(node, (n - 1) as nat, stmt_of(children[n - 1]->Node_0, cont));
    } else {
        lemma_block_unsupported(node, (n - 1) as nat, cont);
    }
}

proof fn lemma_block_supported(node: SyntaxNode, n: nat, cont: Term)
    requires
        n == 0,
    ensures
        block_from(node, n, cont) == cont,
{
}

/// Closures around a body are unsupported exactly when the body is.
pub proof fn lemma_closures_unsupported(params: Seq<ParamTerm>, inner: Term)
    ensures
        has_unsupported(closures(params, inner)) == has_unsupported(inner),
    decreases params.len(),
{
    if params.len() > 0 {
        lemma_closures_unsupported(
            params.drop_last(),
            Term::Lambda {
                param: params.last(),
                return_type: TypeTerm::Missing,
                body: Box::new(inner),
            },
        );
    }
}

pub proof fn lemma_curried_unsupported(params: Seq<ParamTerm>, return_type: TypeTerm, body: Term)
    ensures
        has_unsupported(curried(params, return_type, body)) == has_unsupported(body),
{
    if params.len() > 0 {
        lemma_closures_unsupported(
            params.drop_last(),
            Term::Lambda { param: params.last(), return_type, body: Box::new(body) },
        );
    }
}

pub proof fn lemma_digits_bound(text: Seq<char>, n: int)
    requires
        all_digits(text),
        0 <= n <= text.len(),
    ensures
        0 <= digits_value(text.take(n)) <= digits_value(text),
    decreases text.len() - n,
{
    if n == text.len() {
        assert(text.take(n) =~= text);
        lemma_digits_nonneg(text);
    } else {
        lemma_digits_bound(text, n + 1);
        assert(text.take(n + 1).drop_last() =~= text.take(n));
        assert(is_digit_char(text.take(n + 1).last()));
        lemma_digits_nonneg(text.take(n));
    }
}

pub proof fn lemma_digits_nonneg(text: Seq<char>)
    requires
        all_digits(text),
    ensures
        0 <= digits_value(text),
    decreases text.len(),
{
    if text.len() > 0 {
        assert(is_digit_char(text.last()));
        lemma_digits_nonneg(text.drop_last());
    }
}

/// The number that `text` spells, if `text` is made of digits and the number
/// fits.
pub fn parse_int(text: &str) -> (r: Option<i64>)
    ensures
        match r {
            Some(v) => int_literal(text@) == Term::Literal(Literal::Int(v)),
            None => int_literal(text@) == Term::Missing,
        },
{
    let chars = to_chars(text);
    if chars.len() == 0 {
        return None;
    }
    let mut value: i64 = 0;
    let mut i: usize = 0;
    proof {
        assert(chars@.take(0) =~= Seq::<char>::empty());
    }
    while i < chars.len()
        invariant
            i <= chars.len(),
            chars@ == text@,
            all_digits(chars@.take(i as int)),
            value == digits_value(chars@.take(i as int)),
            0 <= value,
        decreases chars.len() - i,
    {
        let c = chars[i];
        if !('0' <= c && c <= '9') {
            proof {
                assert(!is_digit_char(chars@[i as int]));
            }
            return None;
        }
        let d: i64 = (c as u32 - '0' as u32) as i64;
        proof {
            assert(chars@.take(i + 1).drop_last() =~= chars@.take(i as int));
            assert(chars@.take(i + 1).last() == c);
            assert forall|j: int| 0 <= j < i + 1 implies is_digit_char(
                #[trigger] chars@.take(i + 1)[j],
            ) by {
                if j < i {
                    assert(chars@.take(i as int)[j] == chars@[j]);
                }
            }
        }
        if value > (i64::MAX - d) / 10 {
            proof {
                if all_digits(chars@) {
                    lemma_digits_bound(chars@, i + 1);
                }
            }
            return None;
        }
        value = value * 10 + d;
        i = i + 1;
    }
    proof {
        assert(chars@.take(i as int) =~= chars@);
    }
    Some(value)
}

} // verus!
