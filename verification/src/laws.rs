//! What holds of lowering and of parsing as a whole, stated over the models that
//! the contracts use.

use vstd::prelude::*;
use crate::parsed;
use crate::ast::{is_expr_kind, is_node_of, is_type_expr_kind, node_index, NodeClass, token_index};
use crate::grammar::PrefixEntryPoint;
use crate::hir::{
    DefinitionTerm, Expr, LowerError, ParamTerm, Term, TypeDefinitionTerm, TypeExpr, TypeTerm,
};
use crate::layout::{laid_module, lemma_layout_expr, lemma_layout_params, lemma_layout_type};
use crate::lexer::{lex_spec, Token};
use crate::lower_spec::{
    app_of, body_of, closures, curried, definition_of, definitions_upto, expr_of, opens_upto,
    params_in, return_type_of, type_definitions_upto, type_of, unsupported_upto,
};
use crate::module::Module;
use crate::recovery::{
    after_first, cut_at, first_declarations, junk, lead, lemma_first_diagnostics,
    lemma_junk_skipped, lemma_recovery_walk,
};
use crate::resume::moved;
use crate::sink::{diagnostics_of, elements_steps, Parse, view_kinds};
use crate::source::remaining;
use crate::syntax_kind::SyntaxKind;
use crate::text::byte_len;
use crate::tree::{SyntaxElement, SyntaxNode};

verus! {

/// The sentinel of the arenas: in a well-formed module the position 0 of the
/// arena of expressions holds `Missing` and no other position does, and the
/// same holds of the arena of type expressions. Whatever is missing shares the
/// position 0.
pub proof fn lemma_sentinel(module: Module)
    requires
        module.wf(),
    ensures
        module.store().exprs.len() >= 1,
        module.store().exprs[0] is Missing,
        forall|i: int|
            1 <= i < module.store().exprs.len() ==> !(#[trigger] module.store().exprs[i] is Missing),
        module.store().types.len() >= 1,
        module.store().types[0] is Missing,
        forall|i: int|
            1 <= i < module.store().types.len() ==> !(#[trigger] module.store().types[i] is Missing),
{
}

/// Closures around `inner` are the closure of the first parameter around the
/// closures of the others.
pub proof fn lemma_closures_first(params: Seq<ParamTerm>, inner: Term)
    requires
        params.len() >= 1,
    ensures
        closures(params, inner) == (Term::Lambda {
            param: params[0],
            return_type: TypeTerm::Missing,
            body: Box::new(closures(params.drop_first(), inner)),
        }),
    decreases params.len(),
{
    let wrapped = Term::Lambda {
        param: params.last(),
        return_type: TypeTerm::Missing,
        body: Box::new(inner),
    };
    if params.len() == 1 {
        assert(params.drop_last().len() == 0);
        assert(params.drop_first().len() == 0);
    } else {
        lemma_closures_first(params.drop_last(), wrapped);
        assert(params.drop_last()[0] == params[0]);
        assert(params.drop_last().drop_first() =~= params.drop_first().drop_last());
        assert(params.drop_first().last() == params.last());
    }
}

/// Currying: a function of two parameters or more is the closure of its first
/// parameter, without return type, around the function of the other
/// parameters. So `\x y -> b` stands for what `\x -> \y -> b` stands for, and
/// the return type stays with the innermost closure.
pub proof fn lemma_currying(params: Seq<ParamTerm>, return_type: TypeTerm, body: Term)
    requires
        params.len() >= 2,
    ensures
        curried(params, return_type, body) == curried(
            seq![params[0]],
            TypeTerm::Missing,
            curried(params.drop_first(), return_type, body),
        ),
{
    let innermost = Term::Lambda { param: params.last(), return_type, body: Box::new(body) };
    lemma_closures_first(params.drop_last(), innermost);
    assert(params.drop_last()[0] == params[0]);
    assert(params.drop_last().drop_first() =~= params.drop_first().drop_last());
    assert(params.drop_first().last() == params.last());
    let one = seq![params[0]];
    assert(one.drop_last().len() == 0);
    assert(one.last() == params[0]);
}

/// A definition with parameters is bound to its curried form; one without
/// parameters to its body.
pub proof fn lemma_definition_curried(node: SyntaxNode)
    ensures
        params_in(node).len() >= 1 ==> definition_of(node).defn == curried(
            params_in(node),
            return_type_of(node),
            body_of(node),
        ),
        params_in(node).len() == 0 ==> definition_of(node).defn == body_of(node),
        definition_of(node).params == params_in(node),
        definition_of(node).return_type == return_type_of(node),
{
}

/// `def f x y = b` is bound to the closure of `x` around the closure of `y`
/// around `b`; only the inner closure has the return type of the definition.
pub proof fn lemma_definition_of_two(node: SyntaxNode, x: ParamTerm, y: ParamTerm)
    requires
        params_in(node) == seq![x, y],
    ensures
        definition_of(node).defn == (Term::Lambda {
            param: x,
            return_type: TypeTerm::Missing,
            body: Box::new(
                Term::Lambda {
                    param: y,
                    return_type: return_type_of(node),
                    body: Box::new(body_of(node)),
                },
            ),
        }),
{
    let params = seq![x, y];
    lemma_currying(params, return_type_of(node), body_of(node));
    assert(params.drop_first() =~= seq![y]);
    assert(seq![y].drop_last().len() == 0);
    assert(seq![x].drop_last().len() == 0);
    reveal_with_fuel(closures, 2);
}

/// Currying equivalence: a definition with parameters is bound to what a
/// definition without parameters is bound to whose body is the lambda of these
/// parameters around the same body. So `def f x y = b` and `def f = \x -> \y
/// -> b` are bound to the same closures; where the first has a return type, it
/// stands at the innermost closure.
pub proof fn lemma_definitions_equivalent(with_params: SyntaxNode, with_lambda: SyntaxNode)
    requires
        params_in(with_params).len() >= 1,
        params_in(with_lambda).len() == 0,
        body_of(with_lambda) == curried(
            params_in(with_params),
            return_type_of(with_params),
            body_of(with_params),
        ),
    ensures
        definition_of(with_params).defn == definition_of(with_lambda).defn,
{
}

/// Arrows associate to the right: where the tree of `a -> b -> c` holds the
/// arrow of `b -> c` after the first arrow token, it stands for `a -> (b -> c)`.
pub proof fn lemma_arrow_right_associative(
    outer: SyntaxNode,
    inner: SyntaxNode,
    a: SyntaxNode,
    b: SyntaxNode,
    c: SyntaxNode,
    first_arrow: Token,
    second_arrow: Token,
)
    requires
        is_type_expr_kind(a.kind),
        is_type_expr_kind(b.kind),
        is_type_expr_kind(c.kind),
        first_arrow.kind == SyntaxKind::ARROW,
        second_arrow.kind == SyntaxKind::ARROW,
        inner.kind == SyntaxKind::TYPE_ARROW,
        inner.children@ == seq![
            SyntaxElement::Node(b),
            SyntaxElement::Token(second_arrow),
            SyntaxElement::Node(c),
        ],
        outer.kind == SyntaxKind::TYPE_ARROW,
        outer.children@ == seq![
            SyntaxElement::Node(a),
            SyntaxElement::Token(first_arrow),
            SyntaxElement::Node(inner),
        ],
    ensures
        type_of(outer) == TypeTerm::Arrow(
            Box::new(type_of(a)),
            Box::new(TypeTerm::Arrow(Box::new(type_of(b)), Box::new(type_of(c)))),
        ),
{
    lemma_arrow_parts(outer, a, first_arrow, inner);
    lemma_arrow_parts(inner, b, second_arrow, c);
}

/// An arrow with a type expression before and after its arrow token stands
/// for the arrow from the one to the other.
pub proof fn lemma_arrow_parts(node: SyntaxNode, from: SyntaxNode, arrow: Token, to: SyntaxNode)
    requires
        is_type_expr_kind(from.kind),
        is_type_expr_kind(to.kind),
        arrow.kind == SyntaxKind::ARROW,
        node.kind == SyntaxKind::TYPE_ARROW,
        node.children@ == seq![
            SyntaxElement::Node(from),
            SyntaxElement::Token(arrow),
            SyntaxElement::Node(to),
        ],
    ensures
        type_of(node) == TypeTerm::Arrow(Box::new(type_of(from)), Box::new(type_of(to))),
{
    let children = node.children@;
    reveal_with_fuel(token_index, 3);
    reveal_with_fuel(node_index, 3);
    assert(token_index(children, SyntaxKind::ARROW, 0) == 1);
    assert(node_index(children, NodeClass::TypeExpr, 0) == 0);
    assert(node_index(children, NodeClass::TypeExpr, 2) == 2);
}

/// An application of a function `f` to an argument `a`, both expressions,
/// stands for `f a`.
pub proof fn lemma_app_parts(node: SyntaxNode, func: SyntaxNode, arg: SyntaxNode)
    requires
        is_expr_kind(func.kind) || func.kind == SyntaxKind::APP_EXPR,
        is_expr_kind(arg.kind),
        node.children@ == seq![SyntaxElement::Node(func), SyntaxElement::Node(arg)],
    ensures
        app_of(node) == (Term::App {
            func: Box::new(
                if func.kind == SyntaxKind::APP_EXPR {
                    app_of(func)
                } else {
                    expr_of(func)
                },
            ),
            arg: Box::new(expr_of(arg)),
        }),
{
    let children = node.children@;
    reveal_with_fuel(node_index, 3);
    assert(node_index(children, NodeClass::Any, 0) == 0);
    assert(node_index(children, NodeClass::Expr, 1) == 1);
}

/// Application associates to the left: where the tree of `f a b` holds the
/// application of `f a` as the function of the application to `b`, it stands
/// for `(f a) b`.
pub proof fn lemma_app_left_associative(
    outer: SyntaxNode,
    inner: SyntaxNode,
    f: SyntaxNode,
    a: SyntaxNode,
    b: SyntaxNode,
)
    requires
        is_expr_kind(f.kind),
        is_expr_kind(a.kind),
        is_expr_kind(b.kind),
        inner.kind == SyntaxKind::APP_EXPR,
        inner.children@ == seq![SyntaxElement::Node(f), SyntaxElement::Node(a)],
        outer.children@ == seq![SyntaxElement::Node(inner), SyntaxElement::Node(b)],
    ensures
        app_of(outer) == (Term::App {
            func: Box::new(
                Term::App { func: Box::new(expr_of(f)), arg: Box::new(expr_of(a)) },
            ),
            arg: Box::new(expr_of(b)),
        }),
{
    lemma_app_parts(outer, inner, b);
    lemma_app_parts(inner, f, a);
}

/// Declarations are lowered one by one: the declarations of a sequence of
/// children are those of its first part followed by those of the rest. What
/// stands before a declaration, well formed or not, does not change what the
/// declaration stands for.
pub proof fn lemma_declarations_split(a: Seq<SyntaxElement>, b: Seq<SyntaxElement>)
    ensures
        definitions_upto(a + b, (a + b).len()) == definitions_upto(a, a.len()) + definitions_upto(
            b,
            b.len(),
        ),
        opens_upto(a + b, (a + b).len()) == opens_upto(a, a.len()) + opens_upto(b, b.len()),
        type_definitions_upto(a + b, (a + b).len()) == type_definitions_upto(a, a.len())
            + type_definitions_upto(b, b.len()),
        unsupported_upto(a + b, (a + b).len()) == (unsupported_upto(a, a.len())
            || unsupported_upto(b, b.len())),
    decreases b.len(),
{
    if b.len() == 0 {
        assert(a + b =~= a);
        assert(definitions_upto(a, a.len()) + Seq::<DefinitionTerm>::empty() =~= definitions_upto(
            a,
            a.len(),
        ));
        assert(opens_upto(a, a.len()) + Seq::<Seq<char>>::empty() =~= opens_upto(a, a.len()));
        assert(type_definitions_upto(a, a.len()) + Seq::<TypeDefinitionTerm>::empty()
            =~= type_definitions_upto(a, a.len()));
    } else {
        let whole = a + b;
        let n = whole.len();
        let shorter = b.drop_last();
        lemma_declarations_split(a, shorter);
        lemma_upto_prefix(whole, a + shorter, (n - 1) as nat);
        lemma_upto_prefix(b, shorter, (b.len() - 1) as nat);
        assert(whole[n - 1] == b[b.len() - 1]);
        assert(is_node_of(whole, NodeClass::Kind(SyntaxKind::DEFINITION), n - 1) == is_node_of(
            b,
            NodeClass::Kind(SyntaxKind::DEFINITION),
            b.len() - 1,
        ));
        assert(is_node_of(whole, NodeClass::Kind(SyntaxKind::OPEN), n - 1) == is_node_of(
            b,
            NodeClass::Kind(SyntaxKind::OPEN),
            b.len() - 1,
        ));
        assert(is_node_of(whole, NodeClass::Kind(SyntaxKind::TYPE_DEFINITION), n - 1)
            == is_node_of(b, NodeClass::Kind(SyntaxKind::TYPE_DEFINITION), b.len() - 1));
        assert(definitions_upto(whole, n) =~= definitions_upto(a, a.len()) + definitions_upto(
            b,
            b.len(),
        ));
        assert(opens_upto(whole, n) =~= opens_upto(a, a.len()) + opens_upto(b, b.len()));
        assert(type_definitions_upto(whole, n) =~= type_definitions_upto(a, a.len())
            + type_definitions_upto(b, b.len()));
    }
}

/// The declarations among the first `n` children depend on these children
/// only.
pub proof fn lemma_upto_prefix(whole: Seq<SyntaxElement>, prefix: Seq<SyntaxElement>, n: nat)
    requires
        n <= prefix.len() <= whole.len(),
        forall|i: int| 0 <= i < prefix.len() ==> whole[i] == prefix[i],
    ensures
        definitions_upto(whole, n) == definitions_upto(prefix, n),
        opens_upto(whole, n) == opens_upto(prefix, n),
        type_definitions_upto(whole, n) == type_definitions_upto(prefix, n),
        unsupported_upto(whole, n) == unsupported_upto(prefix, n),
    decreases n,
{
    if n > 0 {
        lemma_upto_prefix(whole, prefix, (n - 1) as nat);
        assert(whole[n - 1] == prefix[n - 1]);
    }
}

/// What is no declaration (a token, an `ERROR` node that recovery left
/// behind) adds nothing to the declarations of a module.
pub proof fn lemma_no_declaration(children: Seq<SyntaxElement>, n: nat)
    requires
        0 < n <= children.len(),
        !is_node_of(children, NodeClass::Item, n - 1),
    ensures
        definitions_upto(children, n) == definitions_upto(children, (n - 1) as nat),
        opens_upto(children, n) == opens_upto(children, (n - 1) as nat),
        type_definitions_upto(children, n) == type_definitions_upto(children, (n - 1) as nat),
        unsupported_upto(children, n) == unsupported_upto(children, (n - 1) as nat),
{
}

/// Parsing is determined by the text: two parses of one text from one start
/// symbol have the same diagnostics, and the walks through their trees take the
/// same steps, so the trees have the same shape, kinds and texts.
pub proof fn lemma_parse_determined(
    text: Seq<char>,
    entry_point: PrefixEntryPoint,
    first: Parse,
    second: Parse,
)
    requires
        parsed(text, entry_point, first),
        parsed(text, entry_point, second),
    ensures
        diagnostics_of(first.errors@) == diagnostics_of(second.errors@),
        first.root.kind == second.root.kind,
        first.root.text() == second.root.text(),
        elements_steps(seq![SyntaxElement::Node(first.root)]) == elements_steps(
            seq![SyntaxElement::Node(second.root)],
        ),
{
}

/// Modules that hold the same, position by position, hold declarations that
/// stand for the same.
pub proof fn lemma_content_terms(first: Module, second: Module)
    requires
        first.content() == second.content(),
    ensures
        first.def_terms() == second.def_terms(),
        first.open_names() == second.open_names(),
        first.type_def_terms() == second.type_def_terms(),
{
    let a = first.store();
    let b = second.store();
    assert(first.defs().len() == first.content().defs.len());
    assert(second.defs().len() == second.content().defs.len());
    assert forall|i: int| 0 <= i < first.defs().len() implies first.def_terms()[i]
        == second.def_terms()[i] by {
        let d = first.defs()[i];
        let e = second.defs()[i];
        assert(d@ == first.content().defs[i]);
        assert(e@ == second.content().defs[i]);
        lemma_layout_params(a, b, d.params@);
        lemma_layout_type(a, b, d.return_type.raw as nat);
        lemma_layout_expr(a, b, d.defn.raw as nat);
    }
    assert(first.def_terms() =~= second.def_terms());
    assert(first.open_names() =~= second.open_names());
    assert forall|i: int| 0 <= i < first.type_defs().len() implies first.type_def_terms()[i]
        == second.type_def_terms()[i] by {
        lemma_layout_type(a, b, first.type_defs()[i].defn.raw as nat);
    }
    assert(first.type_def_terms() =~= second.type_def_terms());
}

/// Lowering is determined by the tree: two modules that held the same,
/// position by position, and have taken the declarations of one tree end
/// alike and hold the same afterwards, position by position: the same
/// expressions, type expressions and names at the same positions, and the same
/// declarations. (`lower_module` gives `first` and `second`.)
pub proof fn lemma_lowering_determined(
    node: SyntaxNode,
    before_first: Module,
    first: Module,
    first_result: Result<(), LowerError>,
    before_second: Module,
    second: Module,
    second_result: Result<(), LowerError>,
)
    requires
        before_first.content() == before_second.content(),
        laid_module(before_first.content(), node) == (first.content(), first_result),
        laid_module(before_second.content(), node) == (second.content(), second_result),
    ensures
        first_result == second_result,
        first.content() == second.content(),
        first.def_terms() == second.def_terms(),
        first.open_names() == second.open_names(),
        first.type_def_terms() == second.type_def_terms(),
{
    lemma_content_terms(first, second);
}

/// The boundary of recovery, of two parses. A text whose first declarations,
/// malformed or not, end where `rest` begins, and `rest` by itself: after these
/// declarations the walk through the tree of the text takes the steps that the
/// walk through the tree of `rest` takes after the trivia at its start, so the
/// declarations that follow are the same nodes with the same tokens. The text
/// has as many diagnostics more than `rest` as its first declarations gave;
/// where `rest` has none, neither has the text after its first declarations.
/// The diagnostics of `rest` stand in the text with the same messages, as many
/// bytes further on as `before` is long; those of the first declarations end
/// inside `before`.
pub proof fn lemma_recovery_of_parses(
    before: Seq<char>,
    rest: Seq<char>,
    count: nat,
    whole: Parse,
    alone: Parse,
)
    requires
        parsed(before + rest, PrefixEntryPoint::Module, whole),
        parsed(rest, PrefixEntryPoint::Module, alone),
        cut_at(before + rest, 0, before.len() as int),
        first_declarations(before + rest, count).left == remaining(view_kinds(lex_spec(rest)), 0),
    ensures
        elements_steps(seq![SyntaxElement::Node(alone.root)]).len() >= lead(rest),
        elements_steps(seq![SyntaxElement::Node(whole.root)]) == after_first(
            before + rest,
            count,
        ).steps + elements_steps(seq![SyntaxElement::Node(alone.root)]).skip(lead(rest) as int),
        whole.errors@.len() == after_first(before + rest, count).errors.len()
            + alone.errors@.len(),
        alone.errors@.len() == 0 ==> diagnostics_of(whole.errors@) == after_first(
            before + rest,
            count,
        ).errors,
        alone.errors@.len() == 0 ==> forall|k: int|
            0 <= k < whole.errors@.len() ==> (#[trigger] diagnostics_of(whole.errors@)[k]).end
                <= byte_len(before),
        forall|k: int|
            0 <= k < alone.errors@.len() ==> diagnostics_of(whole.errors@)[after_first(
                before + rest,
                count,
            ).errors.len() + k].message == (#[trigger] diagnostics_of(alone.errors@)[k]).message
                && moved(
                diagnostics_of(whole.errors@)[after_first(before + rest, count).errors.len() + k],
                diagnostics_of(alone.errors@)[k],
                byte_len(before) as int,
            ),
{
    lemma_recovery_walk(before, rest, count);
    lemma_first_diagnostics(before, rest, count);
    let all = diagnostics_of(whole.errors@);
    if alone.errors@.len() == 0 {
        assert(all.take(all.len() as int) =~= all);
    }
}

/// The boundary of recovery after a malformed declaration. `before` is a
/// text in which no declaration starts and which ends with the first `;` or `}`
/// in it, such as `x y;`; `rest` is any text. Then the tree of `before`
/// followed by `rest` holds, after the `ERROR` node of `before`, the nodes and
/// tokens that the tree of `rest` holds after the trivia at its start, in the
/// same order and nesting. Where `rest` has no diagnostic, every diagnostic of
/// the whole text ends inside `before`; the diagnostics of `rest` stand in the
/// whole text with the same messages, as many bytes further on as `before` is
/// long.
pub proof fn lemma_recovery_after_junk(
    before: Seq<char>,
    rest: Seq<char>,
    whole: Parse,
    alone: Parse,
)
    requires
        junk(before),
        parsed(before + rest, PrefixEntryPoint::Module, whole),
        parsed(rest, PrefixEntryPoint::Module, alone),
    ensures
        elements_steps(seq![SyntaxElement::Node(alone.root)]).len() >= lead(rest),
        elements_steps(seq![SyntaxElement::Node(whole.root)]) == after_first(before + rest, 1).steps
            + elements_steps(seq![SyntaxElement::Node(alone.root)]).skip(lead(rest) as int),
        whole.errors@.len() == after_first(before + rest, 1).errors.len() + alone.errors@.len(),
        alone.errors@.len() == 0 ==> forall|k: int|
            0 <= k < whole.errors@.len() ==> (#[trigger] diagnostics_of(whole.errors@)[k]).end
                <= byte_len(before),
        forall|k: int|
            0 <= k < alone.errors@.len() ==> diagnostics_of(whole.errors@)[after_first(
                before + rest,
                1,
            ).errors.len() + k].message == (#[trigger] diagnostics_of(alone.errors@)[k]).message
                && moved(
                diagnostics_of(whole.errors@)[after_first(before + rest, 1).errors.len() + k],
                diagnostics_of(alone.errors@)[k],
                byte_len(before) as int,
            ),
{
    lemma_junk_skipped(before, rest);
    lemma_recovery_of_parses(before, rest, 1, whole, alone);
}

} // verus!
