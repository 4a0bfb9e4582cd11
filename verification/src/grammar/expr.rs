//! Expressions: lambdas, binary expressions, applications, atoms.

use vstd::prelude::*;
use vstd::string::*;
use crate::event::{ErrorPlacement, EventView};
use crate::grammar::block::block;
use crate::grammar::params::params;
use crate::grammar::rules::{
    app_tail, atom_run, binary_run, binary_tail, bump_left, expr_run, lambda_run, open_of,
    paren_run, ran, ran_node, result_type_run, with_parent,
};
use crate::grammar::type_expr::delimited_type_expr;
use crate::parser::{CompletedMarker, Parser};
use crate::syntax_kind::SyntaxKind;
use crate::token_set::TokenSet;

verus! {

/// Whether an expression can start with a token of kind `k`.
pub open spec fn starts_expr(k: SyntaxKind) -> bool {
    k == SyntaxKind::IDENT || k == SyntaxKind::INT || k == SyntaxKind::L_PAREN || k
        == SyntaxKind::L_BRACE || k == SyntaxKind::BACKSLASH
}

/// Whether `k` is a binary operator.
pub open spec fn is_binary_op(k: SyntaxKind) -> bool {
    k == SyntaxKind::PLUS || k == SyntaxKind::MINUS || k == SyntaxKind::STAR || k
        == SyntaxKind::SLASH
}

/// The kinds an expression starts with.
pub fn expr_start() -> (set: TokenSet)
    ensures
        forall|k: SyntaxKind| #[trigger] set.has(k) <==> starts_expr(k),
{
    TokenSet::empty().with(SyntaxKind::IDENT).with(SyntaxKind::INT).with(SyntaxKind::L_PAREN).with(
        SyntaxKind::L_BRACE,
    ).with(SyntaxKind::BACKSLASH)
}

/// The binary operators.
pub fn binary_ops() -> (set: TokenSet)
    ensures
        forall|k: SyntaxKind| #[trigger] set.has(k) <==> is_binary_op(k),
{
    TokenSet::empty().with(SyntaxKind::PLUS).with(SyntaxKind::MINUS).with(SyntaxKind::STAR).with(
        SyntaxKind::SLASH,
    )
}

/// An expression: a lambda, or operands joined by binary operators. Where no
/// expression starts, the error "Expected expression" is recorded and no token
/// is consumed.
pub fn expr(parser: &mut Parser) -> (node: CompletedMarker)
    requires
        old(parser).wf(),
    ensures
        ran_node(old(parser), final(parser), expr_run(old(parser).kinds(), old(parser).left()), node),
        starts_expr(old(parser).peek()) ==> final(parser).left() < old(parser).left(),
    decreases old(parser).left(), 4nat,
{
    if parser.at(SyntaxKind::BACKSLASH) {
        lambda(parser)
    } else {
        binary(parser)
    }
}

/// A lambda `\params -> body`, as a node `LAMBDA_EXPR`. Between the parameters
/// and the arrow a result type may stand, `: type`; an arrow type there needs
/// parentheses.
pub fn lambda(parser: &mut Parser) -> (node: CompletedMarker)
    requires
        old(parser).wf(),
        old(parser).peek() == SyntaxKind::BACKSLASH,
    ensures
        ran_node(
            old(parser),
            final(parser),
            lambda_run(old(parser).kinds(), old(parser).left()),
            node,
        ),
        final(parser).left() < old(parser).left(),
    decreases old(parser).left(), 1nat,
{
    let ghost run = lambda_run(old(parser).kinds(), old(parser).left());
    let mark = parser.open();
    parser.advance();
    params(parser);
    result_type(parser);
    parser.expect(SyntaxKind::ARROW);
    expr(parser);
    let node = parser.close(mark, SyntaxKind::LAMBDA_EXPR);
    proof {
        assert(parser.trace() =~= old(parser).trace() + run.events);
    }
    node
}

/// The result type of a lambda, `: type`, as a node `TYPE_ANNOTATION`. The
/// type is a delimited type expression. Without a colon nothing is recorded.
pub fn result_type(parser: &mut Parser)
    requires
        old(parser).wf(),
    ensures
        ran(old(parser), final(parser), result_type_run(old(parser).kinds(), old(parser).left())),
{
    let ghost run = result_type_run(old(parser).kinds(), old(parser).left());
    if parser.at(SyntaxKind::COLON) {
        let annotation = parser.open();
        parser.advance();
        delimited_type_expr(parser);
        parser.close(annotation, SyntaxKind::TYPE_ANNOTATION);
        proof {
            assert(parser.trace() =~= old(parser).trace() + run.events);
        }
    } else {
        proof {
            assert(parser.trace() =~= old(parser).trace() + run.events);
        }
    }
}

/// Operands joined by binary operators, grouped to the left: each operator
/// makes a node `BINARY_EXPR` of what stands before it and the operand after it.
pub fn binary(parser: &mut Parser) -> (node: CompletedMarker)
    requires
        old(parser).wf(),
    ensures
        ran_node(
            old(parser),
            final(parser),
            binary_run(old(parser).kinds(), old(parser).left()),
            node,
        ),
        starts_expr(old(parser).peek()) ==> final(parser).left() < old(parser).left(),
    decreases old(parser).left(), 3nat,
{
    let ghost run = binary_run(old(parser).kinds(), old(parser).left());
    let ghost base = old(parser).trace().len() as int;
    let mut lhs = atom(parser);
    let ghost mut seg = atom_run(old(parser).kinds(), old(parser).left()).events;
    let ops = binary_ops();
    while parser.at_any(ops)
        invariant
            parser.stepped(old(parser)),
            forall|k: SyntaxKind| #[trigger] ops.has(k) <==> is_binary_op(k),
            starts_expr(old(parser).peek()) ==> parser.left() < old(parser).left(),
            parser.trace() == old(parser).trace() + seg,
            base == old(parser).trace().len(),
            base <= lhs.pos < base + seg.len(),
            seg[lhs.pos - base] is Open,
            binary_tail(parser.kinds(), seg, lhs.pos - base, parser.left()) == run,
        decreases parser.left(),
    {
        let ghost before = *parser;
        let ghost node = lhs.pos - base;
        let ghost operand = atom_run(
            before.kinds(),
            bump_left(before.kinds(), before.left()),
        );
        let ghost next = with_parent(seg, node, seg.len() as int) + seq![
            open_of(SyntaxKind::BINARY_EXPR),
            EventView::Advance,
        ] + operand.events + seq![EventView::Close];
        let mark = parser.open_before(lhs);
        parser.advance();
        atom(parser);
        lhs = parser.close(mark, SyntaxKind::BINARY_EXPR);
        proof {
            assert(parser.trace() =~= old(parser).trace() + next);
            seg = next;
        }
    }
    lhs
}

/// An operand: an identifier (`IDENT_EXPR`), an integer (`LITERAL_EXPR`), an
/// expression in parentheses, a block or a lambda. Anything else is the error
/// "Expected expression", and no token is consumed.
pub fn atom(parser: &mut Parser) -> (node: CompletedMarker)
    requires
        old(parser).wf(),
    ensures
        ran_node(old(parser), final(parser), atom_run(old(parser).kinds(), old(parser).left()), node),
        starts_expr(old(parser).peek()) ==> final(parser).left() < old(parser).left(),
    decreases old(parser).left(), 2nat,
{
    let ghost run = atom_run(old(parser).kinds(), old(parser).left());
    if parser.at(SyntaxKind::IDENT) {
        let mark = parser.open();
        parser.advance();
        let node = parser.close(mark, SyntaxKind::IDENT_EXPR);
        proof {
            assert(parser.trace() =~= old(parser).trace() + run.events);
        }
        node
    } else if parser.at(SyntaxKind::INT) {
        let mark = parser.open();
        parser.advance();
        let node = parser.close(mark, SyntaxKind::LITERAL_EXPR);
        proof {
            assert(parser.trace() =~= old(parser).trace() + run.events);
        }
        node
    } else if parser.at(SyntaxKind::L_PAREN) {
        paren(parser)
    } else if parser.at(SyntaxKind::L_BRACE) {
        block(parser)
    } else if parser.at(SyntaxKind::BACKSLASH) {
        lambda(parser)
    } else {
        parser.error(String::from_str("Expected expression"), ErrorPlacement::PrevTokenEnd)
    }
}

/// What stands in parentheses, as a node `PAREN_EXPR`: nothing (the unit
/// value), one expression, or a function followed by its arguments. Application
/// groups to the left: in `(f a b)` the node `APP_EXPR` of `f a` is the function
/// of the node `APP_EXPR` with the argument `b`.
pub fn paren(parser: &mut Parser) -> (node: CompletedMarker)
    requires
        old(parser).wf(),
        old(parser).peek() == SyntaxKind::L_PAREN,
    ensures
        ran_node(
            old(parser),
            final(parser),
            paren_run(old(parser).kinds(), old(parser).left()),
            node,
        ),
        final(parser).left() < old(parser).left(),
    decreases old(parser).left(), 1nat,
{
    let ghost run = paren_run(old(parser).kinds(), old(parser).left());
    let mark = parser.open();
    parser.advance();
    arguments(parser);
    parser.expect(SyntaxKind::R_PAREN);
    let node = parser.close(mark, SyntaxKind::PAREN_EXPR);
    proof {
        assert(parser.trace() =~= old(parser).trace() + run.events);
    }
    node
}

/// What stands between parentheses: nothing where no expression starts; else
/// an expression, and each expression after it as its argument.
pub fn arguments(parser: &mut Parser)
    requires
        old(parser).wf(),
    ensures
        ran(
            old(parser),
            final(parser),
            crate::grammar::rules::arguments_run(old(parser).kinds(), old(parser).left()),
        ),
    decreases old(parser).left(), 5nat,
{
    let ghost run = crate::grammar::rules::arguments_run(old(parser).kinds(), old(parser).left());
    let ghost base = old(parser).trace().len() as int;
    let start = expr_start();
    if parser.at_any(start) {
        let mut lhs = expr(parser);
        let ghost mut seg = expr_run(old(parser).kinds(), old(parser).left()).events;
        while parser.at_any(start)
            invariant
                parser.stepped(old(parser)),
                forall|k: SyntaxKind| #[trigger] start.has(k) <==> starts_expr(k),
                parser.left() < old(parser).left(),
                parser.trace() == old(parser).trace() + seg,
                base == old(parser).trace().len(),
                base <= lhs.pos < base + seg.len(),
                seg[lhs.pos - base] is Open,
                app_tail(parser.kinds(), seg, lhs.pos - base, parser.left()) == run,
            decreases parser.left(),
        {
            let ghost before = *parser;
            let ghost node = lhs.pos - base;
            let ghost arg = atom_run(before.kinds(), before.left());
            let ghost next = with_parent(seg, node, seg.len() as int) + seq![
                open_of(SyntaxKind::APP_EXPR),
            ] + arg.events + seq![EventView::Close];
            let app = parser.open_before(lhs);
            atom(parser);
            lhs = parser.close(app, SyntaxKind::APP_EXPR);
            proof {
                assert(parser.trace() =~= old(parser).trace() + next);
                seg = next;
            }
        }
    } else {
        proof {
            assert(parser.trace() =~= old(parser).trace() + run.events);
        }
    }
}

} // verus!
