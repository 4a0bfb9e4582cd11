//! Type expressions and type annotations.

use vstd::prelude::*;
use vstd::string::*;
use crate::event::ErrorPlacement;
use crate::grammar::rules::{annotation_run, delimited_type_run, ran, ran_node, type_run};
use crate::parser::{CompletedMarker, Parser};
use crate::syntax_kind::SyntaxKind;

verus! {

/// A type expression that needs no lookahead past its own end: an identifier
/// (`TYPE_IDENT`), or a type expression in parentheses (`TYPE_PAREN`). Anything
/// else is the error "Expected type expression", and no token is consumed.
pub fn delimited_type_expr(parser: &mut Parser) -> (node: CompletedMarker)
    requires
        old(parser).wf(),
    ensures
        ran_node(
            old(parser),
            final(parser),
            delimited_type_run(old(parser).kinds(), old(parser).left()),
            node,
        ),
        old(parser).peek() == SyntaxKind::IDENT || old(parser).peek() == SyntaxKind::L_PAREN
            ==> final(parser).left() < old(parser).left(),
    decreases old(parser).left(), 0nat,
{
    let ghost run = delimited_type_run(old(parser).kinds(), old(parser).left());
    if parser.at(SyntaxKind::IDENT) {
        let mark = parser.open();
        parser.advance();
        let node = parser.close(mark, SyntaxKind::TYPE_IDENT);
        proof {
            assert(parser.trace() =~= old(parser).trace() + run.events);
        }
        node
    } else if parser.at(SyntaxKind::L_PAREN) {
        let mark = parser.open();
        parser.advance();
        type_expr(parser);
        parser.expect(SyntaxKind::R_PAREN);
        let node = parser.close(mark, SyntaxKind::TYPE_PAREN);
        proof {
            assert(parser.trace() =~= old(parser).trace() + run.events);
        }
        node
    } else {
        parser.error(String::from_str("Expected type expression"), ErrorPlacement::PrevTokenEnd)
    }
}

/// A type expression. `->` is right-associative: in `a -> b -> c` the node
/// `TYPE_ARROW` of `a` holds the node `TYPE_ARROW` of `b -> c`.
pub fn type_expr(parser: &mut Parser) -> (node: CompletedMarker)
    requires
        old(parser).wf(),
    ensures
        ran_node(old(parser), final(parser), type_run(old(parser).kinds(), old(parser).left()), node),
        old(parser).peek() == SyntaxKind::IDENT || old(parser).peek() == SyntaxKind::L_PAREN
            || old(parser).peek() == SyntaxKind::ARROW ==> final(parser).left() < old(
            parser,
        ).left(),
    decreases old(parser).left(), 1nat,
{
    let ghost run = type_run(old(parser).kinds(), old(parser).left());
    let lhs_mark = delimited_type_expr(parser);
    if parser.eat(SyntaxKind::ARROW) {
        let marker = parser.open_before(lhs_mark);
        type_expr(parser);
        let node = parser.close(marker, SyntaxKind::TYPE_ARROW);
        proof {
            assert(parser.trace() =~= old(parser).trace() + run.events);
        }
        node
    } else {
        lhs_mark
    }
}

/// An optional annotation `: type`, as a node `TYPE_ANNOTATION`. Without a
/// colon nothing is recorded.
pub fn type_annotation(parser: &mut Parser) -> (node: Option<CompletedMarker>)
    requires
        old(parser).wf(),
    ensures
        ran(old(parser), final(parser), annotation_run(old(parser).kinds(), old(parser).left())),
        node is Some <==> old(parser).peek() == SyntaxKind::COLON,
        node matches Some(n) ==> n.pos == old(parser).trace().len(),
{
    let ghost run = annotation_run(old(parser).kinds(), old(parser).left());
    if parser.at(SyntaxKind::COLON) {
        let marker = parser.open();
        parser.advance();
        type_expr(parser);
        let node = parser.close(marker, SyntaxKind::TYPE_ANNOTATION);
        proof {
            assert(parser.trace() =~= old(parser).trace() + run.events);
        }
        Some(node)
    } else {
        proof {
            assert(parser.trace() =~= old(parser).trace() + run.events);
        }
        None
    }
}

} // verus!
