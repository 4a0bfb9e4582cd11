//! Blocks and their statements.

use vstd::prelude::*;
use crate::event::EventView;
use crate::grammar::expr::{expr, expr_start};
use crate::grammar::params::params;
use crate::grammar::rules::{
    block_item, block_items, block_run, let_run, let_value_run, ran, ran_node,
};
use crate::grammar::type_expr::type_annotation;
use crate::parser::{CompletedMarker, Parser};
use crate::syntax_kind::SyntaxKind;

verus! {

/// A block `{ statements tail }`, as a node `BLOCK_EXPR`. A statement is a
/// `let` (`LET_STMT`) or an expression followed by a semicolon (`EXPR_STMT`);
/// an expression right before the closing brace is the tail of the block and
/// stands in the block as it is. A token that starts neither is reported and
/// skipped.
pub fn block(parser: &mut Parser) -> (node: CompletedMarker)
    requires
        old(parser).wf(),
        old(parser).peek() == SyntaxKind::L_BRACE,
    ensures
        ran_node(
            old(parser),
            final(parser),
            block_run(old(parser).kinds(), old(parser).left()),
            node,
        ),
        node.pos == old(parser).trace().len(),
        final(parser).left() < old(parser).left(),
    decreases old(parser).left(), 1nat,
{
    let ghost run = block_run(old(parser).kinds(), old(parser).left());
    let mark = parser.open();
    parser.advance();
    let ghost opened = *parser;
    let ghost items = block_items(opened.kinds(), opened.left());
    while !parser.at(SyntaxKind::R_BRACE) && !parser.at(SyntaxKind::EOF)
        invariant
            parser.stepped(&opened),
            opened.kinds() == old(parser).kinds(),
            opened.left() < old(parser).left(),
            opened.trace() == old(parser).trace().push(EventView::Unmatched).push(
                EventView::Advance,
            ),
            mark.index() == old(parser).trace().len(),
            parser.trace() + block_items(parser.kinds(), parser.left()).events == opened.trace()
                + items.events,
            block_items(parser.kinds(), parser.left()).left == items.left,
        decreases parser.left(),
    {
        let ghost before = *parser;
        statement(parser);
        proof {
            let first = block_item(before.kinds(), before.left());
            let rest = block_items(parser.kinds(), parser.left());
            assert(before.trace() + (first.events + rest.events) =~= before.trace() + first.events
                + rest.events);
        }
    }
    let ghost looped = *parser;
    proof {
        assert(looped.trace() + Seq::<EventView>::empty() =~= looped.trace());
    }
    parser.expect(SyntaxKind::R_BRACE);
    let node = parser.close(mark, SyntaxKind::BLOCK_EXPR);
    proof {
        assert(parser.trace() =~= old(parser).trace() + run.events);
    }
    node
}

/// One turn of the loop of a block, before the closing brace and the end of
/// the input: a `let`; or an expression, which is a statement `EXPR_STMT`
/// unless the block ends after it; or a token that starts neither, which is
/// reported and skipped.
pub fn statement(parser: &mut Parser)
    requires
        old(parser).wf(),
        old(parser).peek() != SyntaxKind::R_BRACE,
        old(parser).peek() != SyntaxKind::EOF,
    ensures
        ran(old(parser), final(parser), block_item(old(parser).kinds(), old(parser).left())),
        final(parser).left() < old(parser).left(),
    decreases old(parser).left(), 5nat,
{
    let ghost run = block_item(old(parser).kinds(), old(parser).left());
    let start = expr_start();
    if parser.at(SyntaxKind::LET_KW) {
        let_stmt(parser);
    } else if parser.at_any(start) {
        let value = expr(parser);
        if !parser.at(SyntaxKind::R_BRACE) && !parser.at(SyntaxKind::EOF) {
            let stmt = parser.open_before(value);
            parser.expect(SyntaxKind::SEMICOLON);
            parser.close(stmt, SyntaxKind::EXPR_STMT);
            proof {
                assert(parser.trace() =~= old(parser).trace() + run.events);
            }
        }
    } else {
        parser.unexpected();
    }
}

/// A statement `let name params : type = value;`, as a node `LET_STMT`. The
/// annotation and the value may be missing.
pub fn let_stmt(parser: &mut Parser) -> (node: CompletedMarker)
    requires
        old(parser).wf(),
        old(parser).peek() == SyntaxKind::LET_KW,
    ensures
        ran_node(old(parser), final(parser), let_run(old(parser).kinds(), old(parser).left()), node),
        node.pos == old(parser).trace().len(),
        final(parser).left() < old(parser).left(),
    decreases old(parser).left(), 1nat,
{
    let ghost run = let_run(old(parser).kinds(), old(parser).left());
    let mark = parser.open();
    parser.advance();
    parser.expect(SyntaxKind::IDENT);
    params(parser);
    type_annotation(parser);
    let_value(parser);
    parser.expect(SyntaxKind::SEMICOLON);
    let node = parser.close(mark, SyntaxKind::LET_STMT);
    proof {
        assert(parser.trace() =~= old(parser).trace() + run.events);
    }
    node
}

/// The value of a `let`: `= expression`. Without `=` nothing is recorded.
pub fn let_value(parser: &mut Parser)
    requires
        old(parser).wf(),
    ensures
        ran(old(parser), final(parser), let_value_run(old(parser).kinds(), old(parser).left())),
    decreases old(parser).left(), 0nat,
{
    let ghost run = let_value_run(old(parser).kinds(), old(parser).left());
    if parser.eat(SyntaxKind::EQUAL) {
        expr(parser);
        proof {
            assert(parser.trace() =~= old(parser).trace() + run.events);
        }
    } else {
        proof {
            assert(parser.trace() =~= old(parser).trace() + run.events);
        }
    }
}

} // verus!
