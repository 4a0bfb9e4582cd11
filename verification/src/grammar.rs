//! The grammar, as recursive descent over the parser: each rule writes exactly
//! the events that its function in `rules` gives.

use vstd::prelude::*;
use vstd::string::*;
use crate::event::{Event, EventView, views};
use crate::grammar::expr::expr;
use crate::grammar::module_item::module_item;
use crate::grammar::rules::{
    expr_run, module_item_run, module_items, module_run, ran, rest_run, Run, type_run,
};
use crate::grammar::type_expr::type_expr;
use crate::parser::{CompletedMarker, Parser};
use crate::syntax_kind::SyntaxKind;
use crate::token_set::TokenSet;

pub mod type_expr;
pub mod params;
pub mod expr;
pub mod block;
pub mod module_item;
pub mod rules;
pub mod tidy;
pub mod frame;
pub mod anchor;

verus! {

/// The start symbol to parse with.
#[derive(Clone, Copy, Debug, PartialEq, Eq, Structural)]
pub enum PrefixEntryPoint {
    /// A whole file: declarations up to the end of the input.
    Module,
    /// One type expression.
    TypeExpr,
    /// One expression.
    Expr,
}

/// A whole file, as a node `MODULE`: declarations up to the end of the input.
pub fn module(parser: &mut Parser)
    requires
        old(parser).wf(),
    ensures
        ran(old(parser), final(parser), module_run(old(parser).kinds(), old(parser).left())),
        final(parser).peek() == SyntaxKind::EOF,
{
    let ghost items = module_items(old(parser).kinds(), old(parser).left());
    let mark = parser.open();
    let ghost opened = *parser;
    while !parser.at(SyntaxKind::EOF)
        invariant
            parser.stepped(&opened),
            opened.kinds() == old(parser).kinds(),
            opened.left() == old(parser).left(),
            opened.trace() == old(parser).trace().push(EventView::Unmatched),
            mark.index() == old(parser).trace().len(),
            parser.trace() + module_items(parser.kinds(), parser.left()).events == opened.trace()
                + items.events,
            module_items(parser.kinds(), parser.left()).left == items.left,
        decreases parser.left(),
    {
        let ghost before = *parser;
        module_item(parser);
        proof {
            let first = module_item_run(before.kinds(), before.left());
            let rest = module_items(parser.kinds(), parser.left());
            assert(before.trace() + (first.events + rest.events) =~= before.trace() + first.events
                + rest.events);
        }
    }
    let ghost looped = *parser;
    proof {
        assert(looped.trace() + Seq::<EventView>::empty() =~= looped.trace());
    }
    parser.close(mark, SyntaxKind::MODULE);
    proof {
        assert(parser.trace() =~= old(parser).trace() + module_run(
            old(parser).kinds(),
            old(parser).left(),
        ).events);
    }
}

/// What is left of the input after the one node of a start symbol other than
/// `Module` goes into an `ERROR` node with the error "Expected end of input", and
/// that node and the one before it get a common parent of kind `ERROR`.
fn rest(parser: &mut Parser, node: CompletedMarker, Ghost(first): Ghost<Run>)
    requires
        old(parser).wf(),
        old(parser).trace() == first.events,
        old(parser).left() == first.left,
        node.pos == first.node,
        0 <= first.node < first.events.len(),
        first.events[first.node] is Open,
    ensures
        final(parser).wf(),
        final(parser).kinds() == old(parser).kinds(),
        final(parser).trace() == rest_run(old(parser).kinds(), first).events,
        final(parser).peek() == SyntaxKind::EOF,
{
    if !parser.at(SyntaxKind::EOF) {
        let root = parser.open_before(node);
        let stop = TokenSet::empty();
        parser.eat_error_until(stop, String::from_str("Expected end of input"));
        parser.close(root, SyntaxKind::ERROR);
        proof {
            assert(stop.kinds() =~= Set::<SyntaxKind>::empty());
            assert(parser.trace() =~= rest_run(old(parser).kinds(), first).events);
        }
    }
}

/// All events of parsing from a start symbol, when `left` tokens are left
/// from the first significant one on.
pub open spec fn parse_run(kinds: Seq<SyntaxKind>, left: nat, entry_point: PrefixEntryPoint) -> Seq<
    EventView,
> {
    match entry_point {
        PrefixEntryPoint::Module => module_run(kinds, left).events,
        PrefixEntryPoint::TypeExpr => rest_run(kinds, type_run(kinds, left)).events,
        PrefixEntryPoint::Expr => rest_run(kinds, expr_run(kinds, left)).events,
    }
}

/// Parses the input of `parser` from the start symbol `entry_point` and
/// returns the events: those that the rules of the grammar give for the
/// tokens of the input.
pub fn parse(parser: Parser, entry_point: PrefixEntryPoint) -> (events: Vec<Event>)
    requires
        parser.wf(),
        parser.events().len() == 0,
    ensures
        views(events@) == parse_run(parser.kinds(), parser.left(), entry_point),
{
    let ghost kinds = parser.kinds();
    let ghost left = parser.left();
    let mut parser = parser;
    proof {
        assert(parser.trace() =~= Seq::<EventView>::empty());
    }
    match entry_point {
        PrefixEntryPoint::Module => {
            module(&mut parser);
            proof {
                assert(Seq::<EventView>::empty() + module_run(kinds, left).events =~= module_run(
                    kinds,
                    left,
                ).events);
            }
        },
        PrefixEntryPoint::TypeExpr => {
            let node = type_expr(&mut parser);
            proof {
                assert(Seq::<EventView>::empty() + type_run(kinds, left).events =~= type_run(
                    kinds,
                    left,
                ).events);
            }
            rest(&mut parser, node, Ghost(type_run(kinds, left)));
        },
        PrefixEntryPoint::Expr => {
            let node = expr(&mut parser);
            proof {
                assert(Seq::<EventView>::empty() + expr_run(kinds, left).events =~= expr_run(
                    kinds,
                    left,
                ).events);
            }
            rest(&mut parser, node, Ghost(expr_run(kinds, left)));
        },
    }
    parser.finish()
}

} // verus!
