//! Parameters of definitions, lambdas and let-bindings.

use vstd::prelude::*;
use crate::event::EventView;
use crate::grammar::rules::{param_items, param_run, params_run, ran_node, starts_param};
use crate::grammar::type_expr::type_expr;
use crate::parser::{CompletedMarker, Parser};
use crate::syntax_kind::SyntaxKind;
use crate::token_set::TokenSet;

verus! {

/// The kinds a parameter starts with: an identifier or an opening parenthesis.
pub fn param_start() -> (set: TokenSet)
    ensures
        forall|k: SyntaxKind| #[trigger] set.has(k) <==> starts_param(k),
{
    TokenSet::empty().with(SyntaxKind::IDENT).with(SyntaxKind::L_PAREN)
}

/// The parameters of a definition, a `let` or a lambda, as one node `PARAMS`
/// with a node `PARAM` for each. The node is there even without parameters.
pub fn params(parser: &mut Parser) -> (node: CompletedMarker)
    requires
        old(parser).wf(),
    ensures
        ran_node(
            old(parser),
            final(parser),
            params_run(old(parser).kinds(), old(parser).left()),
            node,
        ),
        !starts_param(final(parser).peek()),
        starts_param(old(parser).peek()) ==> final(parser).left() < old(parser).left(),
{
    let ghost items = param_items(old(parser).kinds(), old(parser).left());
    let mark = parser.open();
    let start = param_start();
    let ghost opened = *parser;
    while parser.at_any(start)
        invariant
            parser.stepped(&opened),
            forall|k: SyntaxKind| #[trigger] start.has(k) <==> starts_param(k),
            opened.trace() == old(parser).trace().push(EventView::Unmatched),
            opened.left() == old(parser).left(),
            opened.kinds() == old(parser).kinds(),
            mark.index() == old(parser).trace().len(),
            starts_param(old(parser).peek()) ==> (parser.peek() == old(parser).peek()
                && parser.left() == old(parser).left()) || parser.left() < old(parser).left(),
            parser.trace() + param_items(parser.kinds(), parser.left()).events == opened.trace()
                + items.events,
            param_items(parser.kinds(), parser.left()).left == items.left,
        decreases parser.left(),
    {
        let ghost before = *parser;
        param(parser);
        proof {
            let first = param_run(before.kinds(), before.left());
            let rest = param_items(parser.kinds(), parser.left());
            assert(before.trace() + (first.events + rest.events) =~= before.trace() + first.events
                + rest.events);
        }
    }
    let ghost looped = *parser;
    proof {
        assert(looped.trace() + Seq::<EventView>::empty() =~= looped.trace());
    }
    let node = parser.close(mark, SyntaxKind::PARAMS);
    proof {
        assert(parser.trace() =~= old(parser).trace() + params_run(
            old(parser).kinds(),
            old(parser).left(),
        ).events);
    }
    node
}

/// One parameter, as a node `PARAM`: a name, or `(name: type)` with the type
/// in a node `TYPE_ANNOTATION`.
pub fn param(parser: &mut Parser) -> (node: CompletedMarker)
    requires
        old(parser).wf(),
        starts_param(old(parser).peek()),
    ensures
        ran_node(old(parser), final(parser), param_run(old(parser).kinds(), old(parser).left()), node),
        final(parser).left() < old(parser).left(),
{
    let ghost run = param_run(old(parser).kinds(), old(parser).left());
    let mark = parser.open();
    if parser.eat(SyntaxKind::IDENT) {
    } else if parser.eat(SyntaxKind::L_PAREN) {
        parser.expect(SyntaxKind::IDENT);
        let mark = parser.open();
        parser.expect(SyntaxKind::COLON);
        type_expr(parser);
        parser.close(mark, SyntaxKind::TYPE_ANNOTATION);
        parser.expect(SyntaxKind::R_PAREN);
    }
    let node = parser.close(mark, SyntaxKind::PARAM);
    proof {
        assert(parser.trace() =~= old(parser).trace() + run.events);
    }
    node
}

} // verus!
