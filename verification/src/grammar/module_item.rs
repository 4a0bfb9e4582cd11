//! The declarations of a module, and recovery between them.

use vstd::prelude::*;
use vstd::string::*;
use crate::event::EventView;
use crate::grammar::block::block;
use crate::grammar::expr::{expr, expr_start};
use crate::grammar::params::params;
use crate::grammar::rules::{
    def_body_run, def_run, item_stop, module_item_run, open_run, ran, type_definition_run,
};
use crate::grammar::type_expr::{type_annotation, type_expr};
use crate::parser::Parser;
use crate::source::skip_trivia;
use crate::syntax_kind::SyntaxKind;
use crate::token_set::TokenSet;

verus! {

/// Whether a declaration starts with a token of kind `k`.
pub open spec fn starts_item(k: SyntaxKind) -> bool {
    k == SyntaxKind::DEF_KW || k == SyntaxKind::TYPE_KW || k == SyntaxKind::OPEN_KW
}

/// Whether a token of kind `k` can end a declaration.
pub open spec fn ends_item(k: SyntaxKind) -> bool {
    k == SyntaxKind::SEMICOLON || k == SyntaxKind::R_BRACE
}

/// Where recovery stops: at the start or at the end of a declaration.
pub open spec fn module_item_stop(k: SyntaxKind) -> bool {
    starts_item(k) || ends_item(k)
}

/// The keywords that start a declaration.
pub fn module_item_start() -> (set: TokenSet)
    ensures
        forall|k: SyntaxKind| #[trigger] set.has(k) <==> starts_item(k),
{
    TokenSet::empty().with(SyntaxKind::DEF_KW).with(SyntaxKind::TYPE_KW).with(SyntaxKind::OPEN_KW)
}

/// The tokens at which recovery from a malformed declaration stops.
pub fn module_item_end() -> (set: TokenSet)
    ensures
        forall|k: SyntaxKind| #[trigger] set.has(k) <==> ends_item(k),
{
    TokenSet::empty().with(SyntaxKind::SEMICOLON).with(SyntaxKind::R_BRACE)
}

/// The boundary of recovery. Where no declaration starts, the tokens that are
/// skipped lie before the next keyword of a declaration: none of them is such a
/// keyword, and only the last of them can be a `;` or a `}`. So a declaration
/// that follows is parsed from its keyword on.
pub open spec fn recovered(before: &Parser, after: &Parser) -> bool {
    &&& before.pos() <= after.pos() <= after.kinds().len()
    &&& forall|j: int|
        before.pos() <= j < after.pos() ==> (#[trigger] after.kinds()[j]).spec_is_trivia()
            || !starts_item(after.kinds()[j])
    &&& forall|j: int|
        before.pos() <= j < after.pos() - 1 ==> (#[trigger] after.kinds()[j]).spec_is_trivia()
            || !ends_item(after.kinds()[j])
}

/// One declaration of a module: a definition, a type definition or an `open`.
///
/// Where none of them starts, the tokens up to the next start or end of a
/// declaration are skipped into an `ERROR` node with the error "Expected
/// declaration", and a `;` or `}` that ends the skipped part is consumed too:
/// what follows is parsed as if nothing had gone wrong. Unless the input is at
/// its end, at least one token is consumed.
pub fn module_item(parser: &mut Parser)
    requires
        old(parser).wf(),
    ensures
        ran(old(parser), final(parser), module_item_run(old(parser).kinds(), old(parser).left())),
        old(parser).peek() != SyntaxKind::EOF ==> final(parser).left() < old(parser).left(),
        !starts_item(old(parser).peek()) ==> recovered(old(parser), final(parser)),
{
    let ghost run = module_item_run(old(parser).kinds(), old(parser).left());
    if parser.at(SyntaxKind::DEF_KW) {
        def(parser);
    } else if parser.at(SyntaxKind::TYPE_KW) {
        type_definition(parser);
    } else if parser.at(SyntaxKind::OPEN_KW) {
        open(parser);
    } else {
        let end = module_item_end();
        let stop = module_item_start().union(end);
        let ghost looked = *parser;
        proof {
            old(parser).lemma_cursor();
            assert(stop.kinds() =~= item_stop());
        }
        parser.eat_error_until(stop, String::from_str("Expected declaration"));
        let ghost skipped = *parser;
        if parser.at_any(end) {
            parser.eat_any(end);
        }
        proof {
            skipped.lemma_cursor();
            let kinds = parser.kinds();
            let next = skip_trivia(kinds, skipped.pos());
            assert forall|j: int| old(parser).pos() <= j < parser.pos() implies (
            #[trigger] kinds[j]).spec_is_trivia() || !starts_item(kinds[j]) by {
                if j < looked.pos() {
                } else if j < skipped.pos() {
                    assert(kinds[j].spec_is_trivia() || !stop.has(kinds[j]));
                } else if j < next {
                }
            }
            assert forall|j: int| old(parser).pos() <= j < parser.pos() - 1 implies (
            #[trigger] kinds[j]).spec_is_trivia() || !ends_item(kinds[j]) by {
                if j < looked.pos() {
                } else if j < skipped.pos() {
                    assert(kinds[j].spec_is_trivia() || !stop.has(kinds[j]));
                } else if j < next {
                }
            }
            assert(parser.trace() =~= old(parser).trace() + run.events);
        }
    }
}

/// `open name;`, as a node `OPEN`.
pub fn open(parser: &mut Parser)
    requires
        old(parser).wf(),
        old(parser).peek() == SyntaxKind::OPEN_KW,
    ensures
        ran(old(parser), final(parser), open_run(old(parser).kinds(), old(parser).left())),
        final(parser).left() < old(parser).left(),
{
    let ghost run = open_run(old(parser).kinds(), old(parser).left());
    let mark = parser.open();
    parser.expect(SyntaxKind::OPEN_KW);
    parser.expect(SyntaxKind::IDENT);
    parser.expect(SyntaxKind::SEMICOLON);
    parser.close(mark, SyntaxKind::OPEN);
    proof {
        assert(parser.trace() =~= old(parser).trace() + run.events);
    }
}

/// `type name = type;`, as a node `TYPE_DEFINITION`.
pub fn type_definition(parser: &mut Parser)
    requires
        old(parser).wf(),
        old(parser).peek() == SyntaxKind::TYPE_KW,
    ensures
        ran(
            old(parser),
            final(parser),
            type_definition_run(old(parser).kinds(), old(parser).left()),
        ),
        final(parser).left() < old(parser).left(),
{
    let ghost run = type_definition_run(old(parser).kinds(), old(parser).left());
    let mark = parser.open();
    parser.expect(SyntaxKind::TYPE_KW);
    parser.expect(SyntaxKind::IDENT);
    parser.expect(SyntaxKind::EQUAL);
    type_expr(parser);
    parser.expect(SyntaxKind::SEMICOLON);
    parser.close(mark, SyntaxKind::TYPE_DEFINITION);
    proof {
        assert(parser.trace() =~= old(parser).trace() + run.events);
    }
}

/// `def name params : type = body;` or `def name params : type { .. }`, as a
/// node `DEFINITION`. The parameters are always there as a node `PARAMS`, the
/// body as a node `DEF_BODY`; either may be empty. The annotation is optional.
pub fn def(parser: &mut Parser)
    requires
        old(parser).wf(),
        old(parser).peek() == SyntaxKind::DEF_KW,
    ensures
        ran(old(parser), final(parser), def_run(old(parser).kinds(), old(parser).left())),
        final(parser).left() < old(parser).left(),
{
    let ghost run = def_run(old(parser).kinds(), old(parser).left());
    let mark = parser.open();
    parser.expect(SyntaxKind::DEF_KW);
    parser.expect(SyntaxKind::IDENT);
    params(parser);
    type_annotation(parser);
    def_body(parser);
    parser.close(mark, SyntaxKind::DEFINITION);
    proof {
        assert(parser.trace() =~= old(parser).trace() + run.events);
    }
}

/// The body of a definition, as a node `DEF_BODY`: `= expression ;`, or a
/// block; the node is empty where neither starts. Where no expression starts
/// after the `=`, the only error is "Expected expression": the `;` is consumed
/// if it is there, and a missing `;` is no second error.
pub fn def_body(parser: &mut Parser)
    requires
        old(parser).wf(),
    ensures
        ran(old(parser), final(parser), def_body_run(old(parser).kinds(), old(parser).left())),
{
    let ghost run = def_body_run(old(parser).kinds(), old(parser).left());
    let body = parser.open();
    if parser.eat(SyntaxKind::EQUAL) {
        let started = parser.at_any(expr_start());
        let ghost start = *parser;
        expr(parser);
        let ghost value = *parser;
        if started {
            parser.expect(SyntaxKind::SEMICOLON);
        } else {
            let eaten = parser.eat(SyntaxKind::SEMICOLON);
            proof {
                if eaten {
                    assert(value.trace().push(EventView::Advance) =~= value.trace() + seq![
                        EventView::Advance,
                    ]);
                } else {
                    assert(value.trace() =~= value.trace() + Seq::<EventView>::empty());
                }
            }
        }
    } else if parser.at(SyntaxKind::L_BRACE) {
        block(parser);
    }
    parser.close(body, SyntaxKind::DEF_BODY);
    proof {
        assert(parser.trace() =~= old(parser).trace() + run.events);
    }
}

} // verus!
