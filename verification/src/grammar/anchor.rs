//! Where a diagnostic is placed on the next token, the rule that records it
//! consumes that token: an `Advance` follows among the events of the rule.

use vstd::prelude::*;
use crate::event::{ErrorPlacement, EventView};
use crate::grammar::expr::{is_binary_op, starts_expr};
use crate::grammar::module_item::ends_item;
use crate::grammar::rules::{
    annotation_run, app_tail, arguments_run, atom_run, binary_run, binary_tail, block_item,
    block_items, block_run, bump_left, def_body_run, def_end_run, def_run, delimited_type_run,
    eat_run, expect_run, expr_run, item_stop, lambda_run, lemma_bump_left, let_run, let_value_run,
    module_item_run, node_run, open_of, open_run, param_items, param_run, params_run, paren_run,
    peek_at, recover_run, result_type_run, skip_run, starts_param, type_definition_run, type_run,
    unexpected_run, with_parent, within,
};
use crate::syntax_kind::SyntaxKind;

verus! {

/// Whether the event is a diagnostic that is placed on the next token.
pub open spec fn on_next(e: EventView) -> bool {
    e matches EventView::Error { location: ErrorPlacement::NextToken, .. }
}

/// Whether an `Advance` stands among the events after the place `i`.
pub open spec fn advance_after(events: Seq<EventView>, i: int) -> bool {
    exists|j: int| i < j < events.len() && events[j] is Advance
}

/// Every diagnostic that is placed on the next token is followed by an
/// `Advance`.
pub open spec fn anchored(events: Seq<EventView>) -> bool {
    forall|i: int| 0 <= i < events.len() && on_next(#[trigger] events[i]) ==> advance_after(events, i)
}

pub proof fn lemma_anchored_concat(a: Seq<EventView>, b: Seq<EventView>)
    requires
        anchored(a),
        anchored(b),
    ensures
        anchored(a + b),
{
    let all = a + b;
    assert forall|i: int| 0 <= i < all.len() && on_next(#[trigger] all[i]) implies advance_after(
        all,
        i,
    ) by {
        if i < a.len() {
            assert(all[i] == a[i]);
            let j = choose|j: int| i < j < a.len() && a[j] is Advance;
            assert(all[j] == a[j]);
        } else {
            assert(all[i] == b[i - a.len()]);
            let j = choose|j: int| i - a.len() < j < b.len() && b[j] is Advance;
            assert(all[j + a.len()] == b[j]);
        }
    }
}

/// Events without a diagnostic on the next token.
pub open spec fn plain(events: Seq<EventView>) -> bool {
    forall|i: int| 0 <= i < events.len() ==> !on_next(#[trigger] events[i])
}

pub proof fn lemma_anchored_node(kind: SyntaxKind, inner: Seq<EventView>)
    requires
        anchored(inner),
    ensures
        anchored(node_run(kind, inner)),
{
    let open = seq![open_of(kind)];
    let close = seq![EventView::Close];
    assert(plain(open) && plain(close));
    lemma_anchored_concat(open, inner);
    lemma_anchored_concat(open + inner, close);
}

pub proof fn lemma_anchored_parent(events: Seq<EventView>, node: int, target: int)
    requires
        anchored(events),
    ensures
        anchored(with_parent(events, node, target)),
{
    let after = with_parent(events, node, target);
    assert forall|i: int| 0 <= i < after.len() && on_next(#[trigger] after[i]) implies advance_after(
        after,
        i,
    ) by {
        assert(on_next(events[i]));
        let j = choose|j: int| i < j < events.len() && events[j] is Advance;
        assert(after[j] is Advance);
    }
}

pub proof fn lemma_expect_anchored(kinds: Seq<SyntaxKind>, left: nat, wanted: SyntaxKind)
    ensures
        anchored(expect_run(kinds, left, wanted).events),
        anchored(eat_run(kinds, left, wanted).events),
        anchored(unexpected_run(kinds, left).events),
        anchored(seq![EventView::Advance]),
        anchored(Seq::<EventView>::empty()),
{
    let unexpected = unexpected_run(kinds, left).events;
    assert(unexpected[3] is Advance);
    assert forall|i: int| 0 <= i < unexpected.len() && on_next(
        #[trigger] unexpected[i],
    ) implies advance_after(unexpected, i) by {
        assert(i < 3);
    }
}

pub proof fn lemma_delimited_type_anchored(kinds: Seq<SyntaxKind>, left: nat)
    ensures
        anchored(delimited_type_run(kinds, left).events),
    decreases left, 0nat,
{
    lemma_expect_anchored(kinds, left, SyntaxKind::R_PAREN);
    if peek_at(kinds, left) == SyntaxKind::IDENT {
        lemma_anchored_node(SyntaxKind::TYPE_IDENT, seq![EventView::Advance]);
    } else if peek_at(kinds, left) == SyntaxKind::L_PAREN {
        lemma_bump_left(kinds, left);
        let inner = type_run(kinds, bump_left(kinds, left));
        lemma_type_anchored(kinds, bump_left(kinds, left));
        lemma_expect_anchored(kinds, inner.left, SyntaxKind::R_PAREN);
        let close = expect_run(kinds, inner.left, SyntaxKind::R_PAREN);
        lemma_anchored_concat(seq![EventView::Advance], inner.events);
        lemma_anchored_concat(seq![EventView::Advance] + inner.events, close.events);
        lemma_anchored_node(
            SyntaxKind::TYPE_PAREN,
            seq![EventView::Advance] + inner.events + close.events,
        );
    }
}

pub proof fn lemma_type_anchored(kinds: Seq<SyntaxKind>, left: nat)
    ensures
        anchored(type_run(kinds, left).events),
    decreases left, 1nat,
{
    lemma_delimited_type_anchored(kinds, left);
    let lhs = delimited_type_run(kinds, left);
    let next = within(lhs.left, left);
    if peek_at(kinds, next) == SyntaxKind::ARROW {
        lemma_bump_left(kinds, next);
        let rhs = type_run(kinds, bump_left(kinds, next));
        lemma_type_anchored(kinds, bump_left(kinds, next));
        let first = with_parent(lhs.events, lhs.node, lhs.events.len() as int + 1);
        lemma_anchored_parent(lhs.events, lhs.node, lhs.events.len() as int + 1);
        let mid = seq![EventView::Advance, open_of(SyntaxKind::TYPE_ARROW)];
        let close = seq![EventView::Close];
        assert(plain(mid) && plain(close));
        lemma_anchored_concat(first, mid);
        lemma_anchored_concat(first + mid, rhs.events);
        lemma_anchored_concat(first + mid + rhs.events, close);
    }
}

pub proof fn lemma_annotation_anchored(kinds: Seq<SyntaxKind>, left: nat)
    ensures
        anchored(annotation_run(kinds, left).events),
        anchored(result_type_run(kinds, left).events),
{
    lemma_expect_anchored(kinds, left, SyntaxKind::COLON);
    if peek_at(kinds, left) == SyntaxKind::COLON {
        let start = bump_left(kinds, left);
        lemma_type_anchored(kinds, start);
        lemma_delimited_type_anchored(kinds, start);
        lemma_anchored_concat(seq![EventView::Advance], type_run(kinds, start).events);
        lemma_anchored_concat(seq![EventView::Advance], delimited_type_run(kinds, start).events);
        lemma_anchored_node(
            SyntaxKind::TYPE_ANNOTATION,
            seq![EventView::Advance] + type_run(kinds, start).events,
        );
        lemma_anchored_node(
            SyntaxKind::TYPE_ANNOTATION,
            seq![EventView::Advance] + delimited_type_run(kinds, start).events,
        );
    }
}

pub proof fn lemma_param_anchored(kinds: Seq<SyntaxKind>, left: nat)
    ensures
        anchored(param_run(kinds, left).events),
{
    lemma_expect_anchored(kinds, left, SyntaxKind::IDENT);
    if peek_at(kinds, left) == SyntaxKind::IDENT {
        lemma_anchored_node(SyntaxKind::PARAM, seq![EventView::Advance]);
    } else if peek_at(kinds, left) == SyntaxKind::L_PAREN {
        let name = expect_run(kinds, bump_left(kinds, left), SyntaxKind::IDENT);
        let colon = expect_run(kinds, name.left, SyntaxKind::COLON);
        let typ = type_run(kinds, colon.left);
        let close = expect_run(kinds, typ.left, SyntaxKind::R_PAREN);
        lemma_expect_anchored(kinds, bump_left(kinds, left), SyntaxKind::IDENT);
        lemma_expect_anchored(kinds, name.left, SyntaxKind::COLON);
        lemma_type_anchored(kinds, colon.left);
        lemma_expect_anchored(kinds, typ.left, SyntaxKind::R_PAREN);
        lemma_anchored_concat(colon.events, typ.events);
        lemma_anchored_node(SyntaxKind::TYPE_ANNOTATION, colon.events + typ.events);
        let annotation = node_run(SyntaxKind::TYPE_ANNOTATION, colon.events + typ.events);
        lemma_anchored_concat(seq![EventView::Advance], name.events);
        lemma_anchored_concat(seq![EventView::Advance] + name.events, annotation);
        lemma_anchored_concat(seq![EventView::Advance] + name.events + annotation, close.events);
        lemma_anchored_node(
            SyntaxKind::PARAM,
            seq![EventView::Advance] + name.events + annotation + close.events,
        );
    } else {
        lemma_anchored_node(SyntaxKind::PARAM, Seq::empty());
    }
}

pub proof fn lemma_params_anchored(kinds: Seq<SyntaxKind>, left: nat)
    ensures
        anchored(param_items(kinds, left).events),
        anchored(params_run(kinds, left).events),
    decreases left,
{
    lemma_expect_anchored(kinds, left, SyntaxKind::IDENT);
    if starts_param(peek_at(kinds, left)) {
        let first = param_run(kinds, left);
        lemma_param_anchored(kinds, left);
        if first.left < left {
            lemma_params_anchored(kinds, first.left);
            lemma_anchored_concat(first.events, param_items(kinds, first.left).events);
        }
    }
    lemma_anchored_node(SyntaxKind::PARAMS, param_items(kinds, left).events);
}

pub proof fn lemma_expr_anchored(kinds: Seq<SyntaxKind>, left: nat)
    ensures
        anchored(expr_run(kinds, left).events),
    decreases left, 4nat,
{
    if peek_at(kinds, left) == SyntaxKind::BACKSLASH {
        lemma_lambda_anchored(kinds, left);
    } else {
        lemma_binary_anchored(kinds, left);
    }
}

pub proof fn lemma_lambda_anchored(kinds: Seq<SyntaxKind>, left: nat)
    ensures
        anchored(lambda_run(kinds, left).events),
    decreases left, 1nat,
{
    lemma_expect_anchored(kinds, left, SyntaxKind::ARROW);
    if peek_at(kinds, left) == SyntaxKind::BACKSLASH {
        lemma_bump_left(kinds, left);
        let start = bump_left(kinds, left);
        let params = params_run(kinds, start);
        let annotation = result_type_run(kinds, params.left);
        let arrow = expect_run(kinds, annotation.left, SyntaxKind::ARROW);
        let body = expr_run(kinds, within(arrow.left, start));
        lemma_params_anchored(kinds, start);
        lemma_annotation_anchored(kinds, params.left);
        lemma_expect_anchored(kinds, annotation.left, SyntaxKind::ARROW);
        lemma_expr_anchored(kinds, within(arrow.left, start));
        let a = seq![EventView::Advance];
        lemma_anchored_concat(a, params.events);
        lemma_anchored_concat(a + params.events, annotation.events);
        lemma_anchored_concat(a + params.events + annotation.events, arrow.events);
        lemma_anchored_concat(
            a + params.events + annotation.events + arrow.events,
            body.events,
        );
        lemma_anchored_node(
            SyntaxKind::LAMBDA_EXPR,
            a + params.events + annotation.events + arrow.events + body.events,
        );
    }
}

pub proof fn lemma_binary_tail_anchored(
    kinds: Seq<SyntaxKind>,
    events: Seq<EventView>,
    node: int,
    left: nat,
)
    requires
        anchored(events),
    ensures
        anchored(binary_tail(kinds, events, node, left).events),
    decreases left, 0nat,
{
    if is_binary_op(peek_at(kinds, left)) {
        lemma_bump_left(kinds, left);
        let after = bump_left(kinds, left);
        let operand = atom_run(kinds, after);
        lemma_atom_anchored(kinds, after);
        let first = with_parent(events, node, events.len() as int);
        lemma_anchored_parent(events, node, events.len() as int);
        let mid = seq![open_of(SyntaxKind::BINARY_EXPR), EventView::Advance];
        let close = seq![EventView::Close];
        assert(plain(mid) && plain(close));
        lemma_anchored_concat(first, mid);
        lemma_anchored_concat(first + mid, operand.events);
        lemma_anchored_concat(first + mid + operand.events, close);
        lemma_binary_tail_anchored(
            kinds,
            first + mid + operand.events + close,
            events.len() as int,
            within(operand.left, after),
        );
    }
}

pub proof fn lemma_binary_anchored(kinds: Seq<SyntaxKind>, left: nat)
    ensures
        anchored(binary_run(kinds, left).events),
    decreases left, 3nat,
{
    lemma_atom_anchored(kinds, left);
    let first = atom_run(kinds, left);
    lemma_binary_tail_anchored(kinds, first.events, first.node, within(first.left, left));
}

pub proof fn lemma_atom_anchored(kinds: Seq<SyntaxKind>, left: nat)
    ensures
        anchored(atom_run(kinds, left).events),
    decreases left, 2nat,
{
    lemma_expect_anchored(kinds, left, SyntaxKind::IDENT);
    let kind = peek_at(kinds, left);
    if kind == SyntaxKind::IDENT {
        lemma_anchored_node(SyntaxKind::IDENT_EXPR, seq![EventView::Advance]);
    } else if kind == SyntaxKind::INT {
        lemma_anchored_node(SyntaxKind::LITERAL_EXPR, seq![EventView::Advance]);
    } else if kind == SyntaxKind::L_PAREN {
        lemma_paren_anchored(kinds, left);
    } else if kind == SyntaxKind::L_BRACE {
        lemma_block_anchored(kinds, left);
    } else if kind == SyntaxKind::BACKSLASH {
        lemma_lambda_anchored(kinds, left);
    }
}

pub proof fn lemma_app_tail_anchored(
    kinds: Seq<SyntaxKind>,
    events: Seq<EventView>,
    node: int,
    left: nat,
)
    requires
        anchored(events),
    ensures
        anchored(app_tail(kinds, events, node, left).events),
    decreases left, 3nat,
{
    if starts_expr(peek_at(kinds, left)) {
        let arg = atom_run(kinds, left);
        lemma_atom_anchored(kinds, left);
        if arg.left < left {
            let first = with_parent(events, node, events.len() as int);
            lemma_anchored_parent(events, node, events.len() as int);
            let mid = seq![open_of(SyntaxKind::APP_EXPR)];
            let close = seq![EventView::Close];
            assert(plain(mid) && plain(close));
            lemma_anchored_concat(first, mid);
            lemma_anchored_concat(first + mid, arg.events);
            lemma_anchored_concat(first + mid + arg.events, close);
            lemma_app_tail_anchored(
                kinds,
                first + mid + arg.events + close,
                events.len() as int,
                arg.left,
            );
        }
    }
}

pub proof fn lemma_arguments_anchored(kinds: Seq<SyntaxKind>, left: nat)
    ensures
        anchored(arguments_run(kinds, left).events),
    decreases left, 5nat,
{
    lemma_expect_anchored(kinds, left, SyntaxKind::IDENT);
    if starts_expr(peek_at(kinds, left)) {
        let first = expr_run(kinds, left);
        lemma_expr_anchored(kinds, left);
        if first.left < left {
            lemma_app_tail_anchored(kinds, first.events, first.node, first.left);
        }
    }
}

pub proof fn lemma_paren_anchored(kinds: Seq<SyntaxKind>, left: nat)
    ensures
        anchored(paren_run(kinds, left).events),
    decreases left, 1nat,
{
    lemma_expect_anchored(kinds, left, SyntaxKind::R_PAREN);
    if peek_at(kinds, left) == SyntaxKind::L_PAREN {
        lemma_bump_left(kinds, left);
        let inner = arguments_run(kinds, bump_left(kinds, left));
        let close = expect_run(kinds, inner.left, SyntaxKind::R_PAREN);
        lemma_arguments_anchored(kinds, bump_left(kinds, left));
        lemma_expect_anchored(kinds, inner.left, SyntaxKind::R_PAREN);
        lemma_anchored_concat(seq![EventView::Advance], inner.events);
        lemma_anchored_concat(seq![EventView::Advance] + inner.events, close.events);
        lemma_anchored_node(
            SyntaxKind::PAREN_EXPR,
            seq![EventView::Advance] + inner.events + close.events,
        );
    }
}

pub proof fn lemma_block_item_anchored(kinds: Seq<SyntaxKind>, left: nat)
    ensures
        anchored(block_item(kinds, left).events),
    decreases left, 5nat,
{
    lemma_expect_anchored(kinds, left, SyntaxKind::SEMICOLON);
    let kind = peek_at(kinds, left);
    if kind == SyntaxKind::LET_KW {
        lemma_let_anchored(kinds, left);
    } else if starts_expr(kind) {
        let value = expr_run(kinds, left);
        lemma_expr_anchored(kinds, left);
        let after = peek_at(kinds, value.left);
        if after != SyntaxKind::R_BRACE && after != SyntaxKind::EOF {
            let semicolon = expect_run(kinds, value.left, SyntaxKind::SEMICOLON);
            lemma_expect_anchored(kinds, value.left, SyntaxKind::SEMICOLON);
            let first = with_parent(value.events, value.node, value.events.len() as int);
            lemma_anchored_parent(value.events, value.node, value.events.len() as int);
            let mid = seq![open_of(SyntaxKind::EXPR_STMT)];
            let close = seq![EventView::Close];
            assert(plain(mid) && plain(close));
            lemma_anchored_concat(first, mid);
            lemma_anchored_concat(first + mid, semicolon.events);
            lemma_anchored_concat(first + mid + semicolon.events, close);
        }
    }
}

pub proof fn lemma_block_items_anchored(kinds: Seq<SyntaxKind>, left: nat)
    ensures
        anchored(block_items(kinds, left).events),
    decreases left, 6nat,
{
    lemma_expect_anchored(kinds, left, SyntaxKind::SEMICOLON);
    let kind = peek_at(kinds, left);
    if kind != SyntaxKind::R_BRACE && kind != SyntaxKind::EOF {
        let first = block_item(kinds, left);
        lemma_block_item_anchored(kinds, left);
        if first.left < left {
            lemma_block_items_anchored(kinds, first.left);
            lemma_anchored_concat(first.events, block_items(kinds, first.left).events);
        }
    }
}

pub proof fn lemma_block_anchored(kinds: Seq<SyntaxKind>, left: nat)
    ensures
        anchored(block_run(kinds, left).events),
    decreases left, 1nat,
{
    lemma_expect_anchored(kinds, left, SyntaxKind::R_BRACE);
    if peek_at(kinds, left) == SyntaxKind::L_BRACE {
        lemma_bump_left(kinds, left);
        let items = block_items(kinds, bump_left(kinds, left));
        let close = expect_run(kinds, items.left, SyntaxKind::R_BRACE);
        lemma_block_items_anchored(kinds, bump_left(kinds, left));
        lemma_expect_anchored(kinds, items.left, SyntaxKind::R_BRACE);
        lemma_anchored_concat(seq![EventView::Advance], items.events);
        lemma_anchored_concat(seq![EventView::Advance] + items.events, close.events);
        lemma_anchored_node(
            SyntaxKind::BLOCK_EXPR,
            seq![EventView::Advance] + items.events + close.events,
        );
    }
}

pub proof fn lemma_let_value_anchored(kinds: Seq<SyntaxKind>, left: nat)
    ensures
        anchored(let_value_run(kinds, left).events),
    decreases left, 0nat,
{
    lemma_expect_anchored(kinds, left, SyntaxKind::EQUAL);
    if peek_at(kinds, left) == SyntaxKind::EQUAL {
        lemma_bump_left(kinds, left);
        lemma_expr_anchored(kinds, bump_left(kinds, left));
        lemma_anchored_concat(
            seq![EventView::Advance],
            expr_run(kinds, bump_left(kinds, left)).events,
        );
    }
}

pub proof fn lemma_let_anchored(kinds: Seq<SyntaxKind>, left: nat)
    ensures
        anchored(let_run(kinds, left).events),
    decreases left, 1nat,
{
    lemma_expect_anchored(kinds, left, SyntaxKind::IDENT);
    if peek_at(kinds, left) == SyntaxKind::LET_KW {
        lemma_bump_left(kinds, left);
        let start = bump_left(kinds, left);
        let name = expect_run(kinds, start, SyntaxKind::IDENT);
        let params = params_run(kinds, name.left);
        let annotation = annotation_run(kinds, params.left);
        let value = let_value_run(kinds, within(annotation.left, start));
        let semicolon = expect_run(kinds, value.left, SyntaxKind::SEMICOLON);
        lemma_expect_anchored(kinds, start, SyntaxKind::IDENT);
        lemma_params_anchored(kinds, name.left);
        lemma_annotation_anchored(kinds, params.left);
        lemma_let_value_anchored(kinds, within(annotation.left, start));
        lemma_expect_anchored(kinds, value.left, SyntaxKind::SEMICOLON);
        let a = seq![EventView::Advance];
        lemma_anchored_concat(a, name.events);
        lemma_anchored_concat(a + name.events, params.events);
        lemma_anchored_concat(a + name.events + params.events, annotation.events);
        lemma_anchored_concat(a + name.events + params.events + annotation.events, value.events);
        lemma_anchored_concat(
            a + name.events + params.events + annotation.events + value.events,
            semicolon.events,
        );
        lemma_anchored_node(
            SyntaxKind::LET_STMT,
            a + name.events + params.events + annotation.events + value.events + semicolon.events,
        );
    }
}

pub proof fn lemma_def_anchored(kinds: Seq<SyntaxKind>, left: nat)
    ensures
        anchored(def_run(kinds, left).events),
        anchored(open_run(kinds, left).events),
        anchored(type_definition_run(kinds, left).events),
{
    // `def`
    let keyword = expect_run(kinds, left, SyntaxKind::DEF_KW);
    let name = expect_run(kinds, keyword.left, SyntaxKind::IDENT);
    let params = params_run(kinds, name.left);
    let annotation = annotation_run(kinds, params.left);
    let body = def_body_run(kinds, annotation.left);
    lemma_expect_anchored(kinds, left, SyntaxKind::DEF_KW);
    lemma_expect_anchored(kinds, keyword.left, SyntaxKind::IDENT);
    lemma_params_anchored(kinds, name.left);
    lemma_annotation_anchored(kinds, params.left);
    lemma_def_body_anchored(kinds, annotation.left);
    lemma_anchored_concat(keyword.events, name.events);
    lemma_anchored_concat(keyword.events + name.events, params.events);
    lemma_anchored_concat(keyword.events + name.events + params.events, annotation.events);
    lemma_anchored_concat(
        keyword.events + name.events + params.events + annotation.events,
        body.events,
    );
    lemma_anchored_node(
        SyntaxKind::DEFINITION,
        keyword.events + name.events + params.events + annotation.events + body.events,
    );
    // `open`
    let keyword = expect_run(kinds, left, SyntaxKind::OPEN_KW);
    let name = expect_run(kinds, keyword.left, SyntaxKind::IDENT);
    let semicolon = expect_run(kinds, name.left, SyntaxKind::SEMICOLON);
    lemma_expect_anchored(kinds, left, SyntaxKind::OPEN_KW);
    lemma_expect_anchored(kinds, keyword.left, SyntaxKind::IDENT);
    lemma_expect_anchored(kinds, name.left, SyntaxKind::SEMICOLON);
    lemma_anchored_concat(keyword.events, name.events);
    lemma_anchored_concat(keyword.events + name.events, semicolon.events);
    lemma_anchored_node(SyntaxKind::OPEN, keyword.events + name.events + semicolon.events);
    // `type`
    let keyword = expect_run(kinds, left, SyntaxKind::TYPE_KW);
    let name = expect_run(kinds, keyword.left, SyntaxKind::IDENT);
    let equal = expect_run(kinds, name.left, SyntaxKind::EQUAL);
    let typ = type_run(kinds, equal.left);
    let semicolon = expect_run(kinds, typ.left, SyntaxKind::SEMICOLON);
    lemma_expect_anchored(kinds, left, SyntaxKind::TYPE_KW);
    lemma_expect_anchored(kinds, keyword.left, SyntaxKind::IDENT);
    lemma_expect_anchored(kinds, name.left, SyntaxKind::EQUAL);
    lemma_type_anchored(kinds, equal.left);
    lemma_expect_anchored(kinds, typ.left, SyntaxKind::SEMICOLON);
    lemma_anchored_concat(keyword.events, name.events);
    lemma_anchored_concat(keyword.events + name.events, equal.events);
    lemma_anchored_concat(keyword.events + name.events + equal.events, typ.events);
    lemma_anchored_concat(
        keyword.events + name.events + equal.events + typ.events,
        semicolon.events,
    );
    lemma_anchored_node(
        SyntaxKind::TYPE_DEFINITION,
        keyword.events + name.events + equal.events + typ.events + semicolon.events,
    );
}

pub proof fn lemma_def_body_anchored(kinds: Seq<SyntaxKind>, left: nat)
    ensures
        anchored(def_body_run(kinds, left).events),
{
    lemma_expect_anchored(kinds, left, SyntaxKind::SEMICOLON);
    let kind = peek_at(kinds, left);
    if kind == SyntaxKind::EQUAL {
        let start = bump_left(kinds, left);
        let value = expr_run(kinds, start);
        let semicolon = def_end_run(kinds, value.left, starts_expr(peek_at(kinds, start)));
        lemma_expr_anchored(kinds, start);
        lemma_expect_anchored(kinds, value.left, SyntaxKind::SEMICOLON);
        lemma_anchored_concat(seq![EventView::Advance], value.events);
        lemma_anchored_concat(seq![EventView::Advance] + value.events, semicolon.events);
        lemma_anchored_node(
            SyntaxKind::DEF_BODY,
            seq![EventView::Advance] + value.events + semicolon.events,
        );
    } else if kind == SyntaxKind::L_BRACE {
        lemma_block_anchored(kinds, left);
        lemma_anchored_node(SyntaxKind::DEF_BODY, block_run(kinds, left).events);
    } else {
        lemma_anchored_node(SyntaxKind::DEF_BODY, Seq::empty());
    }
}

proof fn lemma_skip_plain(kinds: Seq<SyntaxKind>, left: nat, stop: Set<SyntaxKind>)
    ensures
        plain(skip_run(kinds, left, stop).events),
        skip_run(kinds, left, stop).events.len() > 0 ==> skip_run(kinds, left, stop).events[0]
            is Advance,
    decreases left,
{
    if !(left == 0 || peek_at(kinds, left) == SyntaxKind::EOF || stop.contains(
        peek_at(kinds, left),
    )) {
        lemma_bump_left(kinds, left);
        lemma_skip_plain(kinds, bump_left(kinds, left), stop);
        let rest = skip_run(kinds, bump_left(kinds, left), stop);
        let all = seq![EventView::Advance] + rest.events;
        assert forall|i: int| 0 <= i < all.len() implies !on_next(#[trigger] all[i]) by {
            if i > 0 {
                assert(all[i] == rest.events[i - 1]);
            }
        }
    }
}

/// A declaration, malformed or not, consumes the token that its diagnostic
/// is placed on.
pub proof fn lemma_module_item_anchored(kinds: Seq<SyntaxKind>, left: nat)
    requires
        peek_at(kinds, left) != SyntaxKind::EOF,
    ensures
        anchored(module_item_run(kinds, left).events),
{
    let kind = peek_at(kinds, left);
    lemma_def_anchored(kinds, left);
    if kind != SyntaxKind::DEF_KW && kind != SyntaxKind::TYPE_KW && kind != SyntaxKind::OPEN_KW {
        let message = "Expected declaration"@;
        let skipped = skip_run(kinds, left, item_stop());
        lemma_skip_plain(kinds, left, item_stop());
        let recovered = recover_run(kinds, left, item_stop(), message);
        let all = module_item_run(kinds, left).events;
        let head = seq![
            open_of(SyntaxKind::ERROR),
            EventView::Error { message, location: ErrorPlacement::NextToken },
        ];
        assert(recovered.events == head + skipped.events + seq![EventView::Close]);
        assert forall|i: int| 0 <= i < all.len() && on_next(#[trigger] all[i]) implies advance_after(
            all,
            i,
        ) by {
            if 2 <= i && i < 2 + skipped.events.len() {
                assert(all[i] == skipped.events[i - 2]);
            }
            assert(i == 1);
            if skipped.events.len() > 0 {
                assert(all[2] == skipped.events[0]);
            } else {
                assert(item_stop().contains(peek_at(kinds, left)));
                assert(ends_item(peek_at(kinds, skipped.left)));
                assert(all[3] is Advance);
            }
        }
    }
}

} // verus!
