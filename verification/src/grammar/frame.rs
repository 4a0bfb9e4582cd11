//! What a rule writes depends only on the tokens that are left: whatever
//! stands before them, a malformed declaration or anything else, the rule
//! writes the same events and consumes the same tokens.

use vstd::prelude::*;
use crate::event::EventView;
use crate::grammar::expr::{is_binary_op, starts_expr};
use crate::grammar::rules::{
    annotation_run, app_tail, arguments_run, atom_run, binary_run, binary_tail, block_item,
    block_items, block_run, bump_left, def_body_run, def_run, delimited_type_run, eat_run,
    expect_run, expr_run, item_stop, lambda_run, lemma_bump_left, let_run, let_value_run,
    module_item_run, module_items, open_of, open_run, param_items, param_run, params_run, paren_run,
    peek_at, recover_run, result_type_run, skip_run, starts_param, type_definition_run, type_run,
    unexpected_run, with_parent, within,
};
use crate::grammar::tidy::{
    lemma_annotation_tidy, lemma_arguments_tidy, lemma_block_items_tidy, lemma_expr_tidy,
    lemma_let_value_tidy, lemma_params_tidy, lemma_result_type_tidy, lemma_type_tidy,
};
use crate::source::skip_trivia;
use crate::syntax_kind::SyntaxKind;

verus! {

/// `a` and `b` end with the same `left` kinds.
pub open spec fn same_tail(a: Seq<SyntaxKind>, b: Seq<SyntaxKind>, left: nat) -> bool {
    &&& left <= a.len()
    &&& left <= b.len()
    &&& forall|l: nat| l <= left ==> #[trigger] peek_at(a, l) == peek_at(b, l)
}

/// A text that ends with `after` ends with the kinds of `after`.
pub proof fn lemma_tail_of_concat(before: Seq<SyntaxKind>, after: Seq<SyntaxKind>, left: nat)
    requires
        left <= after.len(),
    ensures
        same_tail(before + after, after, left),
{
    let whole = before + after;
    assert forall|l: nat| l <= left implies #[trigger] peek_at(whole, l) == peek_at(after, l) by {
        if 0 < l {
            assert(whole[whole.len() - l] == after[after.len() - l]);
        }
    }
}

proof fn lemma_tail_skip(a: Seq<SyntaxKind>, b: Seq<SyntaxKind>, left: nat, m: nat)
    requires
        same_tail(a, b, left),
        m <= left,
    ensures
        a.len() - skip_trivia(a, a.len() - m) == b.len() - skip_trivia(b, b.len() - m),
    decreases m,
{
    if m > 0 {
        assert(peek_at(a, m) == peek_at(b, m));
        assert(a[a.len() - m] == b[b.len() - m]);
        if a[a.len() - m].spec_is_trivia() {
            lemma_tail_skip(a, b, left, (m - 1) as nat);
        }
    }
}

/// With the same tail, the same is left after a token is consumed.
pub proof fn lemma_tail(a: Seq<SyntaxKind>, b: Seq<SyntaxKind>, left: nat, l: nat)
    requires
        same_tail(a, b, left),
        l <= left,
    ensures
        same_tail(a, b, l),
        peek_at(a, l) == peek_at(b, l),
        bump_left(a, l) == bump_left(b, l),
        bump_left(a, l) <= l,
        l > 0 ==> bump_left(a, l) < l,
{
    lemma_bump_left(a, l);
    if l > 0 {
        lemma_tail_skip(a, b, left, (l - 1) as nat);
    }
}

pub proof fn lemma_expect_frame(a: Seq<SyntaxKind>, b: Seq<SyntaxKind>, left: nat, wanted: SyntaxKind)
    requires
        same_tail(a, b, left),
    ensures
        expect_run(a, left, wanted) == expect_run(b, left, wanted),
        eat_run(a, left, wanted) == eat_run(b, left, wanted),
        unexpected_run(a, left) == unexpected_run(b, left),
        expect_run(a, left, wanted).left <= left,
        eat_run(a, left, wanted).left <= left,
{
    lemma_tail(a, b, left, left);
}

pub proof fn lemma_skip_frame(a: Seq<SyntaxKind>, b: Seq<SyntaxKind>, left: nat, stop: Set<SyntaxKind>)
    requires
        same_tail(a, b, left),
    ensures
        skip_run(a, left, stop) == skip_run(b, left, stop),
        skip_run(a, left, stop).left <= left,
    decreases left,
{
    lemma_tail(a, b, left, left);
    if !(left == 0 || peek_at(a, left) == SyntaxKind::EOF || stop.contains(peek_at(a, left))) {
        lemma_skip_frame(a, b, bump_left(a, left), stop);
    }
}

pub proof fn lemma_recover_frame(
    a: Seq<SyntaxKind>,
    b: Seq<SyntaxKind>,
    left: nat,
    stop: Set<SyntaxKind>,
    message: Seq<char>,
)
    requires
        same_tail(a, b, left),
    ensures
        recover_run(a, left, stop, message) == recover_run(b, left, stop, message),
        recover_run(a, left, stop, message).left <= left,
{
    lemma_skip_frame(a, b, left, stop);
}

pub proof fn lemma_delimited_type_frame(a: Seq<SyntaxKind>, b: Seq<SyntaxKind>, left: nat)
    requires
        same_tail(a, b, left),
    ensures
        delimited_type_run(a, left) == delimited_type_run(b, left),
    decreases left, 0nat,
{
    lemma_tail(a, b, left, left);
    if peek_at(a, left) == SyntaxKind::L_PAREN {
        let start = bump_left(a, left);
        lemma_type_frame(a, b, start);
        lemma_type_tidy(a, start);
        lemma_expect_frame(a, b, type_run(a, start).left, SyntaxKind::R_PAREN);
    }
}

pub proof fn lemma_type_frame(a: Seq<SyntaxKind>, b: Seq<SyntaxKind>, left: nat)
    requires
        same_tail(a, b, left),
    ensures
        type_run(a, left) == type_run(b, left),
    decreases left, 1nat,
{
    lemma_delimited_type_frame(a, b, left);
    let next = within(delimited_type_run(a, left).left, left);
    lemma_tail(a, b, left, next);
    if peek_at(a, next) == SyntaxKind::ARROW {
        lemma_type_frame(a, b, bump_left(a, next));
    }
}

pub proof fn lemma_annotation_frame(a: Seq<SyntaxKind>, b: Seq<SyntaxKind>, left: nat)
    requires
        same_tail(a, b, left),
    ensures
        annotation_run(a, left) == annotation_run(b, left),
        result_type_run(a, left) == result_type_run(b, left),
{
    lemma_tail(a, b, left, left);
    if peek_at(a, left) == SyntaxKind::COLON {
        lemma_type_frame(a, b, bump_left(a, left));
        lemma_delimited_type_frame(a, b, bump_left(a, left));
    }
}

pub proof fn lemma_param_frame(a: Seq<SyntaxKind>, b: Seq<SyntaxKind>, left: nat)
    requires
        same_tail(a, b, left),
    ensures
        param_run(a, left) == param_run(b, left),
{
    lemma_tail(a, b, left, left);
    if peek_at(a, left) == SyntaxKind::L_PAREN {
        let start = bump_left(a, left);
        lemma_expect_frame(a, b, start, SyntaxKind::IDENT);
        let name = expect_run(a, start, SyntaxKind::IDENT);
        lemma_expect_frame(a, b, name.left, SyntaxKind::COLON);
        let colon = expect_run(a, name.left, SyntaxKind::COLON);
        lemma_type_frame(a, b, colon.left);
        lemma_type_tidy(a, colon.left);
        lemma_expect_frame(a, b, type_run(a, colon.left).left, SyntaxKind::R_PAREN);
    }
}

pub proof fn lemma_param_items_frame(a: Seq<SyntaxKind>, b: Seq<SyntaxKind>, left: nat)
    requires
        same_tail(a, b, left),
    ensures
        param_items(a, left) == param_items(b, left),
        params_run(a, left) == params_run(b, left),
    decreases left,
{
    lemma_tail(a, b, left, left);
    if starts_param(peek_at(a, left)) {
        lemma_param_frame(a, b, left);
        let first = param_run(a, left);
        if first.left < left {
            lemma_param_items_frame(a, b, first.left);
        }
    }
}

pub proof fn lemma_expr_frame(a: Seq<SyntaxKind>, b: Seq<SyntaxKind>, left: nat)
    requires
        same_tail(a, b, left),
    ensures
        expr_run(a, left) == expr_run(b, left),
    decreases left, 4nat,
{
    lemma_tail(a, b, left, left);
    if peek_at(a, left) == SyntaxKind::BACKSLASH {
        lemma_lambda_frame(a, b, left);
    } else {
        lemma_binary_frame(a, b, left);
    }
}

pub proof fn lemma_lambda_frame(a: Seq<SyntaxKind>, b: Seq<SyntaxKind>, left: nat)
    requires
        same_tail(a, b, left),
    ensures
        lambda_run(a, left) == lambda_run(b, left),
    decreases left, 1nat,
{
    lemma_tail(a, b, left, left);
    if peek_at(a, left) == SyntaxKind::BACKSLASH {
        let start = bump_left(a, left);
        lemma_param_items_frame(a, b, start);
        lemma_params_tidy(a, start);
        let params = params_run(a, start);
        lemma_annotation_frame(a, b, params.left);
        lemma_result_type_tidy(a, params.left);
        let annotation = result_type_run(a, params.left);
        lemma_expect_frame(a, b, annotation.left, SyntaxKind::ARROW);
        let arrow = expect_run(a, annotation.left, SyntaxKind::ARROW);
        lemma_expr_frame(a, b, within(arrow.left, start));
    }
}

pub proof fn lemma_binary_tail_frame(
    a: Seq<SyntaxKind>,
    b: Seq<SyntaxKind>,
    events: Seq<EventView>,
    node: int,
    left: nat,
)
    requires
        same_tail(a, b, left),
    ensures
        binary_tail(a, events, node, left) == binary_tail(b, events, node, left),
    decreases left, 0nat,
{
    lemma_tail(a, b, left, left);
    if is_binary_op(peek_at(a, left)) {
        let after = bump_left(a, left);
        lemma_atom_frame(a, b, after);
        let operand = atom_run(a, after);
        lemma_binary_tail_frame(
            a,
            b,
            with_parent(events, node, events.len() as int) + seq![
                open_of(SyntaxKind::BINARY_EXPR),
                EventView::Advance,
            ] + operand.events + seq![EventView::Close],
            events.len() as int,
            within(operand.left, after),
        );
    }
}

pub proof fn lemma_binary_frame(a: Seq<SyntaxKind>, b: Seq<SyntaxKind>, left: nat)
    requires
        same_tail(a, b, left),
    ensures
        binary_run(a, left) == binary_run(b, left),
    decreases left, 3nat,
{
    lemma_atom_frame(a, b, left);
    let first = atom_run(a, left);
    lemma_binary_tail_frame(a, b, first.events, first.node, within(first.left, left));
}

pub proof fn lemma_atom_frame(a: Seq<SyntaxKind>, b: Seq<SyntaxKind>, left: nat)
    requires
        same_tail(a, b, left),
    ensures
        atom_run(a, left) == atom_run(b, left),
    decreases left, 2nat,
{
    lemma_tail(a, b, left, left);
    let kind = peek_at(a, left);
    if kind == SyntaxKind::L_PAREN {
        lemma_paren_frame(a, b, left);
    } else if kind == SyntaxKind::L_BRACE {
        lemma_block_frame(a, b, left);
    } else if kind == SyntaxKind::BACKSLASH {
        lemma_lambda_frame(a, b, left);
    }
}

pub proof fn lemma_app_tail_frame(
    a: Seq<SyntaxKind>,
    b: Seq<SyntaxKind>,
    events: Seq<EventView>,
    node: int,
    left: nat,
)
    requires
        same_tail(a, b, left),
    ensures
        app_tail(a, events, node, left) == app_tail(b, events, node, left),
    decreases left, 3nat,
{
    lemma_tail(a, b, left, left);
    if starts_expr(peek_at(a, left)) {
        lemma_atom_frame(a, b, left);
        let arg = atom_run(a, left);
        if arg.left < left {
            lemma_app_tail_frame(
                a,
                b,
                with_parent(events, node, events.len() as int) + seq![
                    open_of(SyntaxKind::APP_EXPR),
                ] + arg.events + seq![EventView::Close],
                events.len() as int,
                arg.left,
            );
        }
    }
}

pub proof fn lemma_arguments_frame(a: Seq<SyntaxKind>, b: Seq<SyntaxKind>, left: nat)
    requires
        same_tail(a, b, left),
    ensures
        arguments_run(a, left) == arguments_run(b, left),
    decreases left, 5nat,
{
    lemma_tail(a, b, left, left);
    if starts_expr(peek_at(a, left)) {
        lemma_expr_frame(a, b, left);
        let first = expr_run(a, left);
        if first.left < left {
            lemma_app_tail_frame(a, b, first.events, first.node, first.left);
        }
    }
}

pub proof fn lemma_paren_frame(a: Seq<SyntaxKind>, b: Seq<SyntaxKind>, left: nat)
    requires
        same_tail(a, b, left),
    ensures
        paren_run(a, left) == paren_run(b, left),
    decreases left, 1nat,
{
    lemma_tail(a, b, left, left);
    if peek_at(a, left) == SyntaxKind::L_PAREN {
        let start = bump_left(a, left);
        lemma_arguments_frame(a, b, start);
        lemma_arguments_tidy(a, start);
        lemma_expect_frame(a, b, arguments_run(a, start).left, SyntaxKind::R_PAREN);
    }
}

pub proof fn lemma_block_item_frame(a: Seq<SyntaxKind>, b: Seq<SyntaxKind>, left: nat)
    requires
        same_tail(a, b, left),
    ensures
        block_item(a, left) == block_item(b, left),
    decreases left, 5nat,
{
    lemma_tail(a, b, left, left);
    let kind = peek_at(a, left);
    if kind == SyntaxKind::LET_KW {
        lemma_let_frame(a, b, left);
    } else if starts_expr(kind) {
        lemma_expr_frame(a, b, left);
        lemma_expr_tidy(a, left);
        let value = expr_run(a, left);
        lemma_expect_frame(a, b, value.left, SyntaxKind::SEMICOLON);
    } else {
        lemma_expect_frame(a, b, left, SyntaxKind::SEMICOLON);
    }
}

pub proof fn lemma_block_items_frame(a: Seq<SyntaxKind>, b: Seq<SyntaxKind>, left: nat)
    requires
        same_tail(a, b, left),
    ensures
        block_items(a, left) == block_items(b, left),
    decreases left, 6nat,
{
    lemma_tail(a, b, left, left);
    let kind = peek_at(a, left);
    if kind != SyntaxKind::R_BRACE && kind != SyntaxKind::EOF {
        lemma_block_item_frame(a, b, left);
        let first = block_item(a, left);
        if first.left < left {
            lemma_block_items_frame(a, b, first.left);
        }
    }
}

pub proof fn lemma_block_frame(a: Seq<SyntaxKind>, b: Seq<SyntaxKind>, left: nat)
    requires
        same_tail(a, b, left),
    ensures
        block_run(a, left) == block_run(b, left),
    decreases left, 1nat,
{
    lemma_tail(a, b, left, left);
    if peek_at(a, left) == SyntaxKind::L_BRACE {
        let start = bump_left(a, left);
        lemma_block_items_frame(a, b, start);
        lemma_block_items_tidy(a, start);
        lemma_expect_frame(a, b, block_items(a, start).left, SyntaxKind::R_BRACE);
    }
}

pub proof fn lemma_let_value_frame(a: Seq<SyntaxKind>, b: Seq<SyntaxKind>, left: nat)
    requires
        same_tail(a, b, left),
    ensures
        let_value_run(a, left) == let_value_run(b, left),
    decreases left, 0nat,
{
    lemma_tail(a, b, left, left);
    if peek_at(a, left) == SyntaxKind::EQUAL {
        lemma_expr_frame(a, b, bump_left(a, left));
    }
}

pub proof fn lemma_let_frame(a: Seq<SyntaxKind>, b: Seq<SyntaxKind>, left: nat)
    requires
        same_tail(a, b, left),
    ensures
        let_run(a, left) == let_run(b, left),
    decreases left, 1nat,
{
    lemma_tail(a, b, left, left);
    if peek_at(a, left) == SyntaxKind::LET_KW {
        let start = bump_left(a, left);
        lemma_expect_frame(a, b, start, SyntaxKind::IDENT);
        let name = expect_run(a, start, SyntaxKind::IDENT);
        lemma_param_items_frame(a, b, name.left);
        lemma_params_tidy(a, name.left);
        let params = params_run(a, name.left);
        lemma_annotation_frame(a, b, params.left);
        lemma_annotation_tidy(a, params.left);
        let annotation = annotation_run(a, params.left);
        let from = within(annotation.left, start);
        lemma_let_value_frame(a, b, from);
        lemma_let_value_tidy(a, from);
        lemma_expect_frame(a, b, let_value_run(a, from).left, SyntaxKind::SEMICOLON);
    }
}

pub proof fn lemma_open_frame(a: Seq<SyntaxKind>, b: Seq<SyntaxKind>, left: nat)
    requires
        same_tail(a, b, left),
    ensures
        open_run(a, left) == open_run(b, left),
{
    lemma_expect_frame(a, b, left, SyntaxKind::OPEN_KW);
    let keyword = expect_run(a, left, SyntaxKind::OPEN_KW);
    lemma_expect_frame(a, b, keyword.left, SyntaxKind::IDENT);
    let name = expect_run(a, keyword.left, SyntaxKind::IDENT);
    lemma_expect_frame(a, b, name.left, SyntaxKind::SEMICOLON);
}

pub proof fn lemma_type_definition_frame(a: Seq<SyntaxKind>, b: Seq<SyntaxKind>, left: nat)
    requires
        same_tail(a, b, left),
    ensures
        type_definition_run(a, left) == type_definition_run(b, left),
{
    lemma_expect_frame(a, b, left, SyntaxKind::TYPE_KW);
    let keyword = expect_run(a, left, SyntaxKind::TYPE_KW);
    lemma_expect_frame(a, b, keyword.left, SyntaxKind::IDENT);
    let name = expect_run(a, keyword.left, SyntaxKind::IDENT);
    lemma_expect_frame(a, b, name.left, SyntaxKind::EQUAL);
    let equal = expect_run(a, name.left, SyntaxKind::EQUAL);
    lemma_type_frame(a, b, equal.left);
    lemma_type_tidy(a, equal.left);
    lemma_expect_frame(a, b, type_run(a, equal.left).left, SyntaxKind::SEMICOLON);
}

pub proof fn lemma_def_body_frame(a: Seq<SyntaxKind>, b: Seq<SyntaxKind>, left: nat)
    requires
        same_tail(a, b, left),
    ensures
        def_body_run(a, left) == def_body_run(b, left),
{
    lemma_tail(a, b, left, left);
    let kind = peek_at(a, left);
    if kind == SyntaxKind::EQUAL {
        let start = bump_left(a, left);
        lemma_tail(a, b, left, start);
        lemma_expr_frame(a, b, start);
        lemma_expr_tidy(a, start);
        lemma_expect_frame(a, b, expr_run(a, start).left, SyntaxKind::SEMICOLON);
    } else if kind == SyntaxKind::L_BRACE {
        lemma_block_frame(a, b, left);
    }
}

pub proof fn lemma_def_frame(a: Seq<SyntaxKind>, b: Seq<SyntaxKind>, left: nat)
    requires
        same_tail(a, b, left),
    ensures
        def_run(a, left) == def_run(b, left),
{
    lemma_expect_frame(a, b, left, SyntaxKind::DEF_KW);
    let keyword = expect_run(a, left, SyntaxKind::DEF_KW);
    lemma_expect_frame(a, b, keyword.left, SyntaxKind::IDENT);
    let name = expect_run(a, keyword.left, SyntaxKind::IDENT);
    lemma_param_items_frame(a, b, name.left);
    lemma_params_tidy(a, name.left);
    let params = params_run(a, name.left);
    lemma_annotation_frame(a, b, params.left);
    lemma_annotation_tidy(a, params.left);
    lemma_def_body_frame(a, b, annotation_run(a, params.left).left);
}

/// A declaration is parsed from the tokens that are left, whatever stands
/// before them.
pub proof fn lemma_module_item_frame(a: Seq<SyntaxKind>, b: Seq<SyntaxKind>, left: nat)
    requires
        same_tail(a, b, left),
    ensures
        module_item_run(a, left) == module_item_run(b, left),
{
    lemma_tail(a, b, left, left);
    let kind = peek_at(a, left);
    if kind == SyntaxKind::DEF_KW {
        lemma_def_frame(a, b, left);
    } else if kind == SyntaxKind::TYPE_KW {
        lemma_type_definition_frame(a, b, left);
    } else if kind == SyntaxKind::OPEN_KW {
        lemma_open_frame(a, b, left);
    } else {
        lemma_recover_frame(a, b, left, item_stop(), "Expected declaration"@);
        let skipped = recover_run(a, left, item_stop(), "Expected declaration"@);
        lemma_tail(a, b, left, skipped.left);
    }
}

/// The declarations are parsed from the tokens that are left, whatever
/// stands before them.
pub proof fn lemma_module_items_frame(a: Seq<SyntaxKind>, b: Seq<SyntaxKind>, left: nat)
    requires
        same_tail(a, b, left),
    ensures
        module_items(a, left) == module_items(b, left),
    decreases left,
{
    lemma_tail(a, b, left, left);
    if peek_at(a, left) != SyntaxKind::EOF {
        lemma_module_item_frame(a, b, left);
        let first = module_item_run(a, left);
        if first.left < left {
            lemma_module_items_frame(a, b, first.left);
        }
    }
}

} // verus!
