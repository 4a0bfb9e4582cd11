//! The grammar as functions: for each rule, the events that it writes and the
//! tokens that it leaves, given the kinds of the tokens.

use vstd::prelude::*;
use crate::event::{ErrorPlacement, EventView};
use crate::grammar::expr::{is_binary_op, starts_expr};
use crate::grammar::module_item::{ends_item, module_item_stop};
use crate::parser::{CompletedMarker, Parser};
use crate::source::{lemma_skip_trivia, remaining};
use crate::syntax_kind::SyntaxKind;

verus! {

// The grammar as functions: each rule maps the kinds of the tokens, and the
// number of tokens that are left, to the events that it records.

/// What a rule does when it runs: the events it records, how many tokens are
/// left afterwards from the next significant one on, and where among its
/// events the node opens that it hands back (where it hands one back).
pub struct Run {
    pub events: Seq<EventView>,
    pub left: nat,
    pub node: int,
}

/// The rule has run as `run` says: the events of `run` have been appended to
/// the events recorded before, none of which has changed, and the input has
/// been consumed as far as `run` says, and never backwards.
pub open spec fn ran(before: &Parser, after: &Parser, run: Run) -> bool {
    &&& after.wf()
    &&& after.kinds() == before.kinds()
    &&& after.trace() == before.trace() + run.events
    &&& after.left() == run.left
    &&& after.left() <= before.left()
}

/// `ran`, and `node` is the node that `run` hands back: a node that has been
/// opened and closed among the events of `run`.
pub open spec fn ran_node(before: &Parser, after: &Parser, run: Run, node: CompletedMarker) -> bool {
    &&& ran(before, after, run)
    &&& node.pos == before.trace().len() + run.node
    &&& 0 <= run.node < run.events.len()
    &&& run.events[run.node] is Open
}

/// The kind of the next significant token when `left` tokens are left from
/// it on; `EOF` when none is.
pub open spec fn peek_at(kinds: Seq<SyntaxKind>, left: nat) -> SyntaxKind {
    if 0 < left <= kinds.len() {
        kinds[kinds.len() - left]
    } else {
        SyntaxKind::EOF
    }
}

/// How many tokens are left after the next significant token is consumed.
pub open spec fn bump_left(kinds: Seq<SyntaxKind>, left: nat) -> nat {
    if 0 < left <= kinds.len() {
        remaining(kinds, kinds.len() - left + 1)
    } else {
        0
    }
}

pub proof fn lemma_bump_left(kinds: Seq<SyntaxKind>, left: nat)
    ensures
        bump_left(kinds, left) <= left,
        left > 0 ==> bump_left(kinds, left) < left,
{
    if 0 < left <= kinds.len() {
        lemma_skip_trivia(kinds, kinds.len() - left + 1);
    }
}

/// `x`, or `bound` where `x` is above it.
pub open spec fn within(x: nat, bound: nat) -> nat {
    if x <= bound {
        x
    } else {
        bound
    }
}

pub open spec fn open_of(kind: SyntaxKind) -> EventView {
    EventView::Open { kind, parent: None }
}

/// The events of a node of `kind` around `inner`.
pub open spec fn node_run(kind: SyntaxKind, inner: Seq<EventView>) -> Seq<EventView> {
    seq![open_of(kind)] + inner + seq![EventView::Close]
}

/// The events of an empty `ERROR` node that carries one diagnostic.
pub open spec fn error_run(message: Seq<char>, location: ErrorPlacement) -> Seq<EventView> {
    seq![open_of(SyntaxKind::ERROR), EventView::Error { message, location }, EventView::Close]
}

/// The events with the opening at `node` given the opening at `target` as its
/// forward parent.
pub open spec fn with_parent(events: Seq<EventView>, node: int, target: int) -> Seq<EventView> {
    if 0 <= node < events.len() && events[node] is Open && node < target {
        events.update(
            node,
            EventView::Open { kind: events[node]->kind, parent: Some((target - node) as nat) },
        )
    } else {
        events
    }
}

/// The message of a failed `expect`.
pub open spec fn expected_text(wanted: SyntaxKind, found: SyntaxKind) -> Seq<char> {
    "Expected "@ + wanted.spec_name() + " but found "@ + found.spec_name()
}

/// The message of `unexpected`.
pub open spec fn unexpected_text(found: SyntaxKind) -> Seq<char> {
    "Unexpected token: "@ + found.spec_name()
}

/// A token that has to be there: the token if it is of the kind `wanted`;
/// else the error "Expected .. but found ..", and nothing is consumed.
pub open spec fn expect_run(kinds: Seq<SyntaxKind>, left: nat, wanted: SyntaxKind) -> Run {
    if peek_at(kinds, left) == wanted {
        Run { events: seq![EventView::Advance], left: bump_left(kinds, left), node: -1 }
    } else {
        Run {
            events: error_run(
                expected_text(wanted, peek_at(kinds, left)),
                ErrorPlacement::PrevTokenEnd,
            ),
            left,
            node: -1,
        }
    }
}

/// A token that may be there: the token if it is of the kind `wanted`; else
/// nothing, and no error.
pub open spec fn eat_run(kinds: Seq<SyntaxKind>, left: nat, wanted: SyntaxKind) -> Run {
    if peek_at(kinds, left) == wanted {
        Run { events: seq![EventView::Advance], left: bump_left(kinds, left), node: -1 }
    } else {
        Run { events: Seq::empty(), left, node: -1 }
    }
}

/// A token that must not be there: the error "Unexpected token: ..", then
/// the token.
pub open spec fn unexpected_run(kinds: Seq<SyntaxKind>, left: nat) -> Run {
    Run {
        events: error_run(unexpected_text(peek_at(kinds, left)), ErrorPlacement::NextToken)
            + seq![EventView::Advance],
        left: bump_left(kinds, left),
        node: -1,
    }
}

/// Skipping: one `Advance` for each token up to the first whose kind is in
/// `stop`, or to the end.
pub open spec fn skip_run(kinds: Seq<SyntaxKind>, left: nat, stop: Set<SyntaxKind>) -> Run
    decreases left,
{
    if left == 0 || peek_at(kinds, left) == SyntaxKind::EOF || stop.contains(peek_at(kinds, left)) {
        Run { events: Seq::empty(), left, node: -1 }
    } else {
        proof {
            lemma_bump_left(kinds, left);
        }
        let rest = skip_run(kinds, bump_left(kinds, left), stop);
        Run { events: seq![EventView::Advance] + rest.events, left: rest.left, node: -1 }
    }
}

/// Recovery: an `ERROR` node with the diagnostic and the tokens that are
/// skipped.
pub open spec fn recover_run(
    kinds: Seq<SyntaxKind>,
    left: nat,
    stop: Set<SyntaxKind>,
    message: Seq<char>,
) -> Run {
    let skipped = skip_run(kinds, left, stop);
    Run {
        events: seq![
            open_of(SyntaxKind::ERROR),
            EventView::Error { message, location: ErrorPlacement::NextToken },
        ] + skipped.events + seq![EventView::Close],
        left: skipped.left,
        node: 0,
    }
}

/// A delimited type expression: an identifier in a node `TYPE_IDENT`; or
/// `( type )` in a node `TYPE_PAREN`; anything else is the error "Expected type
/// expression", and nothing is consumed.
pub open spec fn delimited_type_run(kinds: Seq<SyntaxKind>, left: nat) -> Run
    decreases left, 0nat,
{
    if peek_at(kinds, left) == SyntaxKind::IDENT {
        Run {
            events: node_run(SyntaxKind::TYPE_IDENT, seq![EventView::Advance]),
            left: bump_left(kinds, left),
            node: 0,
        }
    } else if peek_at(kinds, left) == SyntaxKind::L_PAREN {
        proof {
            lemma_bump_left(kinds, left);
        }
        let inner = type_run(kinds, bump_left(kinds, left));
        let close = expect_run(kinds, inner.left, SyntaxKind::R_PAREN);
        Run {
            events: node_run(
                SyntaxKind::TYPE_PAREN,
                seq![EventView::Advance] + inner.events + close.events,
            ),
            left: close.left,
            node: 0,
        }
    } else {
        Run {
            events: error_run("Expected type expression"@, ErrorPlacement::PrevTokenEnd),
            left,
            node: 0,
        }
    }
}

/// A type expression: a delimited type expression; with an arrow after it, the
/// node `TYPE_ARROW` becomes its forward parent and holds what follows the
/// arrow, a type expression again. So arrows nest to the right.
pub open spec fn type_run(kinds: Seq<SyntaxKind>, left: nat) -> Run
    decreases left, 1nat,
{
    let lhs = delimited_type_run(kinds, left);
    let next = within(lhs.left, left);
    if peek_at(kinds, next) == SyntaxKind::ARROW {
        proof {
            lemma_bump_left(kinds, next);
        }
        let rhs = type_run(kinds, bump_left(kinds, next));
        Run {
            events: with_parent(lhs.events, lhs.node, lhs.events.len() as int + 1) + seq![
                EventView::Advance,
                open_of(SyntaxKind::TYPE_ARROW),
            ] + rhs.events + seq![EventView::Close],
            left: rhs.left,
            node: lhs.events.len() as int + 1,
        }
    } else {
        Run { events: lhs.events, left: next, node: lhs.node }
    }
}

/// An annotation: `: type` in a node `TYPE_ANNOTATION`, or nothing where no
/// colon stands.
pub open spec fn annotation_run(kinds: Seq<SyntaxKind>, left: nat) -> Run {
    if peek_at(kinds, left) == SyntaxKind::COLON {
        let inner = type_run(kinds, bump_left(kinds, left));
        Run {
            events: node_run(
                SyntaxKind::TYPE_ANNOTATION,
                seq![EventView::Advance] + inner.events,
            ),
            left: inner.left,
            node: 0,
        }
    } else {
        Run { events: Seq::empty(), left, node: -1 }
    }
}

/// A parameter in a node `PARAM`: an identifier, or `( name : type )` with
/// `: type` in a node `TYPE_ANNOTATION`.
pub open spec fn param_run(kinds: Seq<SyntaxKind>, left: nat) -> Run {
    if peek_at(kinds, left) == SyntaxKind::IDENT {
        Run {
            events: node_run(SyntaxKind::PARAM, seq![EventView::Advance]),
            left: bump_left(kinds, left),
            node: 0,
        }
    } else if peek_at(kinds, left) == SyntaxKind::L_PAREN {
        let name = expect_run(kinds, bump_left(kinds, left), SyntaxKind::IDENT);
        let colon = expect_run(kinds, name.left, SyntaxKind::COLON);
        let typ = type_run(kinds, colon.left);
        let close = expect_run(kinds, typ.left, SyntaxKind::R_PAREN);
        Run {
            events: node_run(
                SyntaxKind::PARAM,
                seq![EventView::Advance] + name.events + node_run(
                    SyntaxKind::TYPE_ANNOTATION,
                    colon.events + typ.events,
                ) + close.events,
            ),
            left: close.left,
            node: 0,
        }
    } else {
        Run { events: node_run(SyntaxKind::PARAM, Seq::empty()), left, node: 0 }
    }
}

pub open spec fn starts_param(k: SyntaxKind) -> bool {
    k == SyntaxKind::IDENT || k == SyntaxKind::L_PAREN
}

/// The parameters one after the other, as long as one starts.
pub open spec fn param_items(kinds: Seq<SyntaxKind>, left: nat) -> Run
    decreases left,
{
    if starts_param(peek_at(kinds, left)) {
        let first = param_run(kinds, left);
        if first.left < left {
            let rest = param_items(kinds, first.left);
            Run { events: first.events + rest.events, left: rest.left, node: -1 }
        } else {
            Run { events: first.events, left: first.left, node: -1 }
        }
    } else {
        Run { events: Seq::empty(), left, node: -1 }
    }
}

/// The parameters, in a node `PARAMS` that is there even without any.
pub open spec fn params_run(kinds: Seq<SyntaxKind>, left: nat) -> Run {
    let items = param_items(kinds, left);
    Run { events: node_run(SyntaxKind::PARAMS, items.events), left: items.left, node: 0 }
}

/// An expression: a lambda where a backslash stands, else operands joined by
/// binary operators.
pub open spec fn expr_run(kinds: Seq<SyntaxKind>, left: nat) -> Run
    decreases left, 4nat,
{
    if peek_at(kinds, left) == SyntaxKind::BACKSLASH {
        lambda_run(kinds, left)
    } else {
        binary_run(kinds, left)
    }
}

/// The result type of a lambda: `: type` with a delimited type expression, or
/// nothing.
pub open spec fn result_type_run(kinds: Seq<SyntaxKind>, left: nat) -> Run {
    if peek_at(kinds, left) == SyntaxKind::COLON {
        let typ = delimited_type_run(kinds, bump_left(kinds, left));
        Run {
            events: node_run(SyntaxKind::TYPE_ANNOTATION, seq![EventView::Advance] + typ.events),
            left: typ.left,
            node: 0,
        }
    } else {
        Run { events: Seq::empty(), left, node: -1 }
    }
}

/// A lambda in a node `LAMBDA_EXPR`: `\ params`, a result type or none, `->`
/// and the body, an expression. It applies at a backslash.
pub open spec fn lambda_run(kinds: Seq<SyntaxKind>, left: nat) -> Run
    decreases left, 1nat,
{
    let start = bump_left(kinds, left);
    let params = params_run(kinds, start);
    let annotation = result_type_run(kinds, params.left);
    let arrow = expect_run(kinds, annotation.left, SyntaxKind::ARROW);
    if peek_at(kinds, left) != SyntaxKind::BACKSLASH {
        Run { events: Seq::empty(), left, node: 0 }
    } else {
        proof {
            lemma_bump_left(kinds, left);
        }
        let body = expr_run(kinds, within(arrow.left, start));
        Run {
            events: node_run(
                SyntaxKind::LAMBDA_EXPR,
                seq![EventView::Advance] + params.events + annotation.events + arrow.events
                    + body.events,
            ),
            left: body.left,
            node: 0,
        }
    }
}

/// What follows an operand: as long as a binary operator comes, a node
/// `BINARY_EXPR` becomes the forward parent of what stands before it, and holds
/// the operator and the operand after it. `events` is what the rule has
/// recorded so far, `node` the opening of what stands before the operator.
pub open spec fn binary_tail(kinds: Seq<SyntaxKind>, events: Seq<EventView>, node: int, left: nat) -> Run
    decreases left, 0nat,
{
    if is_binary_op(peek_at(kinds, left)) {
        proof {
            lemma_bump_left(kinds, left);
        }
        let after = bump_left(kinds, left);
        let operand = atom_run(kinds, after);
        binary_tail(
            kinds,
            with_parent(events, node, events.len() as int) + seq![
                open_of(SyntaxKind::BINARY_EXPR),
                EventView::Advance,
            ] + operand.events + seq![EventView::Close],
            events.len() as int,
            within(operand.left, after),
        )
    } else {
        Run { events, left, node }
    }
}

/// An operand and what follows it.
pub open spec fn binary_run(kinds: Seq<SyntaxKind>, left: nat) -> Run
    decreases left, 3nat,
{
    let first = atom_run(kinds, left);
    binary_tail(kinds, first.events, first.node, within(first.left, left))
}

/// An operand: an identifier in a node `IDENT_EXPR`, an integer in a node
/// `LITERAL_EXPR`, what parentheses hold, a block or a lambda; anything else is
/// the error "Expected expression", and nothing is consumed.
pub open spec fn atom_run(kinds: Seq<SyntaxKind>, left: nat) -> Run
    decreases left, 2nat,
{
    let kind = peek_at(kinds, left);
    if kind == SyntaxKind::IDENT {
        Run {
            events: node_run(SyntaxKind::IDENT_EXPR, seq![EventView::Advance]),
            left: bump_left(kinds, left),
            node: 0,
        }
    } else if kind == SyntaxKind::INT {
        Run {
            events: node_run(SyntaxKind::LITERAL_EXPR, seq![EventView::Advance]),
            left: bump_left(kinds, left),
            node: 0,
        }
    } else if kind == SyntaxKind::L_PAREN {
        paren_run(kinds, left)
    } else if kind == SyntaxKind::L_BRACE {
        block_run(kinds, left)
    } else if kind == SyntaxKind::BACKSLASH {
        lambda_run(kinds, left)
    } else {
        Run {
            events: error_run("Expected expression"@, ErrorPlacement::PrevTokenEnd),
            left,
            node: 0,
        }
    }
}

/// The arguments of an application: as long as an expression starts, a node
/// `APP_EXPR` becomes the forward parent of what stands before it, and holds
/// the argument. So applications nest to the left.
pub open spec fn app_tail(kinds: Seq<SyntaxKind>, events: Seq<EventView>, node: int, left: nat) -> Run
    decreases left, 3nat,
{
    if starts_expr(peek_at(kinds, left)) {
        let arg = atom_run(kinds, left);
        if arg.left < left {
            app_tail(
                kinds,
                with_parent(events, node, events.len() as int) + seq![
                    open_of(SyntaxKind::APP_EXPR),
                ] + arg.events + seq![EventView::Close],
                events.len() as int,
                arg.left,
            )
        } else {
            Run { events, left, node }
        }
    } else {
        Run { events, left, node }
    }
}

/// What stands between parentheses: nothing where no expression starts; else
/// an expression and its arguments.
pub open spec fn arguments_run(kinds: Seq<SyntaxKind>, left: nat) -> Run
    decreases left, 5nat,
{
    if starts_expr(peek_at(kinds, left)) {
        let first = expr_run(kinds, left);
        if first.left < left {
            app_tail(kinds, first.events, first.node, first.left)
        } else {
            Run { events: first.events, left: first.left, node: -1 }
        }
    } else {
        Run { events: Seq::empty(), left, node: -1 }
    }
}

/// `( .. )` in a node `PAREN_EXPR`. It applies at an opening parenthesis.
pub open spec fn paren_run(kinds: Seq<SyntaxKind>, left: nat) -> Run
    decreases left, 1nat,
{
    if peek_at(kinds, left) != SyntaxKind::L_PAREN {
        Run { events: Seq::empty(), left, node: 0 }
    } else {
        proof {
            lemma_bump_left(kinds, left);
        }
        let inner = arguments_run(kinds, bump_left(kinds, left));
        let close = expect_run(kinds, inner.left, SyntaxKind::R_PAREN);
        Run {
            events: node_run(
                SyntaxKind::PAREN_EXPR,
                seq![EventView::Advance] + inner.events + close.events,
            ),
            left: close.left,
            node: 0,
        }
    }
}

/// One turn of the loop of a block: a `let`, an expression (a statement
/// unless the block ends after it), or a token that is skipped.
pub open spec fn block_item(kinds: Seq<SyntaxKind>, left: nat) -> Run
    decreases left, 5nat,
{
    let kind = peek_at(kinds, left);
    if kind == SyntaxKind::LET_KW {
        let_run(kinds, left)
    } else if starts_expr(kind) {
        let value = expr_run(kinds, left);
        let after = peek_at(kinds, value.left);
        if after != SyntaxKind::R_BRACE && after != SyntaxKind::EOF {
            let semicolon = expect_run(kinds, value.left, SyntaxKind::SEMICOLON);
            Run {
                events: with_parent(value.events, value.node, value.events.len() as int) + seq![
                    open_of(SyntaxKind::EXPR_STMT),
                ] + semicolon.events + seq![EventView::Close],
                left: semicolon.left,
                node: -1,
            }
        } else {
            Run { events: value.events, left: value.left, node: -1 }
        }
    } else {
        unexpected_run(kinds, left)
    }
}

/// The turns of the loop of a block, up to the closing brace or the end.
pub open spec fn block_items(kinds: Seq<SyntaxKind>, left: nat) -> Run
    decreases left, 6nat,
{
    let kind = peek_at(kinds, left);
    if kind != SyntaxKind::R_BRACE && kind != SyntaxKind::EOF {
        let first = block_item(kinds, left);
        if first.left < left {
            let rest = block_items(kinds, first.left);
            Run { events: first.events + rest.events, left: rest.left, node: -1 }
        } else {
            Run { events: first.events, left: first.left, node: -1 }
        }
    } else {
        Run { events: Seq::empty(), left, node: -1 }
    }
}

/// `{ .. }` in a node `BLOCK_EXPR`. It applies at an opening brace.
pub open spec fn block_run(kinds: Seq<SyntaxKind>, left: nat) -> Run
    decreases left, 1nat,
{
    if peek_at(kinds, left) != SyntaxKind::L_BRACE {
        Run { events: Seq::empty(), left, node: 0 }
    } else {
        proof {
            lemma_bump_left(kinds, left);
        }
        let items = block_items(kinds, bump_left(kinds, left));
        let close = expect_run(kinds, items.left, SyntaxKind::R_BRACE);
        Run {
            events: node_run(
                SyntaxKind::BLOCK_EXPR,
                seq![EventView::Advance] + items.events + close.events,
            ),
            left: close.left,
            node: 0,
        }
    }
}

/// The value of a `let`: `= expression`, or nothing.
pub open spec fn let_value_run(kinds: Seq<SyntaxKind>, left: nat) -> Run
    decreases left, 0nat,
{
    if peek_at(kinds, left) == SyntaxKind::EQUAL {
        proof {
            lemma_bump_left(kinds, left);
        }
        let defn = expr_run(kinds, bump_left(kinds, left));
        Run { events: seq![EventView::Advance] + defn.events, left: defn.left, node: -1 }
    } else {
        Run { events: Seq::empty(), left, node: -1 }
    }
}

/// `let name params : type = value ;` in a node `LET_STMT`; the annotation
/// and the value may be missing. It applies at `let`.
pub open spec fn let_run(kinds: Seq<SyntaxKind>, left: nat) -> Run
    decreases left, 1nat,
{
    let start = bump_left(kinds, left);
    let name = expect_run(kinds, start, SyntaxKind::IDENT);
    let params = params_run(kinds, name.left);
    let annotation = annotation_run(kinds, params.left);
    if peek_at(kinds, left) != SyntaxKind::LET_KW {
        Run { events: Seq::empty(), left, node: 0 }
    } else {
        proof {
            lemma_bump_left(kinds, left);
        }
        let value = let_value_run(kinds, within(annotation.left, start));
        let semicolon = expect_run(kinds, value.left, SyntaxKind::SEMICOLON);
        Run {
            events: node_run(
                SyntaxKind::LET_STMT,
                seq![EventView::Advance] + name.events + params.events + annotation.events
                    + value.events + semicolon.events,
            ),
            left: semicolon.left,
            node: 0,
        }
    }
}

/// `open name ;` in a node `OPEN`.
pub open spec fn open_run(kinds: Seq<SyntaxKind>, left: nat) -> Run {
    let keyword = expect_run(kinds, left, SyntaxKind::OPEN_KW);
    let name = expect_run(kinds, keyword.left, SyntaxKind::IDENT);
    let semicolon = expect_run(kinds, name.left, SyntaxKind::SEMICOLON);
    Run {
        events: node_run(SyntaxKind::OPEN, keyword.events + name.events + semicolon.events),
        left: semicolon.left,
        node: 0,
    }
}

/// `type name = type ;` in a node `TYPE_DEFINITION`.
pub open spec fn type_definition_run(kinds: Seq<SyntaxKind>, left: nat) -> Run {
    let keyword = expect_run(kinds, left, SyntaxKind::TYPE_KW);
    let name = expect_run(kinds, keyword.left, SyntaxKind::IDENT);
    let equal = expect_run(kinds, name.left, SyntaxKind::EQUAL);
    let typ = type_run(kinds, equal.left);
    let semicolon = expect_run(kinds, typ.left, SyntaxKind::SEMICOLON);
    Run {
        events: node_run(
            SyntaxKind::TYPE_DEFINITION,
            keyword.events + name.events + equal.events + typ.events + semicolon.events,
        ),
        left: semicolon.left,
        node: 0,
    }
}

/// The `;` that ends the value of a definition. After an expression it has to
/// be there. Where no expression started after the `=`, the error "Expected
/// expression" stands for the whole body: the `;` is taken if it is there, and
/// is not asked for.
pub open spec fn def_end_run(kinds: Seq<SyntaxKind>, left: nat, started: bool) -> Run {
    if started {
        expect_run(kinds, left, SyntaxKind::SEMICOLON)
    } else {
        eat_run(kinds, left, SyntaxKind::SEMICOLON)
    }
}

/// The body of a definition: `= expression ;`, a block, or nothing.
pub open spec fn def_body_run(kinds: Seq<SyntaxKind>, left: nat) -> Run {
    let kind = peek_at(kinds, left);
    if kind == SyntaxKind::EQUAL {
        let start = bump_left(kinds, left);
        let value = expr_run(kinds, start);
        let semicolon = def_end_run(kinds, value.left, starts_expr(peek_at(kinds, start)));
        Run {
            events: node_run(
                SyntaxKind::DEF_BODY,
                seq![EventView::Advance] + value.events + semicolon.events,
            ),
            left: semicolon.left,
            node: 0,
        }
    } else if kind == SyntaxKind::L_BRACE {
        let block = block_run(kinds, left);
        Run { events: node_run(SyntaxKind::DEF_BODY, block.events), left: block.left, node: 0 }
    } else {
        Run { events: node_run(SyntaxKind::DEF_BODY, Seq::empty()), left, node: 0 }
    }
}

/// `def name params : type body` in a node `DEFINITION`; the annotation may
/// be missing.
pub open spec fn def_run(kinds: Seq<SyntaxKind>, left: nat) -> Run {
    let keyword = expect_run(kinds, left, SyntaxKind::DEF_KW);
    let name = expect_run(kinds, keyword.left, SyntaxKind::IDENT);
    let params = params_run(kinds, name.left);
    let annotation = annotation_run(kinds, params.left);
    let body = def_body_run(kinds, annotation.left);
    Run {
        events: node_run(
            SyntaxKind::DEFINITION,
            keyword.events + name.events + params.events + annotation.events + body.events,
        ),
        left: body.left,
        node: 0,
    }
}

/// The kinds at which recovery from a malformed declaration stops.
pub open spec fn item_stop() -> Set<SyntaxKind> {
    Set::new(|k: SyntaxKind| module_item_stop(k))
}

/// A declaration: a definition at `def`, a type definition at `type`, an
/// `open` at `open`. Anywhere else the tokens up to the next start or end of a
/// declaration are skipped into an `ERROR` node, and a `;` or `}` that ends the
/// skipped part is consumed with it.
pub open spec fn module_item_run(kinds: Seq<SyntaxKind>, left: nat) -> Run {
    let kind = peek_at(kinds, left);
    if kind == SyntaxKind::DEF_KW {
        def_run(kinds, left)
    } else if kind == SyntaxKind::TYPE_KW {
        type_definition_run(kinds, left)
    } else if kind == SyntaxKind::OPEN_KW {
        open_run(kinds, left)
    } else {
        let skipped = recover_run(kinds, left, item_stop(), "Expected declaration"@);
        if ends_item(peek_at(kinds, skipped.left)) {
            Run {
                events: skipped.events + seq![EventView::Advance],
                left: bump_left(kinds, skipped.left),
                node: -1,
            }
        } else {
            Run { events: skipped.events, left: skipped.left, node: -1 }
        }
    }
}

/// The declarations one after the other, up to the end of the input.
pub open spec fn module_items(kinds: Seq<SyntaxKind>, left: nat) -> Run
    decreases left,
{
    if peek_at(kinds, left) != SyntaxKind::EOF {
        let first = module_item_run(kinds, left);
        if first.left < left {
            let rest = module_items(kinds, first.left);
            Run { events: first.events + rest.events, left: rest.left, node: -1 }
        } else {
            Run { events: first.events, left: first.left, node: -1 }
        }
    } else {
        Run { events: Seq::empty(), left, node: -1 }
    }
}

/// A whole file: its declarations in a node `MODULE`.
pub open spec fn module_run(kinds: Seq<SyntaxKind>, left: nat) -> Run {
    let items = module_items(kinds, left);
    Run { events: node_run(SyntaxKind::MODULE, items.events), left: items.left, node: 0 }
}

/// What is left of the input after the one node of another start symbol: it
/// is skipped into an `ERROR` node, and that node and the one before it get a
/// common parent of kind `ERROR`. Nothing is recorded where nothing is left.
pub open spec fn rest_run(kinds: Seq<SyntaxKind>, first: Run) -> Run {
    if peek_at(kinds, first.left) != SyntaxKind::EOF {
        let skipped = recover_run(kinds, first.left, Set::empty(), "Expected end of input"@);
        Run {
            events: with_parent(first.events, first.node, first.events.len() as int) + seq![
                open_of(SyntaxKind::ERROR),
            ] + skipped.events + seq![EventView::Close],
            left: skipped.left,
            node: first.events.len() as int,
        }
    } else {
        first
    }
}

} // verus!
