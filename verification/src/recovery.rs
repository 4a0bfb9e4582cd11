//! The boundary of recovery on whole texts: what follows the end of a
//! declaration, malformed or not, is lexed and parsed as if it stood alone.

use vstd::prelude::*;
use crate::{parsed_errors, parsed_events, parsed_walk};
use crate::event::EventView;
use crate::grammar::PrefixEntryPoint;
use crate::grammar::anchor::{anchored, lemma_anchored_concat, lemma_module_item_anchored, on_next};
use crate::grammar::frame::{lemma_module_items_frame, lemma_tail_of_concat};
use crate::grammar::module_item::{ends_item, module_item_stop};
use crate::grammar::rules::{
    bump_left, item_stop, module_item_run, module_items, node_run, open_of, peek_at, Run, skip_run,
};
use crate::grammar::tidy::{
    has_link, lemma_items_continue, lemma_module_item_tidy, lemma_naive_concat, lemma_parse_tidy,
    lemma_tidy_concat, lemma_tidy_empty, level, link_target, linked, tidy,
};
use crate::lexer::{lemma_run_end, lex_from, lex_spec, run_end, token_end, token_kind, TokenView};
use crate::placed::{all_trivia, lemma_loose, lemma_placed, loose};
use crate::profile::{
    advances, lemma_lex_kinds, lemma_parse_walk, lemma_replay_cursor, lemma_replay_exact,
    lemma_replay_sourced, naive, pending, sourced,
};
use crate::resume::{lemma_skip_shift, lemma_walk_resumes, moved, shifted};
use crate::sink::{apply_event, chain_targets, offset_at, Replay, replay, view_kinds};
use crate::source::{lemma_skip_trivia, remaining, skip_trivia};
use crate::syntax_kind::SyntaxKind;
use crate::text::byte_len;

verus! {

/// Whether the tokens of the text from `start` on are cut at `at`: `at` is
/// `start`, or one of these tokens ends there.
pub open spec fn cut_at(chars: Seq<char>, start: int, at: int) -> bool
    decreases chars.len() - start,
{
    if start == at {
        0 <= at <= chars.len()
    } else if 0 <= start < at <= chars.len() {
        let end = token_end(chars, start);
        start < end <= at && cut_at(chars, end, at)
    } else {
        false
    }
}

/// The tokens of the text from `start` up to `at`.
pub open spec fn tokens_between(chars: Seq<char>, start: int, at: int) -> Seq<TokenView>
    decreases chars.len() - start,
{
    if 0 <= start < at <= chars.len() {
        let end = token_end(chars, start);
        if start < end <= at {
            seq![
                TokenView {
                    kind: token_kind(chars.subrange(start, end)),
                    text: chars.subrange(start, end),
                },
            ] + tokens_between(chars, end, at)
        } else {
            Seq::empty()
        }
    } else {
        Seq::empty()
    }
}

/// Where the tokens are cut at `at`, they are the tokens up to `at` followed
/// by the tokens from `at` on.
pub proof fn lemma_lex_cut(chars: Seq<char>, start: int, at: int)
    requires
        cut_at(chars, start, at),
    ensures
        lex_from(chars, start) == tokens_between(chars, start, at) + lex_from(chars, at),
    decreases chars.len() - start,
{
    if start == at {
        assert(tokens_between(chars, start, at) + lex_from(chars, at) =~= lex_from(chars, at));
    } else {
        let end = token_end(chars, start);
        lemma_lex_cut(chars, end, at);
        let first = seq![
            TokenView {
                kind: token_kind(chars.subrange(start, end)),
                text: chars.subrange(start, end),
            },
        ];
        assert(first + (tokens_between(chars, end, at) + lex_from(chars, at)) =~= (first
            + tokens_between(chars, end, at)) + lex_from(chars, at));
    }
}

proof fn lemma_run_end_shift(before: Seq<char>, rest: Seq<char>, first: char, from: int)
    requires
        0 <= from <= rest.len(),
    ensures
        run_end(before + rest, first, before.len() + from) == before.len() + run_end(
            rest,
            first,
            from,
        ),
    decreases rest.len() - from,
{
    let whole = before + rest;
    if from < rest.len() {
        assert(whole[before.len() + from] == rest[from]);
        if crate::lexer::continues(first, rest[from]) {
            lemma_run_end_shift(before, rest, first, from + 1);
        }
    }
}

/// The tokens from a place on depend on the text from that place on only.
pub proof fn lemma_lex_shift(before: Seq<char>, rest: Seq<char>, start: int)
    requires
        0 <= start <= rest.len(),
    ensures
        lex_from(before + rest, before.len() + start) == lex_from(rest, start),
    decreases rest.len() - start,
{
    let whole = before + rest;
    let at = before.len() + start;
    if start < rest.len() {
        assert(whole[at] == rest[start]);
        if start + 1 < rest.len() {
            assert(whole[at + 1] == rest[start + 1]);
        }
        lemma_run_end_shift(before, rest, rest[start], start + 1);
        lemma_run_end(rest, rest[start], start + 1);
        let end = token_end(rest, start);
        assert(token_end(whole, at) == before.len() + end);
        if start < end <= rest.len() {
            assert(whole.subrange(at, before.len() + end) =~= rest.subrange(start, end));
            lemma_lex_shift(before, rest, end);
        }
    }
}

/// The kinds of the tokens of a text that is cut where `rest` begins end with
/// the kinds of the tokens of `rest`.
pub proof fn lemma_kinds_of_rest(before: Seq<char>, rest: Seq<char>)
    requires
        cut_at(before + rest, 0, before.len() as int),
    ensures
        view_kinds(lex_spec(before + rest)) == view_kinds(
            tokens_between(before + rest, 0, before.len() as int),
        ) + view_kinds(lex_spec(rest)),
{
    let whole = before + rest;
    lemma_lex_cut(whole, 0, before.len() as int);
    lemma_lex_shift(before, rest, 0);
    let head = tokens_between(whole, 0, before.len() as int);
    assert(view_kinds(head + lex_spec(rest)) =~= view_kinds(head) + view_kinds(lex_spec(rest)));
}

proof fn lemma_cut_kept(before: Seq<char>, rest: Seq<char>, start: int, at: int)
    requires
        cut_at(before, start, at),
        0 <= start,
        at < before.len(),
    ensures
        cut_at(before + rest, start, at),
    decreases before.len() - start,
{
    let whole = before + rest;
    if start != at {
        let end = token_end(before, start);
        assert(whole[start] == before[start]);
        assert(whole[start + 1] == before[start + 1]);
        lemma_run_end_kept(before, rest, before[start], start + 1);
        assert(token_end(whole, start) == end);
        lemma_cut_kept(before, rest, end, at);
    }
}

proof fn lemma_run_end_kept(before: Seq<char>, rest: Seq<char>, first: char, from: int)
    requires
        0 <= from <= before.len(),
        run_end(before, first, from) < before.len(),
    ensures
        run_end(before + rest, first, from) == run_end(before, first, from),
    decreases before.len() - from,
{
    let whole = before + rest;
    if from < before.len() {
        assert(whole[from] == before[from]);
        if crate::lexer::continues(first, before[from]) {
            lemma_run_end_kept(before, rest, first, from + 1);
        }
    }
}

proof fn lemma_cut_trans(chars: Seq<char>, start: int, mid: int, at: int)
    requires
        cut_at(chars, start, mid),
        cut_at(chars, mid, at),
        0 <= start,
    ensures
        cut_at(chars, start, at),
    decreases chars.len() - start,
{
    if start != mid {
        let end = token_end(chars, start);
        lemma_cut_trans(chars, end, mid, at);
        if mid != at {
            assert(mid < at);
        }
    }
}

/// A `;` or a `}` that is a token of its own ends a token where the text
/// ends: whatever is appended to the text, the tokens are cut there.
pub proof fn lemma_cut_after_end(before: Seq<char>, rest: Seq<char>)
    requires
        before.len() >= 1,
        before.last() == ';' || before.last() == '}',
        cut_at(before, 0, before.len() - 1),
    ensures
        cut_at(before + rest, 0, before.len() as int),
{
    let whole = before + rest;
    let last = before.len() - 1;
    lemma_cut_kept(before, rest, 0, last);
    assert(whole[last] == before[last]);
    assert(token_end(whole, last) == last + 1) by {
        assert(!crate::lexer::continues(whole[last], whole[last]));
        reveal_with_fuel(run_end, 2);
    }
    assert(cut_at(whole, last + 1, last + 1));
    assert(cut_at(whole, last, last + 1));
    lemma_cut_trans(whole, 0, last, last + 1);
}

/// The boundary of recovery. Where a token of the text ends at the place at
/// which `rest` begins, the declarations are parsed, from any token of `rest`
/// on, as they are parsed in `rest` alone: the same events, and so the same
/// nodes, tokens and diagnostics in the same order, whatever stands before
/// `rest`.
pub proof fn lemma_rest_parsed_alone(before: Seq<char>, rest: Seq<char>, left: nat)
    requires
        cut_at(before + rest, 0, before.len() as int),
        left <= view_kinds(lex_spec(rest)).len(),
    ensures
        module_items(view_kinds(lex_spec(before + rest)), left) == module_items(
            view_kinds(lex_spec(rest)),
            left,
        ),
{
    lemma_kinds_of_rest(before, rest);
    let head = view_kinds(tokens_between(before + rest, 0, before.len() as int));
    let tail = view_kinds(lex_spec(rest));
    lemma_tail_of_concat(head, tail, left);
    lemma_module_items_frame(head + tail, tail, left);
}

/// The first `count` declarations from `left` tokens on, malformed or not;
/// fewer where the input ends before.
pub open spec fn first_items(kinds: Seq<SyntaxKind>, left: nat, count: nat) -> Run
    decreases count,
{
    if count == 0 || peek_at(kinds, left) == SyntaxKind::EOF {
        Run { events: Seq::empty(), left, node: -1 }
    } else {
        let first = module_item_run(kinds, left);
        let others = first_items(kinds, first.left, (count - 1) as nat);
        Run { events: first.events + others.events, left: others.left, node: -1 }
    }
}

/// The declarations are the first of them, followed by the declarations from
/// where these end; and the events of the first are tidy.
pub proof fn lemma_first_items(kinds: Seq<SyntaxKind>, left: nat, count: nat)
    ensures
        tidy(kinds, left, first_items(kinds, left, count).events, first_items(kinds, left, count).left),
        module_items(kinds, left).events == first_items(kinds, left, count).events + module_items(
            kinds,
            first_items(kinds, left, count).left,
        ).events,
    decreases count,
{
    let run = first_items(kinds, left, count);
    if count == 0 || peek_at(kinds, left) == SyntaxKind::EOF {
        lemma_tidy_empty(kinds, left);
        assert(run.events + module_items(kinds, left).events =~= module_items(kinds, left).events);
    } else {
        let first = module_item_run(kinds, left);
        let others = first_items(kinds, first.left, (count - 1) as nat);
        lemma_items_continue(kinds, left);
        lemma_module_item_tidy(kinds, left);
        lemma_first_items(kinds, first.left, (count - 1) as nat);
        lemma_tidy_concat(kinds, left, first.events, first.left, others.events, others.left);
        assert(first.events + (others.events + module_items(kinds, others.left).events) =~= (
        first.events + others.events) + module_items(kinds, others.left).events);
    }
}

/// The first declarations of a text.
pub open spec fn first_declarations(text: Seq<char>, count: nat) -> Run {
    let kinds = view_kinds(lex_spec(text));
    first_items(kinds, remaining(kinds, 0), count)
}

/// Declarations, malformed or not, that end where `rest` begins do not touch
/// the declarations in `rest`: the events of the whole text are those of these
/// declarations, followed by the events of the declarations of `rest` as
/// `rest` alone gives them, in the node `MODULE`.
pub proof fn lemma_recovery_boundary(before: Seq<char>, rest: Seq<char>, count: nat)
    requires
        cut_at(before + rest, 0, before.len() as int),
        first_declarations(before + rest, count).left == remaining(view_kinds(lex_spec(rest)), 0),
    ensures
        ({
            let alone = view_kinds(lex_spec(rest));
            let first = first_declarations(before + rest, count);
            let others = module_items(alone, remaining(alone, 0));
            &&& parsed_events(before + rest, PrefixEntryPoint::Module) == node_run(
                SyntaxKind::MODULE,
                first.events + others.events,
            )
            &&& parsed_events(rest, PrefixEntryPoint::Module) == node_run(
                SyntaxKind::MODULE,
                others.events,
            )
        }),
{
    let kinds = view_kinds(lex_spec(before + rest));
    let alone = view_kinds(lex_spec(rest));
    let start = remaining(kinds, 0);
    lemma_first_items(kinds, start, count);
    crate::source::lemma_skip_trivia(alone, 0);
    lemma_rest_parsed_alone(before, rest, remaining(alone, 0));
}

/// The replay of a text when its first `count` declarations are over: the
/// steps and the diagnostics up to there.
pub open spec fn after_first(text: Seq<char>, count: nat) -> Replay {
    replay(
        parsed_events(text, PrefixEntryPoint::Module),
        lex_spec(text),
        1 + first_declarations(text, count).events.len(),
    )
}

/// How many steps the walk through the tree of a text takes before its first
/// declaration: into the node `MODULE`, and over the trivia at the start.
pub open spec fn lead(text: Seq<char>) -> nat {
    replay(parsed_events(text, PrefixEntryPoint::Module), lex_spec(text), 1).steps.len()
}

proof fn lemma_pending_none(started: Set<int>, from: int, to: int)
    requires
        forall|t: int| from <= t < to ==> !started.contains(t),
    ensures
        pending(started, from, to) == 0,
    decreases to - from,
{
    if from < to {
        lemma_pending_none(started, from + 1, to);
    }
}

proof fn lemma_started_before(events: Seq<EventView>, started: Set<int>, bound: int, t: int)
    requires
        linked(events),
        sourced(events, started, bound),
        forall|i: int| 0 <= i < bound && has_link(events, i) ==> link_target(events, i) < bound,
        started.contains(t),
    ensures
        t < bound,
    decreases t,
{
    let i = choose|i: int|
        has_link(events, i) && link_target(events, i) == t && (i < bound || started.contains(i));
    if i >= bound {
        lemma_started_before(events, started, bound, i);
    }
}

/// The replay after the opening of the outermost node: one node is open,
/// none is started early, nothing is recorded, and the trivia at the start is
/// taken.
proof fn lemma_begun(events: Seq<EventView>, tokens: Seq<TokenView>, kind: SyntaxKind)
    requires
        events.len() >= 1,
        events[0] == open_of(kind),
    ensures
        replay(events, tokens, 1).cursor == skip_trivia(view_kinds(tokens), 0),
        replay(events, tokens, 1).depth == 1,
        replay(events, tokens, 1).errors.len() == 0,
        replay(events, tokens, 1).prev_end == 0,
        forall|t: int| !replay(events, tokens, 1).started.contains(t),
{
    reveal_with_fuel(replay, 2);
    assert(chain_targets(events, 0) =~= Seq::<int>::empty());
    let begun = apply_event(replay(events, tokens, 0), events, tokens, 0);
    assert(begun.started =~= Set::<int>::empty());
}

/// The replay after the events `inner` that follow the opening of the
/// outermost node, where `inner` is tidy: one node is open, no opening after
/// `inner` is started early, and the cursor stands where `inner` ends.
proof fn lemma_front_replayed(
    kind: SyntaxKind,
    inner: Seq<EventView>,
    back: Seq<EventView>,
    tokens: Seq<TokenView>,
    to: nat,
)
    requires
        linked(seq![open_of(kind)] + inner + back),
        level(seq![open_of(kind)] + inner + back),
        tidy(view_kinds(tokens), remaining(view_kinds(tokens), 0), inner, to),
    ensures
        ({
            let whole = seq![open_of(kind)] + inner + back;
            let r = replay(whole, tokens, 1 + inner.len());
            &&& r.depth == 1
            &&& forall|t: int| 1 + inner.len() <= t ==> !r.started.contains(t)
            &&& remaining(view_kinds(tokens), r.cursor) == to
            &&& r.cursor == skip_trivia(view_kinds(tokens), r.cursor)
            &&& 0 <= r.cursor <= tokens.len()
        }),
{
    let open = seq![open_of(kind)];
    let whole = open + inner + back;
    let kinds = view_kinds(tokens);
    let mark = 1 + inner.len() as int;
    let r = replay(whole, tokens, 1 + inner.len());
    let front = open + inner;
    lemma_naive_concat(front, back, mark);
    lemma_naive_concat(open, inner, mark);
    reveal_with_fuel(naive, 2);
    reveal_with_fuel(advances, 2);
    assert(naive(open, 1) == 1);
    assert(advances(open, 1) == 0);
    assert(advances(whole, mark) == advances(inner, inner.len() as int));
    assert(naive(whole, mark) == 1);
    lemma_replay_cursor(whole, tokens, 1 + inner.len());
    lemma_replay_sourced(whole, tokens, 1 + inner.len());
    assert forall|i: int| 0 <= i < mark && has_link(whole, i) implies link_target(whole, i)
        < mark by {
        if i >= 1 {
            assert(whole[i] == inner[i - 1]);
            assert(has_link(inner, i - 1));
            assert(link_target(inner, i - 1) < inner.len());
        }
    }
    assert forall|t: int| mark <= t implies !r.started.contains(t) by {
        if r.started.contains(t) {
            lemma_started_before(whole, r.started, mark, t);
        }
    }
    lemma_pending_none(r.started, mark, whole.len() as int);
    lemma_replay_exact(whole, tokens, 1 + inner.len());
}

/// The boundary of recovery in the tree. Where the first declarations of a
/// text, malformed or not, end at the place at which `rest` begins, the walk
/// through the tree of the text goes on from there as the walk through the tree
/// of `rest` goes on after the trivia at its start: the same nodes with the
/// same tokens, in the same order and nesting. The diagnostics after that place
/// are those of `rest`, message by message; where `rest` has none, the
/// diagnostics of the text are those of its first declarations.
pub proof fn lemma_recovery_walk(before: Seq<char>, rest: Seq<char>, count: nat)
    requires
        cut_at(before + rest, 0, before.len() as int),
        first_declarations(before + rest, count).left == remaining(view_kinds(lex_spec(rest)), 0),
    ensures
        parsed_walk(rest, PrefixEntryPoint::Module).len() >= lead(rest),
        parsed_walk(before + rest, PrefixEntryPoint::Module) == after_first(
            before + rest,
            count,
        ).steps + parsed_walk(rest, PrefixEntryPoint::Module).skip(lead(rest) as int),
        parsed_errors(before + rest, PrefixEntryPoint::Module).len() == after_first(
            before + rest,
            count,
        ).errors.len() + parsed_errors(rest, PrefixEntryPoint::Module).len(),
        parsed_errors(before + rest, PrefixEntryPoint::Module).take(
            after_first(before + rest, count).errors.len() as int,
        ) == after_first(before + rest, count).errors,
        forall|k: int|
            0 <= k < parsed_errors(rest, PrefixEntryPoint::Module).len() ==> parsed_errors(
                before + rest,
                PrefixEntryPoint::Module,
            )[after_first(before + rest, count).errors.len() + k].message == (
            #[trigger] parsed_errors(rest, PrefixEntryPoint::Module)[k]).message,
        forall|k: int|
            0 <= k < parsed_errors(rest, PrefixEntryPoint::Module).len() ==> moved(
                parsed_errors(before + rest, PrefixEntryPoint::Module)[after_first(
                    before + rest,
                    count,
                ).errors.len() + k],
                #[trigger] parsed_errors(rest, PrefixEntryPoint::Module)[k],
                byte_len(before) as int,
            ),
{
    let text = before + rest;
    let tokens = lex_spec(text);
    let tail = lex_spec(rest);
    let head = tokens_between(text, 0, before.len() as int);
    let kinds = view_kinds(tokens);
    let alone = view_kinds(tail);
    let start = remaining(kinds, 0);
    let first = first_items(kinds, start, count);
    let others = module_items(alone, remaining(alone, 0));
    let whole = parsed_events(text, PrefixEntryPoint::Module);
    let second = parsed_events(rest, PrefixEntryPoint::Module);
    let shift = first.events.len();
    lemma_recovery_boundary(before, rest, count);
    lemma_lex_cut(text, 0, before.len() as int);
    lemma_lex_shift(before, rest, 0);
    assert(tokens == head + tail);
    assert(kinds =~= view_kinds(head) + alone);
    let open = seq![open_of(SyntaxKind::MODULE)];
    let close = seq![EventView::Close];
    let back = others.events + close;
    assert(whole =~= open + first.events + back);
    assert(second =~= open + others.events + close);
    lemma_shifted(open, first.events, back);
    lemma_begun(second, tail, SyntaxKind::MODULE);
    lemma_parse_tidy(kinds, start, PrefixEntryPoint::Module);
    lemma_first_items(kinds, start, count);
    lemma_front_replayed(SyntaxKind::MODULE, first.events, back, tokens, first.left);
    let r1 = replay(whole, tokens, 1 + shift);
    let r2 = replay(second, tail, 1);
    lemma_skip_trivia(alone, 0);
    assert(r1.cursor == head.len() + r2.cursor);
    assert(r1.steps =~= r1.steps + r2.steps.skip(r2.steps.len() as int));
    assert(r1.errors.take(r1.errors.len() as int) =~= r1.errors);
    lemma_walk_resumes(whole, second, shift, head, tail);
    lemma_bytes_between(text, 0, before.len() as int);
    assert(text.subrange(0, before.len() as int) =~= before);
    lemma_offset_prefix(head, tail, head.len() as int);
}

/// The offset at a place among the tokens depends on the tokens before it
/// only.
proof fn lemma_offset_prefix(head: Seq<TokenView>, tail: Seq<TokenView>, i: int)
    requires
        0 <= i <= head.len(),
    ensures
        offset_at(head + tail, i) == offset_at(head, i),
    decreases i,
{
    if i > 0 {
        lemma_offset_prefix(head, tail, i - 1);
        assert((head + tail)[i - 1] == head[i - 1]);
    }
}

proof fn lemma_offset_first(first: TokenView, others: Seq<TokenView>, i: int)
    requires
        0 <= i <= others.len(),
    ensures
        offset_at(seq![first] + others, i + 1) == byte_len(first.text) + offset_at(others, i),
    decreases i,
{
    let all = seq![first] + others;
    if i > 0 {
        lemma_offset_first(first, others, i - 1);
        assert(all[i] == others[i - 1]);
    } else {
        reveal_with_fuel(offset_at, 2);
        assert(all[0] == first);
    }
}

/// The tokens of a text up to a place at which the tokens are cut are as long
/// as the text up to there.
proof fn lemma_bytes_between(chars: Seq<char>, start: int, at: int)
    requires
        cut_at(chars, start, at),
        0 <= start,
    ensures
        offset_at(
            tokens_between(chars, start, at),
            tokens_between(chars, start, at).len() as int,
        ) == byte_len(chars.subrange(start, at)),
    decreases chars.len() - start,
{
    if start == at {
        assert(chars.subrange(start, at) =~= Seq::<char>::empty());
    } else {
        let end = token_end(chars, start);
        lemma_bytes_between(chars, end, at);
        let first = TokenView {
            kind: token_kind(chars.subrange(start, end)),
            text: chars.subrange(start, end),
        };
        let others = tokens_between(chars, end, at);
        lemma_offset_first(first, others, others.len() as int);
        crate::text::lemma_encode_concat(chars.subrange(start, end), chars.subrange(end, at));
        assert(chars.subrange(start, end) + chars.subrange(end, at) =~= chars.subrange(start, at));
    }
}

/// What follows the first events of a sequence stands as far on as these
/// events are long.
proof fn lemma_shifted(open: Seq<EventView>, inner: Seq<EventView>, back: Seq<EventView>)
    requires
        open.len() == 1,
    ensures
        shifted(open + inner + back, open + back, inner.len()),
{
    let whole = open + inner + back;
    let alone = open + back;
    assert forall|i: int| 1 <= i < alone.len() implies whole[i + inner.len()] == #[trigger] alone[i] by {
        assert(alone[i] == back[i - 1]);
        assert(whole[i + inner.len()] == back[i - 1]);
    }
}

/// The first declarations consume the tokens that their diagnostics are
/// placed on.
proof fn lemma_first_items_anchored(kinds: Seq<SyntaxKind>, left: nat, count: nat)
    ensures
        anchored(first_items(kinds, left, count).events),
    decreases count,
{
    if !(count == 0 || peek_at(kinds, left) == SyntaxKind::EOF) {
        let first = module_item_run(kinds, left);
        lemma_module_item_anchored(kinds, left);
        lemma_first_items_anchored(kinds, first.left, (count - 1) as nat);
        lemma_anchored_concat(
            first.events,
            first_items(kinds, first.left, (count - 1) as nat).events,
        );
    }
}

/// The diagnostics of the first declarations of a text lie in these
/// declarations: where the declarations end at the place at which `rest`
/// begins, none of their diagnostics reaches beyond that place.
pub proof fn lemma_first_diagnostics(before: Seq<char>, rest: Seq<char>, count: nat)
    requires
        cut_at(before + rest, 0, before.len() as int),
        first_declarations(before + rest, count).left == remaining(view_kinds(lex_spec(rest)), 0),
    ensures
        forall|k: int|
            0 <= k < after_first(before + rest, count).errors.len() ==> (#[trigger] after_first(
                before + rest,
                count,
            ).errors[k]).end <= byte_len(before),
{
    let text = before + rest;
    let tokens = lex_spec(text);
    let tail = lex_spec(rest);
    let head = tokens_between(text, 0, before.len() as int);
    let kinds = view_kinds(tokens);
    let alone = view_kinds(tail);
    let start = remaining(kinds, 0);
    let first = first_items(kinds, start, count);
    let others = module_items(alone, remaining(alone, 0));
    let whole = parsed_events(text, PrefixEntryPoint::Module);
    let mark = 1 + first.events.len() as int;
    lemma_recovery_boundary(before, rest, count);
    lemma_lex_cut(text, 0, before.len() as int);
    lemma_lex_shift(before, rest, 0);
    assert(tokens == head + tail);
    assert(kinds =~= view_kinds(head) + alone);
    let open = seq![open_of(SyntaxKind::MODULE)];
    let back = others.events + seq![EventView::Close];
    assert(whole =~= open + first.events + back);
    // No diagnostic waits for its token when the first declarations are over.
    lemma_first_items_anchored(kinds, start, count);
    if loose(whole, mark) {
        lemma_loose(whole, mark);
        let i = choose|i: int|
            0 <= i < mark && on_next(whole[i]) && forall|j: int|
                i < j < mark ==> !(#[trigger] whole[j] is Advance);
        assert(whole[i] == first.events[i - 1]);
        let j = choose|j: int| i - 1 < j < first.events.len() && first.events[j] is Advance;
        assert(whole[j + 1] == first.events[j]);
    }
    // Every `Advance` finds a token.
    lemma_parse_walk(text, PrefixEntryPoint::Module);
    lemma_placed(whole, tokens, (1 + first.events.len()) as nat);
    // The cursor stands after the trivia at the start of `rest`.
    lemma_parse_tidy(kinds, start, PrefixEntryPoint::Module);
    lemma_first_items(kinds, start, count);
    lemma_front_replayed(SyntaxKind::MODULE, first.events, back, tokens, first.left);
    let r = replay(whole, tokens, (1 + first.events.len()) as nat);
    lemma_skip_trivia(alone, 0);
    assert(r.cursor == head.len() + skip_trivia(alone, 0));
    assert(all_trivia(tokens, head.len() as int, r.cursor)) by {
        assert forall|x: int| head.len() <= x < r.cursor implies (
        #[trigger] tokens[x]).kind.spec_is_trivia() by {
            assert(tokens[x] == tail[x - head.len()]);
            assert(alone[x - head.len()].spec_is_trivia());
        }
    }
    lemma_bytes_between(text, 0, before.len() as int);
    assert(text.subrange(0, before.len() as int) =~= before);
    lemma_offset_prefix(head, tail, head.len() as int);
    assert(r.prev_end <= byte_len(before));
}

/// A text in which no declaration starts, and which ends with the first `;`
/// or `}` in it: what recovery skips as one malformed declaration.
pub open spec fn junk(text: Seq<char>) -> bool {
    let kinds = view_kinds(lex_spec(text));
    &&& kinds.len() >= 1
    &&& ends_item(kinds.last())
    &&& forall|i: int| 0 <= i < kinds.len() - 1 ==> !module_item_stop(#[trigger] kinds[i])
}

proof fn lemma_token_end(chars: Seq<char>, start: int)
    requires
        0 <= start < chars.len(),
    ensures
        start < token_end(chars, start) <= chars.len(),
{
    lemma_run_end(chars, chars[start], start + 1);
}

/// The tokens of a text are cut where its last token begins, and the last
/// token reaches to the end of the text.
proof fn lemma_cut_last(chars: Seq<char>, start: int)
    requires
        0 <= start < chars.len(),
    ensures
        ({
            let tokens = lex_from(chars, start);
            let at = chars.len() - tokens.last().text.len();
            &&& tokens.len() >= 1
            &&& start <= at < chars.len()
            &&& cut_at(chars, start, at)
            &&& tokens.last().text == chars.subrange(at, chars.len() as int)
            &&& tokens.last().kind == token_kind(tokens.last().text)
            &&& token_end(chars, at) == chars.len()
        }),
    decreases chars.len() - start,
{
    lemma_token_end(chars, start);
    let end = token_end(chars, start);
    let first = TokenView {
        kind: token_kind(chars.subrange(start, end)),
        text: chars.subrange(start, end),
    };
    let others = lex_from(chars, end);
    assert(lex_from(chars, start) == seq![first] + others);
    if end < chars.len() {
        lemma_cut_last(chars, end);
        assert((seq![first] + others).last() == others.last());
    } else {
        assert(others.len() == 0);
        assert((seq![first] + others).last() == first);
    }
}

/// The tokens of a text that ends with a `;` or `}` of its own stay its
/// tokens when something is appended to the text.
proof fn lemma_lex_prefix(before: Seq<char>, rest: Seq<char>, start: int)
    requires
        before.len() >= 1,
        before.last() == ';' || before.last() == '}',
        0 <= start,
        cut_at(before, start, before.len() - 1),
    ensures
        tokens_between(before + rest, start, before.len() as int) == lex_from(before, start),
    decreases before.len() - start,
{
    let whole = before + rest;
    let last = before.len() - 1;
    assert(whole[start] == before[start]);
    if start == last {
        assert(!crate::lexer::continues(before[last], before[last]));
        reveal_with_fuel(run_end, 2);
        assert(token_end(whole, last) == last + 1);
        assert(token_end(before, last) == last + 1);
        assert(whole.subrange(last, last + 1) =~= before.subrange(last, last + 1));
        assert(tokens_between(whole, last + 1, last + 1) =~= Seq::<TokenView>::empty());
        assert(lex_from(before, last + 1) =~= Seq::<TokenView>::empty());
    } else {
        let end = token_end(before, start);
        assert(whole[start + 1] == before[start + 1]);
        lemma_run_end_kept(before, rest, before[start], start + 1);
        assert(token_end(whole, start) == end);
        assert(whole.subrange(start, end) =~= before.subrange(start, end));
        lemma_lex_prefix(before, rest, end);
    }
}

proof fn lemma_skip_junk(kinds: Seq<SyntaxKind>, count: int, at: int)
    requires
        1 <= count <= kinds.len(),
        ends_item(kinds[count - 1]),
        forall|i: int|
            0 <= i < count - 1 ==> !module_item_stop(#[trigger] kinds[i]) && kinds[i]
                != SyntaxKind::EOF,
        0 <= at <= count - 1,
        at == skip_trivia(kinds, at),
    ensures
        skip_run(kinds, (kinds.len() - at) as nat, item_stop()).left == kinds.len() - (count - 1),
    decreases count - at,
{
    let left = (kinds.len() - at) as nat;
    assert(peek_at(kinds, left) == kinds[at]);
    if at == count - 1 {
        assert(item_stop().contains(kinds[at]));
    } else {
        assert(!item_stop().contains(kinds[at]));
        lemma_skip_trivia(kinds, at + 1);
        let next = skip_trivia(kinds, at + 1);
        if next > count - 1 {
            assert(kinds[count - 1].spec_is_trivia());
        }
        lemma_skip_junk(kinds, count, next);
    }
}

/// Recovery skips such a text as one malformed declaration, and ends where
/// the text ends, whatever follows it.
pub proof fn lemma_junk_skipped(before: Seq<char>, rest: Seq<char>)
    requires
        junk(before),
    ensures
        cut_at(before + rest, 0, before.len() as int),
        first_declarations(before + rest, 1).left == remaining(view_kinds(lex_spec(rest)), 0),
{
    let whole = before + rest;
    let tokens = lex_spec(before);
    let g = view_kinds(tokens);
    let w = view_kinds(lex_spec(rest));
    assert(tokens.len() == g.len());
    assert(before.len() >= 1);
    lemma_cut_last(before, 0);
    let at = before.len() - tokens.last().text.len();
    assert(g.last() == tokens.last().kind);
    assert(tokens.last().text[0] == before[at]);
    assert(before[at] == ';' || before[at] == '}');
    assert(!crate::lexer::continues(before[at], before[at]));
    reveal_with_fuel(run_end, 2);
    assert(at == before.len() - 1);
    lemma_cut_after_end(before, rest);
    lemma_lex_prefix(before, rest, 0);
    lemma_kinds_of_rest(before, rest);
    let kinds = view_kinds(lex_spec(whole));
    assert(kinds == g + w);
    lemma_lex_kinds(before, 0);
    assert forall|i: int| 0 <= i < g.len() - 1 implies !module_item_stop(#[trigger] kinds[i])
        && kinds[i] != SyntaxKind::EOF by {
        assert(kinds[i] == g[i]);
        assert(g[i] == tokens[i].kind);
    }
    assert(kinds[g.len() - 1] == g.last());
    lemma_skip_trivia(kinds, 0);
    let start = skip_trivia(kinds, 0);
    if start > g.len() - 1 {
        assert(kinds[g.len() - 1].spec_is_trivia());
    }
    lemma_skip_junk(kinds, g.len() as int, start);
    let left = remaining(kinds, 0);
    assert(peek_at(kinds, left) == kinds[start]);
    let skipped = skip_run(kinds, left, item_stop());
    assert(peek_at(kinds, skipped.left) == kinds[g.len() - 1]);
    lemma_skip_shift(g, w, 0);
    assert(bump_left(kinds, skipped.left) == remaining(w, 0));
    reveal_with_fuel(first_items, 2);
}

} // verus!
