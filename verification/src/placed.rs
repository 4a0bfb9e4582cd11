//! Where the diagnostics of a replay are placed: none reaches beyond the last
//! token that was consumed, but for one that waits for its token.

use vstd::prelude::*;
use crate::event::EventView;
use crate::grammar::anchor::on_next;
use crate::lexer::TokenView;
use crate::profile::lemma_replay_cursor;
use crate::sink::{apply_event, offset_at, replay, take_trivia, view_kinds};
use crate::source::lemma_skip_trivia;

verus! {

/// Whether the tokens `from..to` are trivia.
pub open spec fn all_trivia(tokens: Seq<TokenView>, from: int, to: int) -> bool {
    forall|x: int| from <= x < to ==> (#[trigger] tokens[x]).kind.spec_is_trivia()
}

/// Where a diagnostic that is placed on the next token ends, when that token
/// is the one at `cursor`.
pub open spec fn next_end(tokens: Seq<TokenView>, cursor: int) -> int {
    if 0 <= cursor < tokens.len() {
        offset_at(tokens, cursor + 1) as int
    } else {
        offset_at(tokens, cursor) as int
    }
}

/// Whether a diagnostic among the first `n` events still waits for its token:
/// it is placed on the next token, and no `Advance` has followed.
pub open spec fn loose(events: Seq<EventView>, n: int) -> bool
    decreases n,
{
    if n <= 0 || n > events.len() {
        false
    } else if events[n - 1] is Advance {
        false
    } else if on_next(events[n - 1]) {
        true
    } else {
        loose(events, n - 1)
    }
}

/// A diagnostic that waits for its token has no `Advance` after it.
pub proof fn lemma_loose(events: Seq<EventView>, n: int)
    requires
        loose(events, n),
    ensures
        exists|i: int|
            0 <= i < n && on_next(events[i]) && forall|j: int|
                i < j < n ==> !(#[trigger] events[j] is Advance),
    decreases n,
{
    if on_next(events[n - 1]) {
        let i = n - 1;
        assert(0 <= i < n && on_next(events[i]) && forall|j: int|
            i < j < n ==> !(#[trigger] events[j] is Advance));
    } else {
        lemma_loose(events, n - 1);
        let i = choose|i: int|
            0 <= i < n - 1 && on_next(events[i]) && forall|j: int|
                i < j < n - 1 ==> !(#[trigger] events[j] is Advance);
        assert(0 <= i < n && on_next(events[i]) && forall|j: int|
            i < j < n ==> !(#[trigger] events[j] is Advance));
    }
}

pub proof fn lemma_offset_mono(tokens: Seq<TokenView>, i: int, j: int)
    requires
        0 <= i <= j <= tokens.len(),
    ensures
        offset_at(tokens, i) <= offset_at(tokens, j),
    decreases j - i,
{
    if i < j {
        lemma_offset_mono(tokens, i, j - 1);
    }
}

/// What holds of the places of the diagnostics after `n` events.
pub open spec fn placed(events: Seq<EventView>, tokens: Seq<TokenView>, n: nat) -> bool {
    let r = replay(events, tokens, n);
    &&& forall|q: int|
        0 <= q <= r.cursor && #[trigger] all_trivia(tokens, q, r.cursor) ==> r.prev_end
            <= offset_at(tokens, q)
    &&& forall|k: int|
        0 <= k < r.errors.len() ==> (#[trigger] r.errors[k]).end <= r.prev_end || (loose(
            events,
            n as int,
        ) && r.errors[k].end <= next_end(tokens, r.cursor))
}

/// Where every `Advance` finds a token, no diagnostic reaches beyond the end
/// of the last token that was consumed, but for one that waits for its token;
/// and that end lies before the trivia that stands before the cursor.
pub proof fn lemma_placed(events: Seq<EventView>, tokens: Seq<TokenView>, n: nat)
    requires
        1 <= n <= events.len(),
        events[0] is Open,
        forall|k: int|
            0 <= k < n && #[trigger] events[k] is Advance ==> replay(events, tokens, k as nat).cursor
                < tokens.len(),
    ensures
        placed(events, tokens, n),
    decreases n,
{
    let kinds = view_kinds(tokens);
    let r = replay(events, tokens, n);
    let before = replay(events, tokens, (n - 1) as nat);
    let applied = apply_event(before, events, tokens, n - 1);
    assert(r == take_trivia(applied, tokens));
    if n == 1 {
        reveal_with_fuel(replay, 2);
        assert(r.prev_end == 0);
        assert(r.errors.len() == 0);
    } else {
        lemma_placed(events, tokens, (n - 1) as nat);
        lemma_replay_cursor(events, tokens, (n - 1) as nat);
        lemma_replay_cursor(events, tokens, n);
        let c = before.cursor;
        assert(all_trivia(tokens, c, c));
        assert(before.prev_end <= offset_at(tokens, c));
        match events[n - 1] {
            EventView::Advance => {
                assert(c < tokens.len());
                lemma_skip_trivia(kinds, c);
                lemma_skip_trivia(kinds, c + 1);
                lemma_offset_mono(tokens, c, c + 1);
                assert(!kinds[c].spec_is_trivia());
                assert forall|q: int|
                    0 <= q <= r.cursor && #[trigger] all_trivia(
                        tokens,
                        q,
                        r.cursor,
                    ) implies r.prev_end <= offset_at(tokens, q) by {
                    if q <= c {
                        assert(tokens[c].kind.spec_is_trivia());
                    }
                    lemma_offset_mono(tokens, c + 1, q);
                }
                assert forall|k: int| 0 <= k < r.errors.len() implies (
                #[trigger] r.errors[k]).end <= r.prev_end by {
                    assert(before.errors[k].end <= before.prev_end || (loose(events, n - 1)
                        && before.errors[k].end <= next_end(tokens, c)));
                }
            },
            EventView::Error { message, location } => {
                assert(r.cursor == c);
                assert forall|k: int| 0 <= k < r.errors.len() implies (
                #[trigger] r.errors[k]).end <= r.prev_end || (loose(events, n as int)
                    && r.errors[k].end <= next_end(tokens, r.cursor)) by {
                    if k < before.errors.len() {
                        assert(r.errors[k] == before.errors[k]);
                        assert(before.errors[k].end <= before.prev_end || (loose(events, n - 1)
                            && before.errors[k].end <= next_end(tokens, c)));
                    }
                }
            },
            _ => {
                assert(r.cursor == c);
                assert(r.errors == before.errors);
                assert(r.prev_end == before.prev_end);
                assert forall|k: int| 0 <= k < r.errors.len() implies (
                #[trigger] r.errors[k]).end <= r.prev_end || (loose(events, n as int)
                    && r.errors[k].end <= next_end(tokens, r.cursor)) by {
                    assert(before.errors[k].end <= before.prev_end || (loose(events, n - 1)
                        && before.errors[k].end <= next_end(tokens, c)));
                }
            },
        }
    }
}

} // verus!
