//! The replay of events that stand after other events: from a place on, the
//! replay takes the same steps as the replay of these events alone.

use vstd::prelude::*;
use crate::event::EventView;
use crate::lexer::TokenView;
use crate::sink::{
    apply_event, chain_targets, Diagnostic, finishes, kinds_at, leaves, lemma_replay_tokens,
    offset_at, Replay, replay, replay_steps, rev_starts, Step, take_trivia, view_kinds,
};
use crate::source::{lemma_skip_trivia, skip_trivia};
use crate::syntax_kind::SyntaxKind;

verus! {

/// From the second event on, the events of `alone` stand in `whole`, `shift`
/// places further on, up to the end of `whole`.
pub open spec fn shifted(whole: Seq<EventView>, alone: Seq<EventView>, shift: nat) -> bool {
    &&& whole.len() == alone.len() + shift
    &&& forall|i: int| 1 <= i < alone.len() ==> whole[i + shift] == #[trigger] alone[i]
}

/// The two replays stand at the same place: at the same token of `alone`,
/// as deep, with the same openings started early; the steps that `second` has
/// taken after its first `taken` are the steps of `first` after `steps`; and
/// the diagnostics of `second` are those of `first` after `recorded`, message
/// by message, each `offset` bytes further on (but for one that `second`
/// places at its very start: `first` places it where the token before ends).
pub open spec fn alike(
    first: Replay,
    second: Replay,
    shift: nat,
    before: int,
    offset: int,
    steps: Seq<Step>,
    taken: nat,
    recorded: Seq<Diagnostic>,
    len: int,
) -> bool {
    &&& second.cursor >= 0
    &&& first.cursor == before + second.cursor
    &&& first.depth == second.depth
    &&& forall|j: int|
        1 <= j < len ==> (first.started.contains(j + shift) <==> #[trigger] second.started.contains(
            j,
        ))
    &&& second.steps.len() >= taken
    &&& first.steps == steps + second.steps.skip(taken as int)
    &&& first.errors.len() == recorded.len() + second.errors.len()
    &&& first.errors.take(recorded.len() as int) == recorded
    &&& forall|k: int|
        0 <= k < second.errors.len() ==> first.errors[recorded.len() + k].message == (
        #[trigger] second.errors[k]).message
    &&& first.prev_end == offset + second.prev_end || second.prev_end == 0
    &&& forall|k: int|
        0 <= k < second.errors.len() ==> moved(
            first.errors[recorded.len() + k],
            #[trigger] second.errors[k],
            offset,
        )
}

/// The diagnostic `first` is `second`, `offset` bytes further on; or `second`
/// stands at the very start and covers nothing.
pub open spec fn moved(first: Diagnostic, second: Diagnostic, offset: int) -> bool {
    ||| first.start == offset + second.start && first.end == offset + second.end
    ||| second.start == 0 && second.end == 0
}

proof fn lemma_offset_shift(head: Seq<TokenView>, tail: Seq<TokenView>, i: int)
    requires
        0 <= i <= tail.len(),
    ensures
        offset_at(head + tail, head.len() + i) == offset_at(head + tail, head.len() as int)
            + offset_at(tail, i),
    decreases i,
{
    if i > 0 {
        lemma_offset_shift(head, tail, i - 1);
        assert((head + tail)[head.len() + i - 1] == tail[i - 1]);
    }
}

pub proof fn lemma_skip_shift(before: Seq<SyntaxKind>, alone: Seq<SyntaxKind>, at: int)
    requires
        0 <= at <= alone.len(),
    ensures
        skip_trivia(before + alone, before.len() + at) == before.len() + skip_trivia(alone, at),
    decreases alone.len() - at,
{
    let whole = before + alone;
    if at < alone.len() {
        assert(whole[before.len() + at] == alone[at]);
        if alone[at].spec_is_trivia() {
            lemma_skip_shift(before, alone, at + 1);
        }
    }
}

proof fn lemma_chain_shift(whole: Seq<EventView>, alone: Seq<EventView>, shift: nat, i: int)
    requires
        shifted(whole, alone, shift),
        1 <= i < alone.len(),
    ensures
        chain_targets(whole, i + shift) == chain_targets(alone, i).map_values(|t: int| t + shift),
        forall|k: int|
            0 <= k < chain_targets(alone, i).len() ==> 1 <= #[trigger] chain_targets(alone, i)[k]
                < alone.len(),
        kinds_at(whole, chain_targets(whole, i + shift)) == kinds_at(
            alone,
            chain_targets(alone, i),
        ),
    decreases alone.len() - i,
{
    let a = chain_targets(alone, i);
    let w = chain_targets(whole, i + shift);
    assert(whole[i + shift] == alone[i]);
    match alone[i] {
        EventView::Open { parent: Some(d), .. } => {
            if d > 0 && i + d < alone.len() && alone[i + d] is Open {
                assert(whole[i + d + shift] == alone[i + d]);
                lemma_chain_shift(whole, alone, shift, i + d);
                let rest = chain_targets(alone, i + d);
                assert(a =~= seq![i + d] + rest);
                assert(w =~= seq![i + d + shift] + chain_targets(whole, i + d + shift));
                assert(w =~= a.map_values(|t: int| t + shift));
                assert forall|k: int| 0 <= k < a.len() implies 1 <= #[trigger] a[k]
                    < alone.len() by {
                    if k > 0 {
                        assert(a[k] == rest[k - 1]);
                    }
                }
                assert forall|k: int| 0 <= k < a.len() implies kinds_at(whole, w)[k] == kinds_at(
                    alone,
                    a,
                )[k] by {
                    assert(whole[a[k] + shift] == alone[a[k]]);
                }
                assert(kinds_at(whole, w) =~= kinds_at(alone, a));
            } else {
                assert(w =~= a.map_values(|t: int| t + shift));
                assert(kinds_at(whole, w) =~= kinds_at(alone, a));
            }
        },
        _ => {
            assert(w =~= a.map_values(|t: int| t + shift));
            assert(kinds_at(whole, w) =~= kinds_at(alone, a));
        },
    }
}

/// One event and the trivia after it keep two replays alike.
proof fn lemma_alike_step(
    whole: Seq<EventView>,
    alone: Seq<EventView>,
    shift: nat,
    head: Seq<TokenView>,
    tail: Seq<TokenView>,
    steps: Seq<Step>,
    taken: nat,
    recorded: Seq<Diagnostic>,
    first: Replay,
    second: Replay,
    n: int,
)
    requires
        shifted(whole, alone, shift),
        1 <= n < alone.len(),
        second.cursor <= tail.len(),
        alike(
            first,
            second,
            shift,
            head.len() as int,
            offset_at(head + tail, head.len() as int) as int,
            steps,
            taken,
            recorded,
            alone.len() as int,
        ),
    ensures
        alike(
            take_trivia(apply_event(first, whole, head + tail, n + shift), head + tail),
            take_trivia(apply_event(second, alone, tail, n), tail),
            shift,
            head.len() as int,
            offset_at(head + tail, head.len() as int) as int,
            steps,
            taken,
            recorded,
            alone.len() as int,
        ),
        take_trivia(apply_event(second, alone, tail, n), tail).cursor <= tail.len(),
{
    let tokens = head + tail;
    let before = head.len() as int;
    let len = alone.len() as int;
    let offset = offset_at(tokens, before) as int;
    if second.cursor < tail.len() {
        lemma_offset_shift(head, tail, second.cursor + 1);
    }
    lemma_offset_shift(head, tail, second.cursor);
    let a1 = apply_event(first, whole, tokens, n + shift);
    let a2 = apply_event(second, alone, tail, n);
    assert(whole[n + shift] == alone[n]);
    assert(first.started.contains(n + shift) <==> second.started.contains(n));
    match alone[n] {
        EventView::Open { kind, .. } => {
            if !second.started.contains(n) {
                lemma_chain_shift(whole, alone, shift, n);
                let t2 = chain_targets(alone, n);
                let t1 = chain_targets(whole, n + shift);
                assert forall|j: int| 1 <= j < len implies (a1.started.contains(j + shift)
                    <==> #[trigger] a2.started.contains(j)) by {
                    assert(first.started.contains(j + shift) <==> second.started.contains(j));
                    if t2.to_set().contains(j) {
                        let k = choose|k: int| 0 <= k < t2.len() && t2[k] == j;
                        assert(t1[k] == j + shift);
                        assert(t1.to_set().contains(j + shift));
                    }
                    if t1.to_set().contains(j + shift) {
                        let k = choose|k: int| 0 <= k < t1.len() && t1[k] == j + shift;
                        assert(t2[k] == j);
                        assert(t2.to_set().contains(j));
                    }
                }
                let added = rev_starts(seq![kind] + kinds_at(alone, t2));
                assert((second.steps + added).skip(taken as int) =~= second.steps.skip(
                    taken as int,
                ) + added);
                assert(steps + (second.steps.skip(taken as int) + added) =~= (steps
                    + second.steps.skip(taken as int)) + added);
            }
        },
        EventView::Close => {
            if second.depth > 0 {
                assert(second.steps.push(Step::Finish).skip(taken as int) =~= second.steps.skip(
                    taken as int,
                ).push(Step::Finish));
                assert(steps + second.steps.skip(taken as int).push(Step::Finish) =~= (steps
                    + second.steps.skip(taken as int)).push(Step::Finish));
            }
        },
        EventView::Advance => {
            if 0 <= second.cursor < tail.len() {
                assert(tokens[first.cursor] == tail[second.cursor]);
                let leaf = Step::Leaf(tail[second.cursor]);
                assert(second.steps.push(leaf).skip(taken as int) =~= second.steps.skip(
                    taken as int,
                ).push(leaf));
                assert(steps + second.steps.skip(taken as int).push(leaf) =~= (steps
                    + second.steps.skip(taken as int)).push(leaf));
            }
        },
        EventView::Error { message, location } => {
            assert(a1.errors.take(recorded.len() as int) =~= first.errors.take(
                recorded.len() as int,
            ));
            assert forall|k: int| 0 <= k < a2.errors.len() implies a1.errors[recorded.len()
                + k].message == (#[trigger] a2.errors[k]).message by {
                if k < second.errors.len() {
                    assert(first.errors[recorded.len() + k].message == second.errors[k].message);
                }
            }
            assert forall|k: int| 0 <= k < a2.errors.len() implies moved(
                a1.errors[recorded.len() + k],
                #[trigger] a2.errors[k],
                offset,
            ) by {
                if k < second.errors.len() {
                    assert(moved(first.errors[recorded.len() + k], second.errors[k], offset));
                }
            }
        },
        _ => {},
    }
    assert(alike(a1, a2, shift, before, offset, steps, taken, recorded, len));
    assert(a2.cursor <= tail.len());
    assert(view_kinds(tokens) =~= view_kinds(head) + view_kinds(tail));
    lemma_skip_shift(view_kinds(head), view_kinds(tail), a2.cursor);
    lemma_skip_trivia(view_kinds(tail), a2.cursor);
    let next = skip_trivia(view_kinds(tail), a2.cursor);
    assert(leaves(tokens, a1.cursor, before + next) =~= leaves(tail, a2.cursor, next));
    let more = leaves(tail, a2.cursor, next);
    assert((a2.steps + more).skip(taken as int) =~= a2.steps.skip(taken as int) + more);
    assert(steps + (a2.steps.skip(taken as int) + more) =~= (steps + a2.steps.skip(taken as int))
        + more);
}

/// Where two replays are alike after the first event of `alone`, they stay
/// alike.
pub proof fn lemma_alike(
    whole: Seq<EventView>,
    alone: Seq<EventView>,
    shift: nat,
    head: Seq<TokenView>,
    tail: Seq<TokenView>,
    n: nat,
)
    requires
        shifted(whole, alone, shift),
        1 <= n <= alone.len(),
        alike(
            replay(whole, head + tail, 1 + shift),
            replay(alone, tail, 1),
            shift,
            head.len() as int,
            offset_at(head + tail, head.len() as int) as int,
            replay(whole, head + tail, 1 + shift).steps,
            replay(alone, tail, 1).steps.len(),
            replay(whole, head + tail, 1 + shift).errors,
            alone.len() as int,
        ),
    ensures
        alike(
            replay(whole, head + tail, n + shift),
            replay(alone, tail, n),
            shift,
            head.len() as int,
            offset_at(head + tail, head.len() as int) as int,
            replay(whole, head + tail, 1 + shift).steps,
            replay(alone, tail, 1).steps.len(),
            replay(whole, head + tail, 1 + shift).errors,
            alone.len() as int,
        ),
    decreases n,
{
    if n > 1 {
        lemma_alike(whole, alone, shift, head, tail, (n - 1) as nat);
        lemma_replay_tokens(alone, tail, (n - 1) as nat);
        lemma_alike_step(
            whole,
            alone,
            shift,
            head,
            tail,
            replay(whole, head + tail, 1 + shift).steps,
            replay(alone, tail, 1).steps.len(),
            replay(whole, head + tail, 1 + shift).errors,
            replay(whole, head + tail, (n - 1 + shift) as nat),
            replay(alone, tail, (n - 1) as nat),
            n - 1,
        );
        assert(replay(whole, head + tail, n + shift) == take_trivia(
            apply_event(
                replay(whole, head + tail, (n - 1 + shift) as nat),
                whole,
                head + tail,
                n - 1 + shift,
            ),
            head + tail,
        ));
    }
}

/// The walk that follows: where two replays are alike after the first event
/// of `alone`, the whole walk of `whole` is the steps up to that place,
/// followed by the walk of `alone` after its steps up to that place.
pub proof fn lemma_walk_resumes(
    whole: Seq<EventView>,
    alone: Seq<EventView>,
    shift: nat,
    head: Seq<TokenView>,
    tail: Seq<TokenView>,
)
    requires
        shifted(whole, alone, shift),
        alone.len() >= 1,
        alike(
            replay(whole, head + tail, 1 + shift),
            replay(alone, tail, 1),
            shift,
            head.len() as int,
            offset_at(head + tail, head.len() as int) as int,
            replay(whole, head + tail, 1 + shift).steps,
            replay(alone, tail, 1).steps.len(),
            replay(whole, head + tail, 1 + shift).errors,
            alone.len() as int,
        ),
    ensures
        replay_steps(alone, tail).len() >= replay(alone, tail, 1).steps.len(),
        replay_steps(whole, head + tail) == replay(whole, head + tail, 1 + shift).steps
            + replay_steps(alone, tail).skip(replay(alone, tail, 1).steps.len() as int),
        alike(
            replay(whole, head + tail, whole.len()),
            replay(alone, tail, alone.len()),
            shift,
            head.len() as int,
            offset_at(head + tail, head.len() as int) as int,
            replay(whole, head + tail, 1 + shift).steps,
            replay(alone, tail, 1).steps.len(),
            replay(whole, head + tail, 1 + shift).errors,
            alone.len() as int,
        ),
{
    let tokens = head + tail;
    let steps = replay(whole, tokens, 1 + shift).steps;
    let taken = replay(alone, tail, 1).steps.len();
    lemma_alike(whole, alone, shift, head, tail, alone.len());
    lemma_replay_tokens(alone, tail, alone.len());
    let r1 = replay(whole, tokens, whole.len());
    let r2 = replay(alone, tail, alone.len());
    assert(leaves(tokens, r1.cursor, tokens.len() as int) =~= leaves(
        tail,
        r2.cursor,
        tail.len() as int,
    ));
    let end = leaves(tail, r2.cursor, tail.len() as int) + finishes(r2.depth);
    assert(replay_steps(alone, tail) =~= r2.steps + end);
    assert(replay_steps(whole, tokens) =~= r1.steps + end);
    assert((r2.steps + end).skip(taken as int) =~= r2.steps.skip(taken as int) + end);
    assert(steps + (r2.steps.skip(taken as int) + end) =~= (steps + r2.steps.skip(taken as int))
        + end);
}

} // verus!
