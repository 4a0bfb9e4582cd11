//! Why the replay of the events of a parse builds one tree: the depth of the
//! walk, the bookkeeping of forward parents, and the single root.

use vstd::prelude::*;
use crate::event::EventView;
use crate::grammar::PrefixEntryPoint;
use crate::grammar::rules::bump_left;
use crate::grammar::tidy::{
    has_link, lemma_parse_rooted, lemma_parse_tidy, level, link_target, linked, parse_left,
    parse_node, rooted, tidy,
};
use crate::lexer::{lex_from, lex_spec, token_kind, TokenView};
use crate::sink::{
    apply_event, chain_targets, element_steps, elements_steps, finishes, kinds_at, leaves, Replay,
    replay, replay_steps, rev_starts, root_of, Step, take_trivia, view_kinds,
};
use crate::source::{lemma_skip_trivia, remaining, skip_trivia};
use crate::syntax_kind::SyntaxKind;
use crate::tree::SyntaxElement;

verus! {

/// How many nodes are open after the steps of a walk.
pub open spec fn step_depth(steps: Seq<Step>) -> int
    decreases steps.len(),
{
    if steps.len() == 0 {
        0
    } else {
        step_depth(steps.drop_last()) + match steps.last() {
            Step::Start(_) => 1int,
            Step::Leaf(_) => 0int,
            Step::Finish => -1int,
        }
    }
}

/// The steps stay inside one node: after the first step, and before the
/// last, a node is open.
pub open spec fn inside(steps: Seq<Step>) -> bool {
    forall|m: int| 0 < m < steps.len() ==> step_depth(#[trigger] steps.take(m)) >= 1
}

pub proof fn lemma_step_depth_concat(a: Seq<Step>, b: Seq<Step>)
    ensures
        step_depth(a + b) == step_depth(a) + step_depth(b),
    decreases b.len(),
{
    if b.len() == 0 {
        assert(a + b =~= a);
    } else {
        lemma_step_depth_concat(a, b.drop_last());
        assert((a + b).drop_last() =~= a + b.drop_last());
        assert((a + b).last() == b.last());
    }
}

pub proof fn lemma_step_depth_one(step: Step)
    ensures
        step_depth(seq![step]) == (match step {
            Step::Start(_) => 1int,
            Step::Leaf(_) => 0int,
            Step::Finish => -1int,
        }),
{
    reveal_with_fuel(step_depth, 2);
    assert(seq![step].drop_last() =~= Seq::<Step>::empty());
    assert(seq![step].last() == step);
}

/// Openings only go up: every prefix of `rev_starts` is as deep as it is
/// long.
pub proof fn lemma_rev_starts_depth(kinds: Seq<SyntaxKind>, m: int)
    requires
        0 <= m <= kinds.len(),
    ensures
        rev_starts(kinds).len() == kinds.len(),
        step_depth(rev_starts(kinds).take(m)) == m,
    decreases kinds.len(),
{
    if kinds.len() == 0 {
        assert(rev_starts(kinds).take(m) =~= Seq::<Step>::empty());
    } else {
        let first = seq![Step::Start(kinds.last())];
        let rest = rev_starts(kinds.drop_last());
        lemma_rev_starts_depth(kinds.drop_last(), 0);
        if m == 0 {
            assert(rev_starts(kinds).take(0) =~= Seq::<Step>::empty());
        } else {
            lemma_rev_starts_depth(kinds.drop_last(), m - 1);
            assert(rev_starts(kinds).take(m) =~= first + rest.take(m - 1));
            lemma_step_depth_concat(first, rest.take(m - 1));
            lemma_step_depth_one(Step::Start(kinds.last()));
        }
    }
}

pub proof fn lemma_leaves_depth(tokens: Seq<TokenView>, from: int, to: int, m: int)
    requires
        0 <= from <= to <= tokens.len(),
        0 <= m <= to - from,
    ensures
        step_depth(leaves(tokens, from, to).take(m)) == 0,
    decreases m,
{
    let all = leaves(tokens, from, to);
    if m == 0 {
        assert(all.take(0) =~= Seq::<Step>::empty());
    } else {
        lemma_leaves_depth(tokens, from, to, m - 1);
        assert(all.take(m).drop_last() =~= all.take(m - 1));
    }
}

/// The depth of the events counted one by one: an opening opens a node where
/// it stands, a closing closes one.
pub open spec fn naive(events: Seq<EventView>, n: int) -> int
    decreases n,
{
    if n <= 0 || n > events.len() {
        0
    } else {
        naive(events, n - 1) + match events[n - 1] {
            EventView::Open { .. } => 1int,
            EventView::Close => -1int,
            _ => 0int,
        }
    }
}

/// How many of the positions `from..to` are in `started`.
pub open spec fn pending(started: Set<int>, from: int, to: int) -> nat
    decreases to - from,
{
    if from >= to {
        0
    } else {
        (if started.contains(from) {
            1nat
        } else {
            0nat
        }) + pending(started, from + 1, to)
    }
}

proof fn lemma_pending_insert(started: Set<int>, x: int, from: int, to: int)
    ensures
        pending(started.insert(x), from, to) <= pending(started, from, to) + 1,
        !(from <= x < to) ==> pending(started.insert(x), from, to) == pending(started, from, to),
        pending(started, from, to) <= pending(started.insert(x), from, to),
    decreases to - from,
{
    if from < to {
        lemma_pending_insert(started, x, from + 1, to);
    }
}

proof fn lemma_pending_empty(from: int, to: int)
    ensures
        pending(Set::<int>::empty(), from, to) == 0,
    decreases to - from,
{
    if from < to {
        lemma_pending_empty(from + 1, to);
    }
}

proof fn lemma_pending_union(started: Set<int>, added: Seq<int>, from: int, to: int)
    ensures
        pending(started.union(added.to_set()), from, to) <= pending(started, from, to)
            + added.len(),
    decreases added.len(),
{
    if added.len() == 0 {
        assert(started.union(added.to_set()) =~= started);
    } else {
        let shorter = added.drop_last();
        lemma_pending_union(started, shorter, from, to);
        assert(started.union(added.to_set()) =~= started.union(shorter.to_set()).insert(
            added.last(),
        )) by {
            assert forall|x: int|
                started.union(added.to_set()).contains(x) <==> started.union(
                    shorter.to_set(),
                ).insert(added.last()).contains(x) by {
                if added.contains(x) {
                    let j = choose|j: int| 0 <= j < added.len() && added[j] == x;
                    if j < shorter.len() {
                        assert(shorter[j] == x);
                    }
                }
                if shorter.contains(x) {
                    let j = choose|j: int| 0 <= j < shorter.len() && shorter[j] == x;
                    assert(added[j] == x);
                }
                if x == added.last() {
                    assert(added[added.len() - 1] == x);
                }
            }
        }
        lemma_pending_insert(started.union(shorter.to_set()), added.last(), from, to);
    }
}

/// The depth of the walk is the number of open nodes.
pub proof fn lemma_replay_depth(events: Seq<EventView>, tokens: Seq<TokenView>, n: nat)
    requires
        n <= events.len(),
    ensures
        step_depth(replay(events, tokens, n).steps) == replay(events, tokens, n).depth,
        0 <= replay(events, tokens, n).cursor <= tokens.len(),
    decreases n,
{
    if n > 0 {
        lemma_replay_depth(events, tokens, (n - 1) as nat);
        let r = replay(events, tokens, (n - 1) as nat);
        let a = apply_event(r, events, tokens, n - 1);
        match events[n - 1] {
            EventView::Open { kind, .. } => {
                if !r.started.contains(n - 1) {
                    let kinds = seq![kind] + kinds_at(events, chain_targets(events, n - 1));
                    lemma_rev_starts_depth(kinds, kinds.len() as int);
                    assert(rev_starts(kinds).take(kinds.len() as int) =~= rev_starts(kinds));
                    lemma_step_depth_concat(r.steps, rev_starts(kinds));
                }
            },
            EventView::Close => {
                if r.depth > 0 {
                    assert(r.steps.push(Step::Finish).drop_last() =~= r.steps);
                }
            },
            EventView::Advance => {
                if 0 <= r.cursor < tokens.len() {
                    assert(r.steps.push(Step::Leaf(tokens[r.cursor])).drop_last() =~= r.steps);
                }
            },
            _ => {},
        }
        lemma_skip_trivia(view_kinds(tokens), a.cursor);
        let next = skip_trivia(view_kinds(tokens), a.cursor);
        lemma_leaves_depth(tokens, a.cursor, next, next - a.cursor);
        assert(leaves(tokens, a.cursor, next).take(next - a.cursor) =~= leaves(
            tokens,
            a.cursor,
            next,
        ));
        lemma_step_depth_concat(a.steps, leaves(tokens, a.cursor, next));
    }
}

/// The replay is never shallower than the events counted one by one: a
/// forward parent is opened before its place, never after it.
pub proof fn lemma_replay_above_naive(events: Seq<EventView>, tokens: Seq<TokenView>, n: nat)
    requires
        n <= events.len(),
    ensures
        replay(events, tokens, n).depth >= naive(events, n as int) + pending(
            replay(events, tokens, n).started,
            n as int,
            events.len() as int,
        ),
    decreases n,
{
    let len = events.len() as int;
    if n > 0 {
        lemma_replay_above_naive(events, tokens, (n - 1) as nat);
        let r = replay(events, tokens, (n - 1) as nat);
        let a = apply_event(r, events, tokens, n - 1);
        assert(pending(r.started, n - 1, len) == (if r.started.contains(n - 1) {
            1nat
        } else {
            0nat
        }) + pending(r.started, n as int, len));
        match events[n - 1] {
            EventView::Open { kind, .. } => {
                if !r.started.contains(n - 1) {
                    let targets = chain_targets(events, n - 1);
                    lemma_pending_union(r.started, targets, n as int, len);
                    assert(kinds_at(events, targets).len() == targets.len());
                    assert(a.depth == r.depth + 1 + targets.len());
                    assert(a.started == r.started.union(targets.to_set()));
                }
            },
            _ => {},
        }
        assert(replay(events, tokens, n).started == a.started);
        assert(replay(events, tokens, n).depth == a.depth);
    } else {
        lemma_pending_empty(0, len);
    }
}

/// The number of `Advance` among the first `n` events.
pub open spec fn advances(events: Seq<EventView>, n: int) -> nat
    decreases n,
{
    if n <= 0 || n > events.len() {
        0
    } else {
        advances(events, n - 1) + (if events[n - 1] is Advance {
            1nat
        } else {
            0nat
        })
    }
}

/// How many tokens are left after `count` significant tokens are consumed.
pub open spec fn bumps(kinds: Seq<SyntaxKind>, left: nat, count: nat) -> nat
    decreases count,
{
    if count == 0 {
        left
    } else {
        bump_left(kinds, bumps(kinds, left, (count - 1) as nat))
    }
}

/// The replay consumes one significant token for each `Advance`, and the
/// trivia after it at once: from the first event on the cursor stands at a
/// significant token or at the end.
pub proof fn lemma_replay_cursor(events: Seq<EventView>, tokens: Seq<TokenView>, n: nat)
    requires
        1 <= n <= events.len(),
        !(events[0] is Advance),
    ensures
        ({
            let kinds = view_kinds(tokens);
            let r = replay(events, tokens, n);
            &&& 0 <= r.cursor <= tokens.len()
            &&& r.cursor == skip_trivia(kinds, r.cursor)
            &&& remaining(kinds, r.cursor) == bumps(
                kinds,
                remaining(kinds, 0),
                advances(events, n as int),
            )
        }),
    decreases n,
{
    let kinds = view_kinds(tokens);
    reveal_with_fuel(replay, 2);
    if n == 1 {
        lemma_skip_trivia(kinds, 0);
        let r0 = replay(events, tokens, 0);
        let a = apply_event(r0, events, tokens, 0);
        assert(a.cursor == 0);
        reveal_with_fuel(advances, 2);
    } else {
        lemma_replay_cursor(events, tokens, (n - 1) as nat);
        let r = replay(events, tokens, (n - 1) as nat);
        let a = apply_event(r, events, tokens, n - 1);
        lemma_skip_trivia(kinds, r.cursor);
        lemma_skip_trivia(kinds, a.cursor);
        if events[n - 1] is Advance {
            if r.cursor < tokens.len() {
                lemma_skip_trivia(kinds, r.cursor + 1);
            }
        }
    }
}

/// Every element takes a step, and leaves no node open; inside the walk
/// through a node, a node is open.
pub proof fn lemma_element_walk(e: SyntaxElement)
    ensures
        element_steps(e).len() >= 1,
        step_depth(element_steps(e)) == 0,
    decreases e, 0nat,
{
    match e {
        SyntaxElement::Token(t) => {
            lemma_step_depth_one(element_steps(e)[0]);
            assert(element_steps(e) =~= seq![element_steps(e)[0]]);
        },
        SyntaxElement::Node(node) => {
            let open = seq![Step::Start(node.kind)];
            let inner = elements_steps(node.children@);
            let close = seq![Step::Finish];
            lemma_elements_walk(node.children@);
            lemma_step_depth_one(Step::Start(node.kind));
            lemma_step_depth_one(Step::Finish);
            lemma_step_depth_concat(open, inner);
            lemma_step_depth_concat(open + inner, close);
        },
    }
}

pub proof fn lemma_elements_walk(s: Seq<SyntaxElement>)
    ensures
        elements_steps(s).len() >= s.len(),
        step_depth(elements_steps(s)) == 0,
    decreases s, 1nat,
{
    if s.len() > 0 {
        lemma_elements_walk(s.drop_last());
        lemma_element_walk(s.last());
        lemma_step_depth_concat(elements_steps(s.drop_last()), element_steps(s.last()));
    }
}

/// A walk that stays inside one node is the walk through one node: the
/// elements that it is the walk through are a single node, of the kind of its
/// first step.
pub proof fn lemma_one_root(top: Seq<SyntaxElement>, kind: SyntaxKind)
    requires
        elements_steps(top).len() >= 1,
        elements_steps(top)[0] == Step::Start(kind),
        inside(elements_steps(top)),
    ensures
        top.len() == 1,
        top[0] is Node,
        top[0]->Node_0.kind == kind,
{
    let walk = elements_steps(top);
    if top.len() == 0 {
        assert(walk.len() == 0);
    } else {
        let before = elements_steps(top.drop_last());
        let last = element_steps(top.last());
        lemma_elements_walk(top.drop_last());
        lemma_element_walk(top.last());
        if top.len() >= 2 {
            assert(before.len() >= 1);
            assert(walk.take(before.len() as int) =~= before);
            assert(step_depth(walk.take(before.len() as int)) >= 1);
        }
        assert(top.drop_last().len() == 0);
        assert(before.len() == 0);
        assert(walk =~= last);
        assert(top[0] == top.last());
        match top.last() {
            SyntaxElement::Token(t) => {
                assert(last[0] is Leaf);
            },
            SyntaxElement::Node(node) => {
                assert(last[0] == Step::Start(node.kind));
            },
        }
    }
}

/// The replay only adds steps: the steps after `n - 1` events begin the steps
/// after `n` events.
pub proof fn lemma_replay_grows(events: Seq<EventView>, tokens: Seq<TokenView>, n: nat, m: nat)
    requires
        m <= n <= events.len(),
    ensures
        replay(events, tokens, m).steps.len() <= replay(events, tokens, n).steps.len(),
        replay(events, tokens, n).steps.take(replay(events, tokens, m).steps.len() as int)
            == replay(events, tokens, m).steps,
    decreases n - m,
{
    let small = replay(events, tokens, m).steps;
    if m == n {
        assert(small.take(small.len() as int) =~= small);
    } else {
        lemma_replay_grows(events, tokens, (n - 1) as nat, m);
        let r = replay(events, tokens, (n - 1) as nat);
        let a = apply_event(r, events, tokens, n - 1);
        let big = replay(events, tokens, n).steps;
        assert(a.steps.len() >= r.steps.len() && a.steps.take(r.steps.len() as int) =~= r.steps);
        assert(big.take(a.steps.len() as int) =~= a.steps);
        assert(big.take(small.len() as int) =~= r.steps.take(small.len() as int));
    }
}

/// Every prefix of the steps but the empty one leaves a node open.
pub open spec fn open_throughout(steps: Seq<Step>) -> bool {
    forall|m: int| 0 < m <= steps.len() ==> step_depth(#[trigger] steps.take(m)) >= 1
}

/// One event keeps a node open throughout, if a node is open after it.
proof fn lemma_apply_inside(r: Replay, events: Seq<EventView>, tokens: Seq<TokenView>, idx: int)
    requires
        0 <= idx < events.len(),
        step_depth(r.steps) == r.depth,
        open_throughout(r.steps),
        idx >= 1 ==> r.depth >= 1,
        idx == 0 ==> events[0] is Open && r.steps.len() == 0,
        apply_event(r, events, tokens, idx).depth >= 1,
    ensures
        open_throughout(apply_event(r, events, tokens, idx).steps),
        step_depth(apply_event(r, events, tokens, idx).steps) == apply_event(
            r,
            events,
            tokens,
            idx,
        ).depth,
{
    let a = apply_event(r, events, tokens, idx);
    match events[idx] {
        EventView::Open { kind, .. } => {
            if !r.started.contains(idx) {
                let ks = seq![kind] + kinds_at(events, chain_targets(events, idx));
                let chunk = rev_starts(ks);
                lemma_rev_starts_depth(ks, ks.len() as int);
                assert(chunk.take(ks.len() as int) =~= chunk);
                lemma_step_depth_concat(r.steps, chunk);
                assert forall|m: int| 0 < m <= a.steps.len() implies step_depth(
                    #[trigger] a.steps.take(m),
                ) >= 1 by {
                    if m <= r.steps.len() {
                        assert(a.steps.take(m) =~= r.steps.take(m));
                    } else {
                        let j = m - r.steps.len();
                        assert(a.steps.take(m) =~= r.steps + chunk.take(j));
                        lemma_step_depth_concat(r.steps, chunk.take(j));
                        lemma_rev_starts_depth(ks, j);
                    }
                }
            }
        },
        EventView::Close => {
            if r.depth > 0 {
                let chunk = seq![Step::Finish];
                lemma_step_depth_one(Step::Finish);
                assert(a.steps =~= r.steps + chunk);
                lemma_step_depth_concat(r.steps, chunk);
                assert forall|m: int| 0 < m <= a.steps.len() implies step_depth(
                    #[trigger] a.steps.take(m),
                ) >= 1 by {
                    if m <= r.steps.len() {
                        assert(a.steps.take(m) =~= r.steps.take(m));
                    } else {
                        assert(a.steps.take(m) =~= a.steps);
                    }
                }
            }
        },
        EventView::Advance => {
            if 0 <= r.cursor < tokens.len() {
                let chunk = seq![Step::Leaf(tokens[r.cursor])];
                lemma_step_depth_one(Step::Leaf(tokens[r.cursor]));
                assert(a.steps =~= r.steps + chunk);
                lemma_step_depth_concat(r.steps, chunk);
                assert forall|m: int| 0 < m <= a.steps.len() implies step_depth(
                    #[trigger] a.steps.take(m),
                ) >= 1 by {
                    if m <= r.steps.len() {
                        assert(a.steps.take(m) =~= r.steps.take(m));
                    } else {
                        assert(a.steps.take(m) =~= a.steps);
                    }
                }
            }
        },
        _ => {},
    }
}

/// Taking trivia keeps a node open throughout.
proof fn lemma_trivia_inside(a: Replay, tokens: Seq<TokenView>)
    requires
        0 <= a.cursor <= tokens.len(),
        step_depth(a.steps) == a.depth,
        a.depth >= 1,
        open_throughout(a.steps),
    ensures
        open_throughout(take_trivia(a, tokens).steps),
{
    let kinds = view_kinds(tokens);
    lemma_skip_trivia(kinds, a.cursor);
    let next = skip_trivia(kinds, a.cursor);
    let trivia = leaves(tokens, a.cursor, next);
    let after = take_trivia(a, tokens);
    assert forall|m: int| 0 < m <= after.steps.len() implies step_depth(
        #[trigger] after.steps.take(m),
    ) >= 1 by {
        if m <= a.steps.len() {
            assert(after.steps.take(m) =~= a.steps.take(m));
        } else {
            let j = m - a.steps.len();
            assert(after.steps.take(m) =~= a.steps + trivia.take(j));
            lemma_step_depth_concat(a.steps, trivia.take(j));
            lemma_leaves_depth(tokens, a.cursor, next, j);
        }
    }
}

/// Where the replay has a node open after each event but the last, every
/// prefix of its walk before the last event leaves a node open.
pub proof fn lemma_replay_inside(events: Seq<EventView>, tokens: Seq<TokenView>, n: nat)
    requires
        n < events.len(),
        events[0] is Open,
        forall|k: int| 1 <= k < events.len() ==> (#[trigger] replay(events, tokens, k as nat)).depth >= 1,
    ensures
        open_throughout(replay(events, tokens, n).steps),
    decreases n,
{
    if n > 0 {
        lemma_replay_inside(events, tokens, (n - 1) as nat);
        lemma_replay_depth(events, tokens, (n - 1) as nat);
        let r = replay(events, tokens, (n - 1) as nat);
        let a = apply_event(r, events, tokens, n - 1);
        assert(replay(events, tokens, n).depth == a.depth);
        let here = n as int;
        assert(replay(events, tokens, here as nat).depth >= 1);
        if n - 1 >= 1 {
            let before = n - 1;
            assert(replay(events, tokens, before as nat).depth >= 1);
        }
        lemma_apply_inside(r, events, tokens, n - 1);
        assert(0 <= a.cursor <= tokens.len());
        lemma_trivia_inside(a, tokens);
    } else {
        assert(replay(events, tokens, 0).steps.len() == 0);
    }
}

/// What the replay has started, it keeps.
pub proof fn lemma_started_grows(events: Seq<EventView>, tokens: Seq<TokenView>, m: nat, n: nat)
    requires
        m <= n <= events.len(),
    ensures
        replay(events, tokens, m).started.subset_of(replay(events, tokens, n).started),
    decreases n - m,
{
    if m < n {
        lemma_started_grows(events, tokens, m, (n - 1) as nat);
        let r = replay(events, tokens, (n - 1) as nat);
        let a = apply_event(r, events, tokens, n - 1);
        assert(r.started.subset_of(a.started));
        assert(replay(events, tokens, n).started == a.started);
    }
}

proof fn lemma_pending_has(started: Set<int>, x: int, from: int, to: int)
    requires
        started.contains(x),
        from <= x < to,
    ensures
        pending(started, from, to) >= 1,
    decreases to - from,
{
    if from < x {
        lemma_pending_has(started, x, from + 1, to);
    }
}

/// Where tidy events are those of one node, the replay has a node open after
/// each event but the last.
pub proof fn lemma_rooted_deep(events: Seq<EventView>, tokens: Seq<TokenView>, node: int, k: nat)
    requires
        linked(events),
        level(events),
        rooted(events, node),
        1 <= k < events.len(),
    ensures
        replay(events, tokens, k).depth >= 1,
{
    let len = events.len() as int;
    lemma_replay_exact(events, tokens, k);
    if k > node {
        assert(naive(events, k as int) >= 1);
    } else {
        assert(naive(events, k as int) >= 0);
        let first = replay(events, tokens, 1);
        assert(first.started.contains(node)) by {
            reveal_with_fuel(replay, 2);
            let r0 = replay(events, tokens, 0);
            let a0 = apply_event(r0, events, tokens, 0);
            let targets = chain_targets(events, 0);
            assert(targets[targets.len() - 1] == node);
            assert(targets.to_set().contains(node));
            assert(a0.started.contains(node));
        }
        lemma_started_grows(events, tokens, 1, k);
        lemma_pending_has(replay(events, tokens, k).started, node, k as int, len);
    }
}

/// The first step of the replay of the events of one node is into that node.
proof fn lemma_rooted_first(events: Seq<EventView>, tokens: Seq<TokenView>, node: int)
    requires
        rooted(events, node),
    ensures
        replay(events, tokens, 1).steps.len() >= 1,
        replay(events, tokens, 1).steps[0] == Step::Start(events[node]->kind),
{
    reveal_with_fuel(replay, 2);
    let r0 = replay(events, tokens, 0);
    let a0 = apply_event(r0, events, tokens, 0);
    let targets = chain_targets(events, 0);
    let ks = seq![events[0]->kind] + kinds_at(events, targets);
    assert(ks.last() == events[node]->kind) by {
        if node != 0 {
            assert(ks.last() == kinds_at(events, targets)[targets.len() - 1]);
        } else if targets.len() > 0 {
            // the opening at 0 has no forward parent, so its chain is empty
            assert(false);
        }
    }
    assert(rev_starts(ks)[0] == Step::Start(ks.last()));
    assert(a0.steps =~= rev_starts(ks));
    lemma_rev_starts_depth(ks, 0);
    assert(replay(events, tokens, 1).steps[0] == a0.steps[0]);
}

/// Where tidy events that are those of one node consume every token, the walk
/// of their replay stays inside that node.
pub proof fn lemma_rooted_walk(events: Seq<EventView>, tokens: Seq<TokenView>, node: int)
    requires
        tidy(view_kinds(tokens), remaining(view_kinds(tokens), 0), events, 0),
        rooted(events, node),
    ensures
        clean(events, tokens),
        replay_steps(events, tokens).len() >= 1,
        replay_steps(events, tokens)[0] == Step::Start(events[node]->kind),
        inside(replay_steps(events, tokens)),
{
    let kinds = view_kinds(tokens);
    let len = events.len();
    let last = (len - 1) as nat;
    let walk = replay_steps(events, tokens);
    lemma_tidy_clean(events, tokens);
    assert forall|k: int| 1 <= k < events.len() implies (#[trigger] replay(
        events,
        tokens,
        k as nat,
    )).depth >= 1 by {
        lemma_rooted_deep(events, tokens, node, k as nat);
    }
    lemma_replay_inside(events, tokens, last);
    let r = replay(events, tokens, last);
    let end = replay(events, tokens, len);
    let a = apply_event(r, events, tokens, len - 1);
    assert(events[len - 1] is Close);
    assert(r.depth >= 1);
    assert(a.steps == r.steps.push(Step::Finish));
    lemma_rooted_first(events, tokens, node);
    let first = replay(events, tokens, 1);
    if len >= 2 {
        lemma_replay_grows(events, tokens, last, 1);
    }
    lemma_replay_grows(events, tokens, len, 1);
    assert(end.steps.take(first.steps.len() as int) == first.steps);
    assert(end.steps[0] == first.steps[0]) by {
        assert(end.steps.take(first.steps.len() as int)[0] == end.steps[0]);
    }
    assert(walk == end.steps);
    lemma_replay_cursor(events, tokens, last);
    lemma_skip_trivia(kinds, a.cursor);
    if len >= 2 {
        assert(leaves(tokens, a.cursor, skip_trivia(kinds, a.cursor)) =~= Seq::<Step>::empty());
        assert(end.steps =~= r.steps.push(Step::Finish));
        assert forall|m: int| 0 < m < walk.len() implies step_depth(#[trigger] walk.take(m))
            >= 1 by {
            assert(walk.take(m) =~= r.steps.take(m));
        }
    } else {
        assert(false);
    }
}

/// No token of a text has the kind `EOF`.
pub proof fn lemma_lex_kinds(chars: Seq<char>, start: int)
    ensures
        forall|i: int|
            0 <= i < lex_from(chars, start).len() ==> (#[trigger] lex_from(chars, start)[i]).kind
                != SyntaxKind::EOF,
    decreases chars.len() - start,
{
    if 0 <= start < chars.len() {
        let end = crate::lexer::token_end(chars, start);
        if start < end <= chars.len() {
            lemma_lex_kinds(chars, end);
            let first = TokenView {
                kind: token_kind(chars.subrange(start, end)),
                text: chars.subrange(start, end),
            };
            assert forall|i: int| 0 <= i < lex_from(chars, start).len() implies (
            #[trigger] lex_from(chars, start)[i]).kind != SyntaxKind::EOF by {
                if i > 0 {
                    assert(lex_from(chars, start)[i] == lex_from(chars, end)[i - 1]);
                }
            }
        }
    }
}

/// The kind of the root of the tree of a text.
pub open spec fn root_kind(text: Seq<char>, entry_point: PrefixEntryPoint) -> SyntaxKind {
    let kinds = view_kinds(lex_spec(text));
    let left = remaining(kinds, 0);
    crate::parsed_events(text, entry_point)[parse_node(kinds, left, entry_point)]->kind
}

/// The walk through the tree of a text stays inside one node: whatever the
/// text and the start symbol, the replay of the events opens the root first,
/// keeps it open up to the last step, takes every token on the way, and
/// leaves nothing undone.
pub proof fn lemma_parse_walk(text: Seq<char>, entry_point: PrefixEntryPoint)
    ensures
        clean(crate::parsed_events(text, entry_point), lex_spec(text)),
        crate::parsed_walk(text, entry_point).len() >= 1,
        crate::parsed_walk(text, entry_point)[0] == Step::Start(root_kind(text, entry_point)),
        inside(crate::parsed_walk(text, entry_point)),
        root_kind(text, PrefixEntryPoint::Module) == SyntaxKind::MODULE,
{
    let tokens = lex_spec(text);
    let kinds = view_kinds(tokens);
    let left = remaining(kinds, 0);
    let events = crate::parsed_events(text, entry_point);
    lemma_lex_kinds(text, 0);
    lemma_skip_trivia(kinds, 0);
    lemma_parse_tidy(kinds, left, entry_point);
    lemma_parse_rooted(kinds, left, entry_point);
    lemma_parse_rooted(kinds, left, PrefixEntryPoint::Module);
    let end = parse_left(kinds, left, entry_point);
    assert(end == 0) by {
        if end > 0 {
            assert(kinds[kinds.len() - end] == tokens[kinds.len() - end].kind);
        }
    }
    lemma_rooted_walk(events, tokens, parse_node(kinds, left, entry_point));
}

/// The tree of a text is one node: the walk through its root is the walk of
/// the replay. The root of a whole file is a node `MODULE`, whatever the
/// text.
pub proof fn lemma_parse_root(
    text: Seq<char>,
    entry_point: PrefixEntryPoint,
    root: crate::tree::SyntaxNode,
)
    requires
        crate::sink::replayed(crate::parsed_walk(text, entry_point), root),
    ensures
        root.kind == root_kind(text, entry_point),
        entry_point == PrefixEntryPoint::Module ==> root.kind == SyntaxKind::MODULE,
        elements_steps(seq![SyntaxElement::Node(root)]) == crate::parsed_walk(text, entry_point),
{
    let top = choose|top: Seq<SyntaxElement>|
        elements_steps(top) == crate::parsed_walk(text, entry_point) && root_of(top, root);
    lemma_parse_walk(text, entry_point);
    lemma_one_root(top, root_kind(text, entry_point));
    assert(top =~= seq![SyntaxElement::Node(root)]);
}

/// Where the forward parents are in order, the chain from an opening follows
/// its links: it is empty without a link, and else begins with the target of
/// the link and goes on from there; its places lie further on and hold
/// openings.
pub proof fn lemma_chain(events: Seq<EventView>, i: int)
    requires
        linked(events),
        0 <= i < events.len(),
        events[i] is Open,
    ensures
        !has_link(events, i) ==> chain_targets(events, i).len() == 0,
        has_link(events, i) ==> chain_targets(events, i) == seq![link_target(events, i)]
            + chain_targets(events, link_target(events, i)),
        forall|k: int|
            0 <= k < chain_targets(events, i).len() ==> i < #[trigger] chain_targets(events, i)[k]
                < events.len() && events[chain_targets(events, i)[k]] is Open,
    decreases events.len() - i,
{
    if has_link(events, i) {
        let t = link_target(events, i);
        lemma_chain(events, t);
        let rest = chain_targets(events, t);
        let all = chain_targets(events, i);
        assert(all =~= seq![t] + rest);
        assert forall|k: int| 0 <= k < all.len() implies i < #[trigger] all[k] < events.len()
            && events[all[k]] is Open by {
            if k > 0 {
                assert(all[k] == rest[k - 1]);
            }
        }
    }
}

/// The place before `k` in the chain from `head`: `head` itself for the first
/// place.
pub open spec fn chain_source(events: Seq<EventView>, head: int, k: int) -> int {
    if k == 0 {
        head
    } else {
        chain_targets(events, head)[k - 1]
    }
}

/// Each place of a chain is the forward parent of the place before it.
pub proof fn lemma_chain_source(events: Seq<EventView>, head: int, k: int)
    requires
        linked(events),
        0 <= head < events.len(),
        events[head] is Open,
        0 <= k < chain_targets(events, head).len(),
    ensures
        has_link(events, chain_source(events, head, k)),
        link_target(events, chain_source(events, head, k)) == chain_targets(events, head)[k],
        chain_source(events, head, k) < chain_targets(events, head)[k],
    decreases k,
{
    lemma_chain(events, head);
    let t = link_target(events, head);
    let rest = chain_targets(events, t);
    let all = chain_targets(events, head);
    if k > 0 {
        lemma_chain_source(events, t, k - 1);
        assert(all[k] == rest[k - 1]);
        if k > 1 {
            assert(all[k - 1] == rest[k - 2]);
        }
    }
}

/// Every opening that the replay has started early is the forward parent of
/// an opening that the replay has passed or started.
pub open spec fn sourced(events: Seq<EventView>, started: Set<int>, n: int) -> bool {
    forall|t: int| #[trigger]
        started.contains(t) ==> 0 <= t < events.len() && events[t] is Open && exists|i: int|
            has_link(events, i) && link_target(events, i) == t && (i < n || started.contains(i))
}

pub proof fn lemma_replay_sourced(events: Seq<EventView>, tokens: Seq<TokenView>, n: nat)
    requires
        linked(events),
        n <= events.len(),
    ensures
        sourced(events, replay(events, tokens, n).started, n as int),
    decreases n,
{
    if n > 0 {
        lemma_replay_sourced(events, tokens, (n - 1) as nat);
        let r = replay(events, tokens, (n - 1) as nat);
        let a = apply_event(r, events, tokens, n - 1);
        let after = replay(events, tokens, n).started;
        assert(after == a.started);
        assert forall|t: int| #[trigger] after.contains(t) implies 0 <= t < events.len()
            && events[t] is Open && exists|i: int|
            has_link(events, i) && link_target(events, i) == t && (i < n || after.contains(i)) by {
            if r.started.contains(t) {
                let i = choose|i: int|
                    has_link(events, i) && link_target(events, i) == t && (i < n - 1
                        || r.started.contains(i));
                assert(has_link(events, i) && link_target(events, i) == t && (i < n
                    || after.contains(i)));
            } else {
                match events[n - 1] {
                    EventView::Open { .. } => {
                        let targets = chain_targets(events, n - 1);
                        lemma_chain(events, n - 1);
                        assert(targets.to_set().contains(t));
                        let k = choose|k: int| 0 <= k < targets.len() && targets[k] == t;
                        lemma_chain_source(events, n - 1, k);
                        let i = chain_source(events, n - 1, k);
                        if k > 0 {
                            assert(targets.to_set().contains(targets[k - 1]));
                        }
                        assert(has_link(events, i) && link_target(events, i) == t && (i < n
                            || after.contains(i)));
                    },
                    _ => {},
                }
            }
        }
    }
}

/// The chain from an opening that has not been started holds no opening that
/// has been started.
proof fn lemma_chain_fresh(events: Seq<EventView>, started: Set<int>, head: int, k: int)
    requires
        linked(events),
        0 <= head < events.len(),
        events[head] is Open,
        sourced(events, started, head),
        !started.contains(head),
        0 <= k < chain_targets(events, head).len(),
    ensures
        !started.contains(chain_targets(events, head)[k]),
    decreases k,
{
    let targets = chain_targets(events, head);
    lemma_chain(events, head);
    lemma_chain_source(events, head, k);
    let t = targets[k];
    let source = chain_source(events, head, k);
    if k > 0 {
        lemma_chain_fresh(events, started, head, k - 1);
    }
    if started.contains(t) {
        let i = choose|i: int|
            has_link(events, i) && link_target(events, i) == t && (i < head || started.contains(
                i,
            ));
        assert(has_link(events, source));
        assert(i == source);
    }
}

proof fn lemma_pending_add(started: Set<int>, x: int, from: int, to: int)
    requires
        !started.contains(x),
        from <= x < to,
    ensures
        pending(started.insert(x), from, to) == pending(started, from, to) + 1,
    decreases to - from,
{
    if from < to {
        if from == x {
            lemma_pending_insert(started, x, from + 1, to);
        } else {
            lemma_pending_add(started, x, from + 1, to);
        }
    }
}

proof fn lemma_pending_chain(started: Set<int>, added: Seq<int>, from: int, to: int)
    requires
        forall|k: int| 0 <= k < added.len() ==> from <= #[trigger] added[k] < to,
        forall|k: int| 0 <= k < added.len() ==> !started.contains(#[trigger] added[k]),
        forall|j: int, k: int| 0 <= j < k < added.len() ==> added[j] != added[k],
    ensures
        pending(started.union(added.to_set()), from, to) == pending(started, from, to)
            + added.len(),
    decreases added.len(),
{
    if added.len() == 0 {
        assert(started.union(added.to_set()) =~= started);
    } else {
        let shorter = added.drop_last();
        lemma_pending_chain(started, shorter, from, to);
        let before = started.union(shorter.to_set());
        assert(started.union(added.to_set()) =~= before.insert(added.last())) by {
            assert forall|x: int|
                started.union(added.to_set()).contains(x) <==> before.insert(
                    added.last(),
                ).contains(x) by {
                if added.contains(x) {
                    let j = choose|j: int| 0 <= j < added.len() && added[j] == x;
                    if j < shorter.len() {
                        assert(shorter[j] == x);
                    }
                }
                if shorter.contains(x) {
                    let j = choose|j: int| 0 <= j < shorter.len() && shorter[j] == x;
                    assert(added[j] == x);
                }
                if x == added.last() {
                    assert(added[added.len() - 1] == x);
                }
            }
        }
        assert(!before.contains(added.last())) by {
            if shorter.contains(added.last()) {
                let j = choose|j: int| 0 <= j < shorter.len() && shorter[j] == added.last();
                assert(added[j] == added[added.len() - 1]);
            }
        }
        lemma_pending_add(before, added.last(), from, to);
    }
}

/// Where the events are level and their forward parents in order, the
/// replay is exactly as deep as the events counted one by one, and the
/// openings that it has started early and not passed yet. No closing finds the
/// replay without an open node.
pub proof fn lemma_replay_exact(events: Seq<EventView>, tokens: Seq<TokenView>, n: nat)
    requires
        linked(events),
        level(events),
        n <= events.len(),
    ensures
        n >= 1 && events[n - 1] is Close ==> replay(events, tokens, (n - 1) as nat).depth >= 1,
        replay(events, tokens, n).depth == naive(events, n as int) + pending(
            replay(events, tokens, n).started,
            n as int,
            events.len() as int,
        ),
    decreases n,
{
    let len = events.len() as int;
    if n > 0 {
        lemma_replay_exact(events, tokens, (n - 1) as nat);
        lemma_replay_sourced(events, tokens, (n - 1) as nat);
        lemma_replay_above_naive(events, tokens, (n - 1) as nat);
        let r = replay(events, tokens, (n - 1) as nat);
        let a = apply_event(r, events, tokens, n - 1);
        assert(pending(r.started, n - 1, len) == (if r.started.contains(n - 1) {
            1nat
        } else {
            0nat
        }) + pending(r.started, n as int, len));
        match events[n - 1] {
            EventView::Open { kind, .. } => {
                if !r.started.contains(n - 1) {
                    let targets = chain_targets(events, n - 1);
                    lemma_chain(events, n - 1);
                    assert forall|k: int| 0 <= k < targets.len() implies !r.started.contains(
                        #[trigger] targets[k],
                    ) by {
                        lemma_chain_fresh(events, r.started, n - 1, k);
                    }
                    assert forall|j: int, k: int| 0 <= j < k < targets.len() implies targets[j]
                        != targets[k] by {
                        lemma_chain_rising(events, n - 1, j, k);
                    }
                    lemma_pending_chain(r.started, targets, n as int, len);
                    assert(kinds_at(events, targets).len() == targets.len());
                    assert(a.depth == r.depth + 1 + targets.len());
                    assert(a.started == r.started.union(targets.to_set()));
                }
            },
            EventView::Close => {
                assert(naive(events, n as int) >= 0);
                assert(naive(events, n - 1) >= 1);
                assert(r.depth >= 1);
            },
            _ => {},
        }
        assert(replay(events, tokens, n).started == a.started);
        assert(replay(events, tokens, n).depth == a.depth);
    } else {
        lemma_pending_empty(0, len);
    }
}

/// The places of a chain rise.
proof fn lemma_chain_rising(events: Seq<EventView>, head: int, j: int, k: int)
    requires
        linked(events),
        0 <= head < events.len(),
        events[head] is Open,
        0 <= j < k < chain_targets(events, head).len(),
    ensures
        chain_targets(events, head)[j] < chain_targets(events, head)[k],
    decreases k - j,
{
    lemma_chain_source(events, head, k);
    if j < k - 1 {
        lemma_chain_rising(events, head, j, k - 1);
    }
}

/// The replay leaves nothing undone: every closing closes a node, every
/// `Advance` takes a token, and at the end no node is open and no token is
/// left, so that the walk of the replay is made of the steps of the events
/// alone.
pub open spec fn clean(events: Seq<EventView>, tokens: Seq<TokenView>) -> bool {
    &&& forall|k: int|
        0 <= k < events.len() && #[trigger] events[k] is Close ==> replay(
            events,
            tokens,
            k as nat,
        ).depth >= 1
    &&& forall|k: int|
        0 <= k < events.len() && #[trigger] events[k] is Advance ==> replay(
            events,
            tokens,
            k as nat,
        ).cursor < tokens.len()
    &&& replay(events, tokens, events.len()).depth == 0
    &&& replay(events, tokens, events.len()).cursor == tokens.len()
    &&& replay_steps(events, tokens) == replay(events, tokens, events.len()).steps
}

/// Where tidy events that do not begin with an `Advance` consume every
/// token, their replay leaves nothing undone.
pub proof fn lemma_tidy_clean(events: Seq<EventView>, tokens: Seq<TokenView>)
    requires
        tidy(view_kinds(tokens), remaining(view_kinds(tokens), 0), events, 0),
        events.len() >= 1,
        !(events[0] is Advance),
    ensures
        clean(events, tokens),
{
    let kinds = view_kinds(tokens);
    let len = events.len();
    let end = replay(events, tokens, len);
    lemma_replay_exact(events, tokens, len);
    lemma_replay_cursor(events, tokens, len);
    lemma_skip_trivia(kinds, end.cursor);
    assert(pending(end.started, len as int, len as int) == 0);
    assert(end.depth == 0);
    assert(end.cursor == tokens.len());
    assert(leaves(tokens, end.cursor, tokens.len() as int) =~= Seq::<Step>::empty());
    assert(finishes(0) =~= Seq::<Step>::empty());
    assert(replay_steps(events, tokens) =~= end.steps);
    assert forall|k: int| 0 <= k < events.len() && #[trigger] events[k] is Close implies replay(
        events,
        tokens,
        k as nat,
    ).depth >= 1 by {
        lemma_replay_exact(events, tokens, (k + 1) as nat);
    }
    assert forall|k: int| 0 <= k < events.len() && #[trigger] events[k] is Advance implies replay(
        events,
        tokens,
        k as nat,
    ).cursor < tokens.len() by {
        lemma_replay_cursor(events, tokens, k as nat);
        let r = replay(events, tokens, k as nat);
        lemma_skip_trivia(kinds, r.cursor);
    }
}

} // verus!
