//! What holds of the events of every rule: every node that is opened is
//! closed, every token is counted, and a forward parent links an opening to a
//! later one.

use vstd::prelude::*;
use crate::event::{ErrorPlacement, EventView};
use crate::grammar::{parse_run, PrefixEntryPoint};
use crate::grammar::expr::{is_binary_op, starts_expr};
use crate::grammar::module_item::ends_item;
use crate::grammar::rules::{
    annotation_run, app_tail, arguments_run, atom_run, binary_run, binary_tail, block_item,
    block_items, block_run, bump_left, def_body_run, def_end_run, def_run, delimited_type_run,
    eat_run, error_run, expect_run, expected_text, expr_run, item_stop, lambda_run, lemma_bump_left,
    let_run, let_value_run, module_item_run, module_items, module_run, node_run, open_of, open_run,
    param_items, param_run, params_run, paren_run, peek_at, recover_run, rest_run, result_type_run,
    Run, skip_run, starts_param, type_definition_run, type_run, unexpected_run, unexpected_text,
    with_parent, within,
};
use crate::profile::{advances, bumps, naive};
use crate::sink::chain_targets;
use crate::syntax_kind::SyntaxKind;

verus! {

/// The events are level: counted one by one, they close no node that they did
/// not open, and leave none open; and no opening among them is still
/// unmatched.
pub open spec fn level(events: Seq<EventView>) -> bool {
    &&& naive(events, events.len() as int) == 0
    &&& forall|n: int| 0 <= n <= events.len() ==> #[trigger] naive(events, n) >= 0
    &&& forall|i: int| 0 <= i < events.len() ==> !(#[trigger] events[i] is Unmatched)
}

/// Every `Advance` among the events finds a token, when the events begin
/// with `from` tokens left.
pub open spec fn fed(kinds: Seq<SyntaxKind>, from: nat, events: Seq<EventView>) -> bool {
    forall|n: int|
        0 <= n < events.len() && #[trigger] events[n] is Advance ==> bumps(
            kinds,
            from,
            advances(events, n),
        ) > 0
}

/// The events are level, every `Advance` among them finds a token, and they
/// end with `to` tokens left.
pub open spec fn counted(kinds: Seq<SyntaxKind>, from: nat, events: Seq<EventView>, to: nat) -> bool {
    &&& level(events)
    &&& fed(kinds, from, events)
    &&& to == bumps(kinds, from, advances(events, events.len() as int))
    &&& to <= from
}

/// Whether the event at `i` is an opening with a forward parent.
pub open spec fn has_link(events: Seq<EventView>, i: int) -> bool {
    0 <= i < events.len() && events[i] is Open && events[i]->parent is Some
}

/// The place of the forward parent of the opening at `i`.
pub open spec fn link_target(events: Seq<EventView>, i: int) -> int {
    match events[i] {
        EventView::Open { parent: Some(d), .. } => i + d,
        _ => -1,
    }
}

/// The forward parents are in order: each link points forward, at an opening
/// among the events, and no two links point at the same opening.
pub open spec fn linked(events: Seq<EventView>) -> bool {
    &&& forall|i: int| #[trigger]
        has_link(events, i) ==> i < link_target(events, i) < events.len() && events[link_target(
            events,
            i,
        )] is Open
    &&& forall|i: int, j: int|
        #![trigger has_link(events, i), has_link(events, j)]
        has_link(events, i) && has_link(events, j) && i != j ==> link_target(events, i)
            != link_target(events, j)
}

/// The events are those of a stretch of parsing that begins with `from`
/// tokens left and ends with `to` left: they are level, their forward parents
/// are in order, and they consume one significant token for each `Advance`.
pub open spec fn tidy(kinds: Seq<SyntaxKind>, from: nat, events: Seq<EventView>, to: nat) -> bool {
    &&& counted(kinds, from, events, to)
    &&& linked(events)
}

pub proof fn lemma_naive_concat(a: Seq<EventView>, b: Seq<EventView>, n: int)
    requires
        0 <= n <= a.len() + b.len(),
    ensures
        naive(a + b, n) == (if n <= a.len() {
            naive(a, n)
        } else {
            naive(a, a.len() as int) + naive(b, n - a.len())
        }),
        advances(a + b, n) == (if n <= a.len() {
            advances(a, n)
        } else {
            advances(a, a.len() as int) + advances(b, n - a.len())
        }),
    decreases n,
{
    let all = a + b;
    assert(all.len() == a.len() + b.len());
    if n > 0 {
        lemma_naive_concat(a, b, n - 1);
        if n <= a.len() {
            assert(all[n - 1] == a[n - 1]);
            assert(naive(all, n) == naive(all, n - 1) + match all[n - 1] {
                EventView::Open { .. } => 1int,
                EventView::Close => -1int,
                _ => 0int,
            });
            assert(naive(a, n) == naive(a, n - 1) + match a[n - 1] {
                EventView::Open { .. } => 1int,
                EventView::Close => -1int,
                _ => 0int,
            });
        } else {
            let k = n - a.len();
            assert(all[n - 1] == b[k - 1]);
            assert(naive(all, n) == naive(all, n - 1) + match all[n - 1] {
                EventView::Open { .. } => 1int,
                EventView::Close => -1int,
                _ => 0int,
            });
            assert(naive(b, k) == naive(b, k - 1) + match b[k - 1] {
                EventView::Open { .. } => 1int,
                EventView::Close => -1int,
                _ => 0int,
            });
        }
    }
}

pub proof fn lemma_naive_parent(events: Seq<EventView>, node: int, target: int, n: int)
    requires
        0 <= n <= events.len(),
    ensures
        with_parent(events, node, target).len() == events.len(),
        naive(with_parent(events, node, target), n) == naive(events, n),
        advances(with_parent(events, node, target), n) == advances(events, n),
    decreases n,
{
    if n > 0 {
        lemma_naive_parent(events, node, target, n - 1);
    }
}

pub proof fn lemma_bumps_concat(kinds: Seq<SyntaxKind>, left: nat, x: nat, y: nat)
    ensures
        bumps(kinds, left, x + y) == bumps(kinds, bumps(kinds, left, x), y),
        bumps(kinds, left, x) <= left,
    decreases y,
{
    lemma_bumps_below(kinds, left, x);
    if y > 0 {
        lemma_bumps_concat(kinds, left, x, (y - 1) as nat);
    }
}

pub proof fn lemma_bumps_below(kinds: Seq<SyntaxKind>, left: nat, x: nat)
    ensures
        bumps(kinds, left, x) <= left,
    decreases x,
{
    if x > 0 {
        lemma_bumps_below(kinds, left, (x - 1) as nat);
        lemma_bump_left(kinds, bumps(kinds, left, (x - 1) as nat));
    }
}

pub proof fn lemma_tidy_empty(kinds: Seq<SyntaxKind>, left: nat)
    ensures
        tidy(kinds, left, Seq::empty(), left),
{
}

/// One token that is there.
pub proof fn lemma_tidy_advance(kinds: Seq<SyntaxKind>, left: nat)
    requires
        left > 0,
    ensures
        tidy(kinds, left, seq![EventView::Advance], bump_left(kinds, left)),
{
    let events = seq![EventView::Advance];
    reveal_with_fuel(naive, 2);
    reveal_with_fuel(advances, 2);
    reveal_with_fuel(bumps, 2);
    lemma_bump_left(kinds, left);
    assert forall|n: int| 0 <= n <= events.len() implies #[trigger] naive(events, n) >= 0 by {
    }
}

pub proof fn lemma_tidy_error(
    kinds: Seq<SyntaxKind>,
    left: nat,
    message: Seq<char>,
    location: ErrorPlacement,
)
    ensures
        tidy(kinds, left, error_run(message, location), left),
{
    let events = error_run(message, location);
    reveal_with_fuel(naive, 4);
    reveal_with_fuel(advances, 4);
    assert forall|n: int| 0 <= n <= events.len() implies #[trigger] naive(events, n) >= 0 by {
    }
}

proof fn lemma_counted_concat(
    kinds: Seq<SyntaxKind>,
    from: nat,
    first: Seq<EventView>,
    mid: nat,
    second: Seq<EventView>,
    to: nat,
)
    requires
        counted(kinds, from, first, mid),
        counted(kinds, mid, second, to),
    ensures
        counted(kinds, from, first + second, to),
{
    let all = first + second;
    lemma_naive_concat(first, second, all.len() as int);
    lemma_bumps_concat(
        kinds,
        from,
        advances(first, first.len() as int),
        advances(second, second.len() as int),
    );
    assert forall|n: int| 0 <= n <= all.len() implies #[trigger] naive(all, n) >= 0 by {
        lemma_naive_concat(first, second, n);
        if n > first.len() {
            assert(naive(second, n - first.len()) >= 0);
        } else {
            assert(naive(first, n) >= 0);
        }
    }
    assert forall|n: int| 0 <= n < all.len() && #[trigger] all[n] is Advance implies bumps(
        kinds,
        from,
        advances(all, n),
    ) > 0 by {
        lemma_naive_concat(first, second, n);
        if n < first.len() {
            assert(first[n] is Advance);
        } else {
            assert(second[n - first.len()] is Advance);
            lemma_bumps_concat(
                kinds,
                from,
                advances(first, first.len() as int),
                advances(second, n - first.len()),
            );
        }
    }
}

proof fn lemma_linked_concat(first: Seq<EventView>, second: Seq<EventView>)
    requires
        linked(first),
        linked(second),
    ensures
        linked(first + second),
        forall|i: int|
            has_link(first + second, i) <==> (has_link(first, i) || has_link(
                second,
                i - first.len(),
            )),
        forall|i: int|
            has_link(first, i) ==> link_target(first + second, i) == link_target(first, i),
        forall|i: int|
            has_link(second, i - first.len()) ==> link_target(first + second, i) == link_target(
                second,
                i - first.len(),
            ) + first.len(),
{
    let all = first + second;
    let k = first.len() as int;
    assert forall|i: int| has_link(all, i) <==> (has_link(first, i) || has_link(second, i - k)) by {
        if 0 <= i < k {
            assert(all[i] == first[i]);
        } else if k <= i < all.len() {
            assert(all[i] == second[i - k]);
        }
    }
    assert forall|i: int| has_link(first, i) implies link_target(all, i) == link_target(
        first,
        i,
    ) by {
        assert(all[i] == first[i]);
    }
    assert forall|i: int| has_link(second, i - k) implies link_target(all, i) == link_target(
        second,
        i - k,
    ) + k by {
        assert(all[i] == second[i - k]);
    }
    assert forall|i: int| #[trigger] has_link(all, i) implies i < link_target(all, i) < all.len()
        && all[link_target(all, i)] is Open by {
        if has_link(first, i) {
            assert(all[link_target(first, i)] == first[link_target(first, i)]);
        } else {
            assert(has_link(second, i - k));
            assert(all[link_target(second, i - k) + k] == second[link_target(second, i - k)]);
        }
    }
    assert forall|i: int, j: int|
        #![trigger has_link(all, i), has_link(all, j)]
        has_link(all, i) && has_link(all, j) && i != j implies link_target(all, i) != link_target(
        all,
        j,
    ) by {
        if has_link(first, i) && has_link(first, j) {
        } else if has_link(second, i - k) && has_link(second, j - k) {
        } else if has_link(first, i) {
            assert(has_link(second, j - k));
        } else {
            assert(has_link(second, i - k));
            assert(has_link(first, j));
        }
    }
}

pub proof fn lemma_tidy_concat(
    kinds: Seq<SyntaxKind>,
    from: nat,
    first: Seq<EventView>,
    mid: nat,
    second: Seq<EventView>,
    to: nat,
)
    requires
        tidy(kinds, from, first, mid),
        tidy(kinds, mid, second, to),
    ensures
        tidy(kinds, from, first + second, to),
{
    lemma_counted_concat(kinds, from, first, mid, second, to);
    lemma_linked_concat(first, second);
}

proof fn lemma_counted_node(
    kinds: Seq<SyntaxKind>,
    from: nat,
    kind: SyntaxKind,
    inner: Seq<EventView>,
    to: nat,
)
    requires
        counted(kinds, from, inner, to),
    ensures
        counted(kinds, from, node_run(kind, inner), to),
        node_run(kind, inner).len() == inner.len() + 2,
        node_run(kind, inner)[0] == open_of(kind),
        forall|n: int|
            0 < n < node_run(kind, inner).len() ==> #[trigger] naive(node_run(kind, inner), n) >= 1,
{
    let open = seq![open_of(kind)];
    let close = seq![EventView::Close];
    let all = node_run(kind, inner);
    reveal_with_fuel(naive, 2);
    reveal_with_fuel(advances, 2);
    assert(naive(open, 1) == 1);
    assert(advances(open, 1) == 0);
    assert(naive(close, 1) == -1);
    assert(advances(close, 1) == 0);
    assert forall|n: int| 0 <= n <= all.len() implies #[trigger] naive(all, n) == (if n == 0 {
        0int
    } else if n <= inner.len() + 1 {
        1 + naive(inner, n - 1)
    } else {
        0int
    }) && advances(all, n) == (if n == 0 {
        0nat
    } else {
        advances(inner, if n <= inner.len() + 1 {
            n - 1
        } else {
            inner.len() as int
        })
    }) by {
        lemma_naive_concat(open + inner, close, n);
        if n <= inner.len() + 1 {
            lemma_naive_concat(open, inner, n);
        } else {
            lemma_naive_concat(open, inner, inner.len() as int + 1);
        }
    }
    assert(naive(all, all.len() as int) == 0);
    assert forall|n: int| 0 <= n <= all.len() implies #[trigger] naive(all, n) >= 0 by {
        if 0 < n <= inner.len() + 1 {
            assert(naive(inner, n - 1) >= 0);
        }
    }
    assert forall|n: int| 0 < n < all.len() implies #[trigger] naive(all, n) >= 1 by {
        assert(naive(inner, n - 1) >= 0);
    }
    assert(advances(all, all.len() as int) == advances(inner, inner.len() as int));
    assert forall|n: int| 0 <= n < all.len() && #[trigger] all[n] is Advance implies bumps(
        kinds,
        from,
        advances(all, n),
    ) > 0 by {
        assert(0 < n <= inner.len());
        assert(all[n] == inner[n - 1]);
        assert(inner[n - 1] is Advance);
        assert(naive(all, n) >= 0);
        assert(advances(all, n) == advances(inner, n - 1));
    }
}

proof fn lemma_linked_node(kind: SyntaxKind, inner: Seq<EventView>)
    requires
        linked(inner),
    ensures
        linked(node_run(kind, inner)),
        !has_link(node_run(kind, inner), 0),
        forall|i: int|
            has_link(node_run(kind, inner), i) ==> link_target(node_run(kind, inner), i) >= 2,
{
    let open = seq![open_of(kind)];
    let close = seq![EventView::Close];
    assert(linked(open)) by {
        assert forall|i: int| !has_link(open, i) by {}
    }
    assert(linked(close)) by {
        assert forall|i: int| !has_link(close, i) by {}
    }
    lemma_linked_concat(open, inner);
    lemma_linked_concat(open + inner, close);
    let all = node_run(kind, inner);
    assert forall|i: int| has_link(all, i) implies link_target(all, i) >= 2 by {
        assert(!has_link(close, i - (open + inner).len()));
        assert(has_link(open + inner, i));
        assert(!has_link(open, i));
        assert(has_link(inner, i - 1));
    }
}

/// A node around tidy events is tidy, and inside it a node is open.
pub proof fn lemma_tidy_node(
    kinds: Seq<SyntaxKind>,
    from: nat,
    kind: SyntaxKind,
    inner: Seq<EventView>,
    to: nat,
)
    requires
        tidy(kinds, from, inner, to),
    ensures
        tidy(kinds, from, node_run(kind, inner), to),
        node_run(kind, inner).len() == inner.len() + 2,
        node_run(kind, inner)[0] == open_of(kind),
        forall|n: int|
            0 < n < node_run(kind, inner).len() ==> #[trigger] naive(node_run(kind, inner), n) >= 1,
{
    lemma_counted_node(kinds, from, kind, inner, to);
    lemma_linked_node(kind, inner);
}

proof fn lemma_counted_parent(
    kinds: Seq<SyntaxKind>,
    from: nat,
    events: Seq<EventView>,
    node: int,
    target: int,
    to: nat,
)
    requires
        counted(kinds, from, events, to),
    ensures
        counted(kinds, from, with_parent(events, node, target), to),
{
    let linked = with_parent(events, node, target);
    lemma_naive_parent(events, node, target, events.len() as int);
    assert forall|n: int| 0 <= n <= linked.len() implies #[trigger] naive(linked, n) >= 0 by {
        lemma_naive_parent(events, node, target, n);
        assert(naive(events, n) >= 0);
    }
    assert forall|n: int| 0 <= n < linked.len() && #[trigger] linked[n] is Advance implies bumps(
        kinds,
        from,
        advances(linked, n),
    ) > 0 by {
        lemma_naive_parent(events, node, target, n);
        assert(events[n] is Advance);
    }
    assert forall|i: int| 0 <= i < linked.len() implies !(#[trigger] linked[i] is Unmatched) by {
        assert(!(events[i] is Unmatched));
    }
}

/// A new parent for what was parsed: where the opening at `node` gets the
/// opening at the place `k` of what follows as its forward parent, the links
/// stay in order, as long as no link of what follows points at that opening.
proof fn lemma_linked_adopt(first: Seq<EventView>, node: int, rest: Seq<EventView>, k: int)
    requires
        linked(first),
        linked(rest),
        0 <= k < rest.len(),
        rest[k] is Open,
        forall|j: int| has_link(rest, j) ==> link_target(rest, j) != k,
    ensures
        linked(with_parent(first, node, first.len() as int + k) + rest),
{
    let target = first.len() as int + k;
    let changed = with_parent(first, node, target);
    let all = changed + rest;
    let n = first.len() as int;
    assert(changed.len() == n);
    assert forall|i: int| has_link(all, i) implies (if i < n {
        if i == node && first[node] is Open {
            link_target(all, i) == target
        } else {
            has_link(first, i) && link_target(all, i) == link_target(first, i)
        }
    } else {
        has_link(rest, i - n) && link_target(all, i) == link_target(rest, i - n) + n
    }) by {
        if i < n {
            assert(all[i] == changed[i]);
        } else {
            assert(all[i] == rest[i - n]);
        }
    }
    assert forall|i: int| #[trigger] has_link(all, i) implies i < link_target(all, i) < all.len()
        && all[link_target(all, i)] is Open by {
        if i < n {
            if i == node && first[node] is Open {
                assert(all[target] == rest[k]);
            } else {
                let t = link_target(first, i);
                assert(all[t] == changed[t]);
                assert(first[t] is Open);
            }
        } else {
            let t = link_target(rest, i - n);
            assert(all[t + n] == rest[t]);
        }
    }
    assert forall|i: int, j: int|
        #![trigger has_link(all, i), has_link(all, j)]
        has_link(all, i) && has_link(all, j) && i != j implies link_target(all, i) != link_target(
        all,
        j,
    ) by {
        let ti = link_target(all, i);
        let tj = link_target(all, j);
        if i < n && j < n {
            if i == node && first[node] is Open {
                assert(has_link(first, j));
            } else if j == node && first[node] is Open {
                assert(has_link(first, i));
            } else {
                assert(has_link(first, i) && has_link(first, j));
            }
        } else if i >= n && j >= n {
            assert(has_link(rest, i - n) && has_link(rest, j - n));
        } else if i < n {
            assert(has_link(rest, j - n));
            if !(i == node && first[node] is Open) {
                assert(has_link(first, i));
            }
        } else {
            assert(has_link(rest, i - n));
            if !(j == node && first[node] is Open) {
                assert(has_link(first, j));
            }
        }
    }
}

/// What was parsed gets a new parent: the opening at `node` of `first` gets
/// as its forward parent the node of `kind` that follows `between` and holds
/// `inner`. The events stay tidy.
pub proof fn lemma_tidy_adopt(
    kinds: Seq<SyntaxKind>,
    from: nat,
    first: Seq<EventView>,
    node: int,
    after_first: nat,
    between: Seq<EventView>,
    after_between: nat,
    kind: SyntaxKind,
    inner: Seq<EventView>,
    to: nat,
)
    requires
        tidy(kinds, from, first, after_first),
        tidy(kinds, after_first, between, after_between),
        tidy(kinds, after_between, inner, to),
    ensures
        tidy(
            kinds,
            from,
            with_parent(first, node, (first.len() + between.len()) as int) + between + node_run(
                kind,
                inner,
            ),
            to,
        ),
{
    let target = (first.len() + between.len()) as int;
    let changed = with_parent(first, node, target);
    let parent = node_run(kind, inner);
    let rest = between + parent;
    lemma_counted_parent(kinds, from, first, node, target, after_first);
    lemma_counted_node(kinds, after_between, kind, inner, to);
    lemma_counted_concat(kinds, after_first, between, after_between, parent, to);
    lemma_counted_concat(kinds, from, changed, after_first, rest, to);
    lemma_linked_node(kind, inner);
    lemma_linked_concat(between, parent);
    assert(rest[between.len() as int] == parent[0]);
    assert forall|j: int| has_link(rest, j) implies link_target(rest, j) != between.len() by {
        if has_link(between, j) {
        } else {
            assert(has_link(parent, j - between.len()));
        }
    }
    lemma_linked_adopt(first, node, rest, between.len() as int);
    assert(changed + between + parent =~= changed + rest);
}

/// A rule that runs from `left` tokens is tidy.
pub open spec fn run_tidy(kinds: Seq<SyntaxKind>, left: nat, run: Run) -> bool {
    tidy(kinds, left, run.events, run.left)
}

proof fn lemma_tidy_one(kinds: Seq<SyntaxKind>, left: nat, message: Seq<char>, location: ErrorPlacement)
    ensures
        tidy(kinds, left, seq![EventView::Error { message, location }], left),
{
    let events = seq![EventView::Error { message, location }];
    reveal_with_fuel(naive, 2);
    reveal_with_fuel(advances, 2);
    assert forall|n: int| 0 <= n <= events.len() implies #[trigger] naive(events, n) >= 0 by {
    }
}

/// Two tidy stretches and what stands between them in a node.
proof fn lemma_tidy_pair(
    kinds: Seq<SyntaxKind>,
    from: nat,
    first: Seq<EventView>,
    mid: nat,
    kind: SyntaxKind,
    inner: Seq<EventView>,
    to: nat,
)
    requires
        tidy(kinds, from, first, mid),
        tidy(kinds, mid, inner, to),
    ensures
        tidy(kinds, from, first + node_run(kind, inner), to),
{
    lemma_tidy_node(kinds, mid, kind, inner, to);
    lemma_tidy_concat(kinds, from, first, mid, node_run(kind, inner), to);
}

pub proof fn lemma_expect_tidy(kinds: Seq<SyntaxKind>, left: nat, wanted: SyntaxKind)
    requires
        wanted != SyntaxKind::EOF,
    ensures
        run_tidy(kinds, left, expect_run(kinds, left, wanted)),
{
    if peek_at(kinds, left) == wanted {
        lemma_tidy_advance(kinds, left);
    } else {
        lemma_tidy_error(
            kinds,
            left,
            expected_text(wanted, peek_at(kinds, left)),
            ErrorPlacement::PrevTokenEnd,
        );
    }
}

pub proof fn lemma_eat_tidy(kinds: Seq<SyntaxKind>, left: nat, wanted: SyntaxKind)
    requires
        wanted != SyntaxKind::EOF,
    ensures
        run_tidy(kinds, left, eat_run(kinds, left, wanted)),
{
    if peek_at(kinds, left) == wanted {
        lemma_tidy_advance(kinds, left);
    } else {
        lemma_tidy_empty(kinds, left);
    }
}

pub proof fn lemma_unexpected_tidy(kinds: Seq<SyntaxKind>, left: nat)
    requires
        peek_at(kinds, left) != SyntaxKind::EOF,
    ensures
        run_tidy(kinds, left, unexpected_run(kinds, left)),
{
    lemma_tidy_error(kinds, left, unexpected_text(peek_at(kinds, left)), ErrorPlacement::NextToken);
    lemma_tidy_advance(kinds, left);
    lemma_tidy_concat(
        kinds,
        left,
        error_run(unexpected_text(peek_at(kinds, left)), ErrorPlacement::NextToken),
        left,
        seq![EventView::Advance],
        bump_left(kinds, left),
    );
}

pub proof fn lemma_skip_tidy(kinds: Seq<SyntaxKind>, left: nat, stop: Set<SyntaxKind>)
    ensures
        run_tidy(kinds, left, skip_run(kinds, left, stop)),
    decreases left,
{
    if left == 0 || peek_at(kinds, left) == SyntaxKind::EOF || stop.contains(peek_at(kinds, left)) {
        lemma_tidy_empty(kinds, left);
    } else {
        lemma_bump_left(kinds, left);
        let next = bump_left(kinds, left);
        lemma_skip_tidy(kinds, next, stop);
        lemma_tidy_advance(kinds, left);
        lemma_tidy_concat(
            kinds,
            left,
            seq![EventView::Advance],
            next,
            skip_run(kinds, next, stop).events,
            skip_run(kinds, next, stop).left,
        );
    }
}

pub proof fn lemma_recover_tidy(
    kinds: Seq<SyntaxKind>,
    left: nat,
    stop: Set<SyntaxKind>,
    message: Seq<char>,
)
    ensures
        run_tidy(kinds, left, recover_run(kinds, left, stop, message)),
{
    let skipped = skip_run(kinds, left, stop);
    let error = seq![EventView::Error { message, location: ErrorPlacement::NextToken }];
    lemma_skip_tidy(kinds, left, stop);
    lemma_tidy_one(kinds, left, message, ErrorPlacement::NextToken);
    lemma_tidy_concat(kinds, left, error, left, skipped.events, skipped.left);
    lemma_tidy_node(kinds, left, SyntaxKind::ERROR, error + skipped.events, skipped.left);
    assert(recover_run(kinds, left, stop, message).events =~= node_run(
        SyntaxKind::ERROR,
        error + skipped.events,
    ));
}

pub proof fn lemma_delimited_type_tidy(kinds: Seq<SyntaxKind>, left: nat)
    ensures
        run_tidy(kinds, left, delimited_type_run(kinds, left)),
    decreases left, 0nat,
{
    if peek_at(kinds, left) == SyntaxKind::IDENT {
        lemma_tidy_advance(kinds, left);
        lemma_tidy_node(
            kinds,
            left,
            SyntaxKind::TYPE_IDENT,
            seq![EventView::Advance],
            bump_left(kinds, left),
        );
    } else if peek_at(kinds, left) == SyntaxKind::L_PAREN {
        lemma_bump_left(kinds, left);
        let start = bump_left(kinds, left);
        let inner = type_run(kinds, start);
        let close = expect_run(kinds, inner.left, SyntaxKind::R_PAREN);
        lemma_type_tidy(kinds, start);
        lemma_expect_tidy(kinds, inner.left, SyntaxKind::R_PAREN);
        lemma_tidy_advance(kinds, left);
        lemma_tidy_concat(kinds, left, seq![EventView::Advance], start, inner.events, inner.left);
        lemma_tidy_concat(
            kinds,
            left,
            seq![EventView::Advance] + inner.events,
            inner.left,
            close.events,
            close.left,
        );
        lemma_tidy_node(
            kinds,
            left,
            SyntaxKind::TYPE_PAREN,
            seq![EventView::Advance] + inner.events + close.events,
            close.left,
        );
    } else {
        lemma_tidy_error(kinds, left, "Expected type expression"@, ErrorPlacement::PrevTokenEnd);
    }
}

pub proof fn lemma_type_tidy(kinds: Seq<SyntaxKind>, left: nat)
    ensures
        run_tidy(kinds, left, type_run(kinds, left)),
    decreases left, 1nat,
{
    let lhs = delimited_type_run(kinds, left);
    lemma_delimited_type_tidy(kinds, left);
    let next = within(lhs.left, left);
    if peek_at(kinds, next) == SyntaxKind::ARROW {
        lemma_bump_left(kinds, next);
        let after = bump_left(kinds, next);
        let rhs = type_run(kinds, after);
        lemma_type_tidy(kinds, after);
        lemma_tidy_advance(kinds, next);
        lemma_tidy_adopt(
            kinds,
            left,
            lhs.events,
            lhs.node,
            next,
            seq![EventView::Advance],
            after,
            SyntaxKind::TYPE_ARROW,
            rhs.events,
            rhs.left,
        );
        assert(type_run(kinds, left).events =~= with_parent(
            lhs.events,
            lhs.node,
            lhs.events.len() as int + 1,
        ) + seq![EventView::Advance] + node_run(SyntaxKind::TYPE_ARROW, rhs.events));
    }
}

pub proof fn lemma_annotation_tidy(kinds: Seq<SyntaxKind>, left: nat)
    ensures
        run_tidy(kinds, left, annotation_run(kinds, left)),
{
    if peek_at(kinds, left) == SyntaxKind::COLON {
        lemma_bump_left(kinds, left);
        let start = bump_left(kinds, left);
        let inner = type_run(kinds, start);
        lemma_type_tidy(kinds, start);
        lemma_tidy_advance(kinds, left);
        lemma_tidy_concat(kinds, left, seq![EventView::Advance], start, inner.events, inner.left);
        lemma_tidy_node(
            kinds,
            left,
            SyntaxKind::TYPE_ANNOTATION,
            seq![EventView::Advance] + inner.events,
            inner.left,
        );
    } else {
        lemma_tidy_empty(kinds, left);
    }
}

pub proof fn lemma_result_type_tidy(kinds: Seq<SyntaxKind>, left: nat)
    ensures
        run_tidy(kinds, left, result_type_run(kinds, left)),
{
    if peek_at(kinds, left) == SyntaxKind::COLON {
        lemma_bump_left(kinds, left);
        let start = bump_left(kinds, left);
        let inner = delimited_type_run(kinds, start);
        lemma_delimited_type_tidy(kinds, start);
        lemma_tidy_advance(kinds, left);
        lemma_tidy_concat(kinds, left, seq![EventView::Advance], start, inner.events, inner.left);
        lemma_tidy_node(
            kinds,
            left,
            SyntaxKind::TYPE_ANNOTATION,
            seq![EventView::Advance] + inner.events,
            inner.left,
        );
    } else {
        lemma_tidy_empty(kinds, left);
    }
}

pub proof fn lemma_param_tidy(kinds: Seq<SyntaxKind>, left: nat)
    ensures
        run_tidy(kinds, left, param_run(kinds, left)),
        starts_param(peek_at(kinds, left)) ==> param_run(kinds, left).left < left,
{
    lemma_bump_left(kinds, left);
    if peek_at(kinds, left) == SyntaxKind::IDENT {
        lemma_tidy_advance(kinds, left);
        lemma_tidy_node(
            kinds,
            left,
            SyntaxKind::PARAM,
            seq![EventView::Advance],
            bump_left(kinds, left),
        );
    } else if peek_at(kinds, left) == SyntaxKind::L_PAREN {
        let start = bump_left(kinds, left);
        let name = expect_run(kinds, start, SyntaxKind::IDENT);
        let colon = expect_run(kinds, name.left, SyntaxKind::COLON);
        let typ = type_run(kinds, colon.left);
        let close = expect_run(kinds, typ.left, SyntaxKind::R_PAREN);
        lemma_expect_tidy(kinds, start, SyntaxKind::IDENT);
        lemma_expect_tidy(kinds, name.left, SyntaxKind::COLON);
        lemma_type_tidy(kinds, colon.left);
        lemma_expect_tidy(kinds, typ.left, SyntaxKind::R_PAREN);
        lemma_tidy_advance(kinds, left);
        lemma_tidy_concat(kinds, left, seq![EventView::Advance], start, name.events, name.left);
        lemma_tidy_concat(kinds, name.left, colon.events, colon.left, typ.events, typ.left);
        lemma_tidy_pair(
            kinds,
            left,
            seq![EventView::Advance] + name.events,
            name.left,
            SyntaxKind::TYPE_ANNOTATION,
            colon.events + typ.events,
            typ.left,
        );
        lemma_tidy_concat(
            kinds,
            left,
            seq![EventView::Advance] + name.events + node_run(
                SyntaxKind::TYPE_ANNOTATION,
                colon.events + typ.events,
            ),
            typ.left,
            close.events,
            close.left,
        );
        lemma_tidy_node(
            kinds,
            left,
            SyntaxKind::PARAM,
            seq![EventView::Advance] + name.events + node_run(
                SyntaxKind::TYPE_ANNOTATION,
                colon.events + typ.events,
            ) + close.events,
            close.left,
        );
    } else {
        lemma_tidy_empty(kinds, left);
        lemma_tidy_node(kinds, left, SyntaxKind::PARAM, Seq::empty(), left);
    }
}

pub proof fn lemma_param_items_tidy(kinds: Seq<SyntaxKind>, left: nat)
    ensures
        run_tidy(kinds, left, param_items(kinds, left)),
    decreases left,
{
    if starts_param(peek_at(kinds, left)) {
        let first = param_run(kinds, left);
        lemma_param_tidy(kinds, left);
        let rest = param_items(kinds, first.left);
        lemma_param_items_tidy(kinds, first.left);
        lemma_tidy_concat(kinds, left, first.events, first.left, rest.events, rest.left);
    } else {
        lemma_tidy_empty(kinds, left);
    }
}

pub proof fn lemma_params_tidy(kinds: Seq<SyntaxKind>, left: nat)
    ensures
        run_tidy(kinds, left, params_run(kinds, left)),
{
    let items = param_items(kinds, left);
    lemma_param_items_tidy(kinds, left);
    lemma_tidy_node(kinds, left, SyntaxKind::PARAMS, items.events, items.left);
}

pub proof fn lemma_expr_tidy(kinds: Seq<SyntaxKind>, left: nat)
    ensures
        run_tidy(kinds, left, expr_run(kinds, left)),
        starts_expr(peek_at(kinds, left)) ==> expr_run(kinds, left).left < left,
    decreases left, 4nat,
{
    if peek_at(kinds, left) == SyntaxKind::BACKSLASH {
        lemma_lambda_tidy(kinds, left);
    } else {
        lemma_binary_tidy(kinds, left);
    }
}

pub proof fn lemma_lambda_tidy(kinds: Seq<SyntaxKind>, left: nat)
    ensures
        run_tidy(kinds, left, lambda_run(kinds, left)),
        peek_at(kinds, left) == SyntaxKind::BACKSLASH ==> lambda_run(kinds, left).left < left,
    decreases left, 1nat,
{
    if peek_at(kinds, left) != SyntaxKind::BACKSLASH {
        lemma_tidy_empty(kinds, left);
    } else {
        lemma_bump_left(kinds, left);
        let start = bump_left(kinds, left);
        let params = params_run(kinds, start);
        let annotation = result_type_run(kinds, params.left);
        let arrow = expect_run(kinds, annotation.left, SyntaxKind::ARROW);
        lemma_params_tidy(kinds, start);
        lemma_result_type_tidy(kinds, params.left);
        lemma_expect_tidy(kinds, annotation.left, SyntaxKind::ARROW);
        let body = expr_run(kinds, within(arrow.left, start));
        lemma_expr_tidy(kinds, arrow.left);
        lemma_tidy_advance(kinds, left);
        let a = seq![EventView::Advance];
        lemma_tidy_concat(kinds, left, a, start, params.events, params.left);
        lemma_tidy_concat(
            kinds,
            left,
            a + params.events,
            params.left,
            annotation.events,
            annotation.left,
        );
        lemma_tidy_concat(
            kinds,
            left,
            a + params.events + annotation.events,
            annotation.left,
            arrow.events,
            arrow.left,
        );
        lemma_tidy_concat(
            kinds,
            left,
            a + params.events + annotation.events + arrow.events,
            arrow.left,
            body.events,
            body.left,
        );
        lemma_tidy_node(
            kinds,
            left,
            SyntaxKind::LAMBDA_EXPR,
            a + params.events + annotation.events + arrow.events + body.events,
            body.left,
        );
    }
}

pub proof fn lemma_binary_tail_tidy(
    kinds: Seq<SyntaxKind>,
    from: nat,
    events: Seq<EventView>,
    node: int,
    left: nat,
)
    requires
        tidy(kinds, from, events, left),
    ensures
        tidy(
            kinds,
            from,
            binary_tail(kinds, events, node, left).events,
            binary_tail(kinds, events, node, left).left,
        ),
    decreases left, 0nat,
{
    if is_binary_op(peek_at(kinds, left)) {
        lemma_bump_left(kinds, left);
        let after = bump_left(kinds, left);
        let operand = atom_run(kinds, after);
        lemma_atom_tidy(kinds, after);
        lemma_tidy_advance(kinds, left);
        lemma_tidy_concat(kinds, left, seq![EventView::Advance], after, operand.events, operand.left);
        lemma_tidy_empty(kinds, left);
        lemma_tidy_adopt(
            kinds,
            from,
            events,
            node,
            left,
            Seq::empty(),
            left,
            SyntaxKind::BINARY_EXPR,
            seq![EventView::Advance] + operand.events,
            operand.left,
        );
        let linked = with_parent(events, node, events.len() as int);
        let next = linked + seq![open_of(SyntaxKind::BINARY_EXPR), EventView::Advance]
            + operand.events + seq![EventView::Close];
        assert(next =~= linked + Seq::<EventView>::empty() + node_run(
            SyntaxKind::BINARY_EXPR,
            seq![EventView::Advance] + operand.events,
        ));
        lemma_binary_tail_tidy(kinds, from, next, events.len() as int, operand.left);
    }
}

pub proof fn lemma_binary_tidy(kinds: Seq<SyntaxKind>, left: nat)
    ensures
        run_tidy(kinds, left, binary_run(kinds, left)),
        starts_expr(peek_at(kinds, left)) ==> binary_run(kinds, left).left < left,
    decreases left, 3nat,
{
    let first = atom_run(kinds, left);
    lemma_atom_tidy(kinds, left);
    lemma_binary_tail_tidy(kinds, left, first.events, first.node, first.left);
    lemma_binary_tail_below(kinds, first.events, first.node, first.left);
}

/// What follows an operand consumes no token backwards.
pub proof fn lemma_binary_tail_below(
    kinds: Seq<SyntaxKind>,
    events: Seq<EventView>,
    node: int,
    left: nat,
)
    ensures
        binary_tail(kinds, events, node, left).left <= left,
    decreases left, 0nat,
{
    if is_binary_op(peek_at(kinds, left)) {
        lemma_bump_left(kinds, left);
        let after = bump_left(kinds, left);
        let operand = atom_run(kinds, after);
        lemma_binary_tail_below(
            kinds,
            with_parent(events, node, events.len() as int) + seq![
                open_of(SyntaxKind::BINARY_EXPR),
                EventView::Advance,
            ] + operand.events + seq![EventView::Close],
            events.len() as int,
            within(operand.left, after),
        );
    }
}

pub proof fn lemma_atom_tidy(kinds: Seq<SyntaxKind>, left: nat)
    ensures
        run_tidy(kinds, left, atom_run(kinds, left)),
        starts_expr(peek_at(kinds, left)) ==> atom_run(kinds, left).left < left,
    decreases left, 2nat,
{
    let kind = peek_at(kinds, left);
    lemma_bump_left(kinds, left);
    if kind == SyntaxKind::IDENT {
        lemma_tidy_advance(kinds, left);
        lemma_tidy_node(
            kinds,
            left,
            SyntaxKind::IDENT_EXPR,
            seq![EventView::Advance],
            bump_left(kinds, left),
        );
    } else if kind == SyntaxKind::INT {
        lemma_tidy_advance(kinds, left);
        lemma_tidy_node(
            kinds,
            left,
            SyntaxKind::LITERAL_EXPR,
            seq![EventView::Advance],
            bump_left(kinds, left),
        );
    } else if kind == SyntaxKind::L_PAREN {
        lemma_paren_tidy(kinds, left);
    } else if kind == SyntaxKind::L_BRACE {
        lemma_block_tidy(kinds, left);
    } else if kind == SyntaxKind::BACKSLASH {
        lemma_lambda_tidy(kinds, left);
    } else {
        lemma_tidy_error(kinds, left, "Expected expression"@, ErrorPlacement::PrevTokenEnd);
    }
}

pub proof fn lemma_app_tail_tidy(
    kinds: Seq<SyntaxKind>,
    from: nat,
    events: Seq<EventView>,
    node: int,
    left: nat,
)
    requires
        tidy(kinds, from, events, left),
    ensures
        tidy(
            kinds,
            from,
            app_tail(kinds, events, node, left).events,
            app_tail(kinds, events, node, left).left,
        ),
    decreases left, 3nat,
{
    if starts_expr(peek_at(kinds, left)) {
        let arg = atom_run(kinds, left);
        lemma_atom_tidy(kinds, left);
        if arg.left < left {
            lemma_tidy_empty(kinds, left);
            lemma_tidy_adopt(
                kinds,
                from,
                events,
                node,
                left,
                Seq::empty(),
                left,
                SyntaxKind::APP_EXPR,
                arg.events,
                arg.left,
            );
            let linked = with_parent(events, node, events.len() as int);
            let next = linked + seq![open_of(SyntaxKind::APP_EXPR)] + arg.events + seq![
                EventView::Close,
            ];
            assert(next =~= linked + Seq::<EventView>::empty() + node_run(
                SyntaxKind::APP_EXPR,
                arg.events,
            ));
            lemma_app_tail_tidy(kinds, from, next, events.len() as int, arg.left);
        }
    }
}

pub proof fn lemma_arguments_tidy(kinds: Seq<SyntaxKind>, left: nat)
    ensures
        run_tidy(kinds, left, arguments_run(kinds, left)),
    decreases left, 5nat,
{
    if starts_expr(peek_at(kinds, left)) {
        let first = expr_run(kinds, left);
        lemma_expr_tidy(kinds, left);
        if first.left < left {
            lemma_app_tail_tidy(kinds, left, first.events, first.node, first.left);
        }
    } else {
        lemma_tidy_empty(kinds, left);
    }
}

pub proof fn lemma_paren_tidy(kinds: Seq<SyntaxKind>, left: nat)
    ensures
        run_tidy(kinds, left, paren_run(kinds, left)),
        peek_at(kinds, left) == SyntaxKind::L_PAREN ==> paren_run(kinds, left).left < left,
    decreases left, 1nat,
{
    if peek_at(kinds, left) != SyntaxKind::L_PAREN {
        lemma_tidy_empty(kinds, left);
    } else {
        lemma_bump_left(kinds, left);
        let start = bump_left(kinds, left);
        let inner = arguments_run(kinds, start);
        let close = expect_run(kinds, inner.left, SyntaxKind::R_PAREN);
        lemma_arguments_tidy(kinds, start);
        lemma_expect_tidy(kinds, inner.left, SyntaxKind::R_PAREN);
        lemma_tidy_advance(kinds, left);
        let a = seq![EventView::Advance];
        lemma_tidy_concat(kinds, left, a, start, inner.events, inner.left);
        lemma_tidy_concat(kinds, left, a + inner.events, inner.left, close.events, close.left);
        lemma_tidy_node(
            kinds,
            left,
            SyntaxKind::PAREN_EXPR,
            a + inner.events + close.events,
            close.left,
        );
    }
}

pub proof fn lemma_block_item_tidy(kinds: Seq<SyntaxKind>, left: nat)
    requires
        peek_at(kinds, left) != SyntaxKind::EOF,
    ensures
        run_tidy(kinds, left, block_item(kinds, left)),
        block_item(kinds, left).left < left,
    decreases left, 5nat,
{
    let kind = peek_at(kinds, left);
    lemma_bump_left(kinds, left);
    if kind == SyntaxKind::LET_KW {
        lemma_let_tidy(kinds, left);
    } else if starts_expr(kind) {
        let value = expr_run(kinds, left);
        lemma_expr_tidy(kinds, left);
        let after = peek_at(kinds, value.left);
        if after != SyntaxKind::R_BRACE && after != SyntaxKind::EOF {
            let semicolon = expect_run(kinds, value.left, SyntaxKind::SEMICOLON);
            lemma_expect_tidy(kinds, value.left, SyntaxKind::SEMICOLON);
            lemma_tidy_empty(kinds, value.left);
            lemma_tidy_adopt(
                kinds,
                left,
                value.events,
                value.node,
                value.left,
                Seq::empty(),
                value.left,
                SyntaxKind::EXPR_STMT,
                semicolon.events,
                semicolon.left,
            );
            let linked = with_parent(value.events, value.node, value.events.len() as int);
            assert(block_item(kinds, left).events =~= linked + Seq::<EventView>::empty()
                + node_run(SyntaxKind::EXPR_STMT, semicolon.events));
        }
    } else {
        lemma_unexpected_tidy(kinds, left);
    }
}

pub proof fn lemma_block_items_tidy(kinds: Seq<SyntaxKind>, left: nat)
    ensures
        run_tidy(kinds, left, block_items(kinds, left)),
    decreases left, 6nat,
{
    let kind = peek_at(kinds, left);
    if kind != SyntaxKind::R_BRACE && kind != SyntaxKind::EOF {
        let first = block_item(kinds, left);
        lemma_block_item_tidy(kinds, left);
        let rest = block_items(kinds, first.left);
        lemma_block_items_tidy(kinds, first.left);
        lemma_tidy_concat(kinds, left, first.events, first.left, rest.events, rest.left);
    } else {
        lemma_tidy_empty(kinds, left);
    }
}

pub proof fn lemma_block_tidy(kinds: Seq<SyntaxKind>, left: nat)
    ensures
        run_tidy(kinds, left, block_run(kinds, left)),
        peek_at(kinds, left) == SyntaxKind::L_BRACE ==> block_run(kinds, left).left < left,
    decreases left, 1nat,
{
    if peek_at(kinds, left) != SyntaxKind::L_BRACE {
        lemma_tidy_empty(kinds, left);
    } else {
        lemma_bump_left(kinds, left);
        let start = bump_left(kinds, left);
        let items = block_items(kinds, start);
        let close = expect_run(kinds, items.left, SyntaxKind::R_BRACE);
        lemma_block_items_tidy(kinds, start);
        lemma_expect_tidy(kinds, items.left, SyntaxKind::R_BRACE);
        lemma_tidy_advance(kinds, left);
        let a = seq![EventView::Advance];
        lemma_tidy_concat(kinds, left, a, start, items.events, items.left);
        lemma_tidy_concat(kinds, left, a + items.events, items.left, close.events, close.left);
        lemma_tidy_node(
            kinds,
            left,
            SyntaxKind::BLOCK_EXPR,
            a + items.events + close.events,
            close.left,
        );
    }
}

pub proof fn lemma_let_value_tidy(kinds: Seq<SyntaxKind>, left: nat)
    ensures
        run_tidy(kinds, left, let_value_run(kinds, left)),
    decreases left, 0nat,
{
    if peek_at(kinds, left) == SyntaxKind::EQUAL {
        lemma_bump_left(kinds, left);
        let start = bump_left(kinds, left);
        let defn = expr_run(kinds, start);
        lemma_expr_tidy(kinds, start);
        lemma_tidy_advance(kinds, left);
        lemma_tidy_concat(kinds, left, seq![EventView::Advance], start, defn.events, defn.left);
    } else {
        lemma_tidy_empty(kinds, left);
    }
}

pub proof fn lemma_let_tidy(kinds: Seq<SyntaxKind>, left: nat)
    ensures
        run_tidy(kinds, left, let_run(kinds, left)),
        peek_at(kinds, left) == SyntaxKind::LET_KW ==> let_run(kinds, left).left < left,
    decreases left, 1nat,
{
    if peek_at(kinds, left) != SyntaxKind::LET_KW {
        lemma_tidy_empty(kinds, left);
    } else {
        lemma_bump_left(kinds, left);
        let start = bump_left(kinds, left);
        let name = expect_run(kinds, start, SyntaxKind::IDENT);
        let params = params_run(kinds, name.left);
        let annotation = annotation_run(kinds, params.left);
        lemma_expect_tidy(kinds, start, SyntaxKind::IDENT);
        lemma_params_tidy(kinds, name.left);
        lemma_annotation_tidy(kinds, params.left);
        let value = let_value_run(kinds, within(annotation.left, start));
        lemma_let_value_tidy(kinds, annotation.left);
        let semicolon = expect_run(kinds, value.left, SyntaxKind::SEMICOLON);
        lemma_expect_tidy(kinds, value.left, SyntaxKind::SEMICOLON);
        lemma_tidy_advance(kinds, left);
        let a = seq![EventView::Advance];
        lemma_tidy_concat(kinds, left, a, start, name.events, name.left);
        lemma_tidy_concat(kinds, left, a + name.events, name.left, params.events, params.left);
        lemma_tidy_concat(
            kinds,
            left,
            a + name.events + params.events,
            params.left,
            annotation.events,
            annotation.left,
        );
        lemma_tidy_concat(
            kinds,
            left,
            a + name.events + params.events + annotation.events,
            annotation.left,
            value.events,
            value.left,
        );
        lemma_tidy_concat(
            kinds,
            left,
            a + name.events + params.events + annotation.events + value.events,
            value.left,
            semicolon.events,
            semicolon.left,
        );
        lemma_tidy_node(
            kinds,
            left,
            SyntaxKind::LET_STMT,
            a + name.events + params.events + annotation.events + value.events + semicolon.events,
            semicolon.left,
        );
    }
}

pub proof fn lemma_open_tidy(kinds: Seq<SyntaxKind>, left: nat)
    ensures
        run_tidy(kinds, left, open_run(kinds, left)),
        peek_at(kinds, left) == SyntaxKind::OPEN_KW ==> open_run(kinds, left).left < left,
{
    lemma_bump_left(kinds, left);
    let keyword = expect_run(kinds, left, SyntaxKind::OPEN_KW);
    let name = expect_run(kinds, keyword.left, SyntaxKind::IDENT);
    let semicolon = expect_run(kinds, name.left, SyntaxKind::SEMICOLON);
    lemma_expect_tidy(kinds, left, SyntaxKind::OPEN_KW);
    lemma_expect_tidy(kinds, keyword.left, SyntaxKind::IDENT);
    lemma_expect_tidy(kinds, name.left, SyntaxKind::SEMICOLON);
    lemma_tidy_concat(kinds, left, keyword.events, keyword.left, name.events, name.left);
    lemma_tidy_concat(
        kinds,
        left,
        keyword.events + name.events,
        name.left,
        semicolon.events,
        semicolon.left,
    );
    lemma_tidy_node(
        kinds,
        left,
        SyntaxKind::OPEN,
        keyword.events + name.events + semicolon.events,
        semicolon.left,
    );
}

pub proof fn lemma_type_definition_tidy(kinds: Seq<SyntaxKind>, left: nat)
    ensures
        run_tidy(kinds, left, type_definition_run(kinds, left)),
        peek_at(kinds, left) == SyntaxKind::TYPE_KW ==> type_definition_run(kinds, left).left
            < left,
{
    lemma_bump_left(kinds, left);
    let keyword = expect_run(kinds, left, SyntaxKind::TYPE_KW);
    let name = expect_run(kinds, keyword.left, SyntaxKind::IDENT);
    let equal = expect_run(kinds, name.left, SyntaxKind::EQUAL);
    let typ = type_run(kinds, equal.left);
    let semicolon = expect_run(kinds, typ.left, SyntaxKind::SEMICOLON);
    lemma_expect_tidy(kinds, left, SyntaxKind::TYPE_KW);
    lemma_expect_tidy(kinds, keyword.left, SyntaxKind::IDENT);
    lemma_expect_tidy(kinds, name.left, SyntaxKind::EQUAL);
    lemma_type_tidy(kinds, equal.left);
    lemma_expect_tidy(kinds, typ.left, SyntaxKind::SEMICOLON);
    lemma_tidy_concat(kinds, left, keyword.events, keyword.left, name.events, name.left);
    lemma_tidy_concat(kinds, left, keyword.events + name.events, name.left, equal.events, equal.left);
    lemma_tidy_concat(
        kinds,
        left,
        keyword.events + name.events + equal.events,
        equal.left,
        typ.events,
        typ.left,
    );
    lemma_tidy_concat(
        kinds,
        left,
        keyword.events + name.events + equal.events + typ.events,
        typ.left,
        semicolon.events,
        semicolon.left,
    );
    lemma_tidy_node(
        kinds,
        left,
        SyntaxKind::TYPE_DEFINITION,
        keyword.events + name.events + equal.events + typ.events + semicolon.events,
        semicolon.left,
    );
}

pub proof fn lemma_def_body_tidy(kinds: Seq<SyntaxKind>, left: nat)
    ensures
        run_tidy(kinds, left, def_body_run(kinds, left)),
{
    let kind = peek_at(kinds, left);
    if kind == SyntaxKind::EQUAL {
        lemma_bump_left(kinds, left);
        let start = bump_left(kinds, left);
        let value = expr_run(kinds, start);
        let semicolon = def_end_run(kinds, value.left, starts_expr(peek_at(kinds, start)));
        lemma_expr_tidy(kinds, start);
        lemma_expect_tidy(kinds, value.left, SyntaxKind::SEMICOLON);
        lemma_eat_tidy(kinds, value.left, SyntaxKind::SEMICOLON);
        lemma_tidy_advance(kinds, left);
        let a = seq![EventView::Advance];
        lemma_tidy_concat(kinds, left, a, start, value.events, value.left);
        lemma_tidy_concat(
            kinds,
            left,
            a + value.events,
            value.left,
            semicolon.events,
            semicolon.left,
        );
        lemma_tidy_node(
            kinds,
            left,
            SyntaxKind::DEF_BODY,
            a + value.events + semicolon.events,
            semicolon.left,
        );
    } else if kind == SyntaxKind::L_BRACE {
        let block = block_run(kinds, left);
        lemma_block_tidy(kinds, left);
        lemma_tidy_node(kinds, left, SyntaxKind::DEF_BODY, block.events, block.left);
    } else {
        lemma_tidy_empty(kinds, left);
        lemma_tidy_node(kinds, left, SyntaxKind::DEF_BODY, Seq::empty(), left);
    }
}

pub proof fn lemma_def_tidy(kinds: Seq<SyntaxKind>, left: nat)
    ensures
        run_tidy(kinds, left, def_run(kinds, left)),
        peek_at(kinds, left) == SyntaxKind::DEF_KW ==> def_run(kinds, left).left < left,
{
    lemma_bump_left(kinds, left);
    let keyword = expect_run(kinds, left, SyntaxKind::DEF_KW);
    let name = expect_run(kinds, keyword.left, SyntaxKind::IDENT);
    let params = params_run(kinds, name.left);
    let annotation = annotation_run(kinds, params.left);
    let body = def_body_run(kinds, annotation.left);
    lemma_expect_tidy(kinds, left, SyntaxKind::DEF_KW);
    lemma_expect_tidy(kinds, keyword.left, SyntaxKind::IDENT);
    lemma_params_tidy(kinds, name.left);
    lemma_annotation_tidy(kinds, params.left);
    lemma_def_body_tidy(kinds, annotation.left);
    lemma_tidy_concat(kinds, left, keyword.events, keyword.left, name.events, name.left);
    lemma_tidy_concat(
        kinds,
        left,
        keyword.events + name.events,
        name.left,
        params.events,
        params.left,
    );
    lemma_tidy_concat(
        kinds,
        left,
        keyword.events + name.events + params.events,
        params.left,
        annotation.events,
        annotation.left,
    );
    lemma_tidy_concat(
        kinds,
        left,
        keyword.events + name.events + params.events + annotation.events,
        annotation.left,
        body.events,
        body.left,
    );
    lemma_tidy_node(
        kinds,
        left,
        SyntaxKind::DEFINITION,
        keyword.events + name.events + params.events + annotation.events + body.events,
        body.left,
    );
}

pub proof fn lemma_module_item_tidy(kinds: Seq<SyntaxKind>, left: nat)
    ensures
        run_tidy(kinds, left, module_item_run(kinds, left)),
        peek_at(kinds, left) != SyntaxKind::EOF ==> module_item_run(kinds, left).left < left,
{
    let kind = peek_at(kinds, left);
    if kind == SyntaxKind::DEF_KW {
        lemma_def_tidy(kinds, left);
    } else if kind == SyntaxKind::TYPE_KW {
        lemma_type_definition_tidy(kinds, left);
    } else if kind == SyntaxKind::OPEN_KW {
        lemma_open_tidy(kinds, left);
    } else {
        let skipped = recover_run(kinds, left, item_stop(), "Expected declaration"@);
        lemma_recover_tidy(kinds, left, item_stop(), "Expected declaration"@);
        lemma_skip_progress(kinds, left, item_stop());
        lemma_bump_left(kinds, skipped.left);
        if ends_item(peek_at(kinds, skipped.left)) {
            lemma_tidy_advance(kinds, skipped.left);
            lemma_tidy_concat(
                kinds,
                left,
                skipped.events,
                skipped.left,
                seq![EventView::Advance],
                bump_left(kinds, skipped.left),
            );
        }
    }
}

/// Skipping stops at a token of `stop` or at the end, and consumes a token
/// where it does not stop at once.
pub proof fn lemma_skip_progress(kinds: Seq<SyntaxKind>, left: nat, stop: Set<SyntaxKind>)
    ensures
        peek_at(kinds, skip_run(kinds, left, stop).left) == SyntaxKind::EOF || stop.contains(
            peek_at(kinds, skip_run(kinds, left, stop).left),
        ),
        skip_run(kinds, left, stop).left <= left,
        peek_at(kinds, left) != SyntaxKind::EOF && !stop.contains(peek_at(kinds, left))
            ==> skip_run(kinds, left, stop).left < left,
    decreases left,
{
    if left == 0 || peek_at(kinds, left) == SyntaxKind::EOF || stop.contains(peek_at(kinds, left)) {
    } else {
        lemma_bump_left(kinds, left);
        lemma_skip_progress(kinds, bump_left(kinds, left), stop);
    }
}

pub proof fn lemma_module_items_tidy(kinds: Seq<SyntaxKind>, left: nat)
    ensures
        run_tidy(kinds, left, module_items(kinds, left)),
        peek_at(kinds, module_items(kinds, left).left) == SyntaxKind::EOF,
    decreases left,
{
    if peek_at(kinds, left) != SyntaxKind::EOF {
        let first = module_item_run(kinds, left);
        lemma_module_item_tidy(kinds, left);
        let rest = module_items(kinds, first.left);
        lemma_module_items_tidy(kinds, first.left);
        lemma_tidy_concat(kinds, left, first.events, first.left, rest.events, rest.left);
    } else {
        lemma_tidy_empty(kinds, left);
    }
}

/// The events of a whole file are one node `MODULE`: they are level, inside
/// them a node is open, and when they end only the end of the input is left.
pub proof fn lemma_module_tidy(kinds: Seq<SyntaxKind>, left: nat)
    ensures
        run_tidy(kinds, left, module_run(kinds, left)),
        peek_at(kinds, module_run(kinds, left).left) == SyntaxKind::EOF,
        module_run(kinds, left).events.len() >= 2,
        module_run(kinds, left).events[0] == open_of(SyntaxKind::MODULE),
        module_run(kinds, left).events.last() == EventView::Close,
        forall|n: int|
            0 < n < module_run(kinds, left).events.len() ==> #[trigger] naive(
                module_run(kinds, left).events,
                n,
            ) >= 1,
{
    let items = module_items(kinds, left);
    lemma_module_items_tidy(kinds, left);
    lemma_tidy_node(kinds, left, SyntaxKind::MODULE, items.events, items.left);
}

/// What is left after the one node of another start symbol is tidy too.
pub proof fn lemma_rest_tidy(kinds: Seq<SyntaxKind>, left: nat, first: Run)
    requires
        run_tidy(kinds, left, first),
    ensures
        run_tidy(kinds, left, rest_run(kinds, first)),
{
    if peek_at(kinds, first.left) != SyntaxKind::EOF {
        let skipped = recover_run(kinds, first.left, Set::empty(), "Expected end of input"@);
        lemma_recover_tidy(kinds, first.left, Set::empty(), "Expected end of input"@);
        lemma_tidy_empty(kinds, first.left);
        lemma_tidy_adopt(
            kinds,
            left,
            first.events,
            first.node,
            first.left,
            Seq::empty(),
            first.left,
            SyntaxKind::ERROR,
            skipped.events,
            skipped.left,
        );
        let linked = with_parent(first.events, first.node, first.events.len() as int);
        assert(rest_run(kinds, first).events =~= linked + Seq::<EventView>::empty() + node_run(
            SyntaxKind::ERROR,
            skipped.events,
        ));
    }
}

/// Every node that parsing opens, it closes: whatever the tokens and the
/// start symbol, the events are level, and no opening among them is left
/// unmatched.
pub proof fn lemma_parse_level(kinds: Seq<SyntaxKind>, left: nat, entry_point: PrefixEntryPoint)
    ensures
        level(parse_run(kinds, left, entry_point)),
{
    match entry_point {
        PrefixEntryPoint::Module => {
            lemma_module_tidy(kinds, left);
        },
        PrefixEntryPoint::TypeExpr => {
            lemma_type_tidy(kinds, left);
            lemma_rest_tidy(kinds, left, type_run(kinds, left));
        },
        PrefixEntryPoint::Expr => {
            lemma_expr_tidy(kinds, left);
            lemma_rest_tidy(kinds, left, expr_run(kinds, left));
        },
    }
}

/// In the grammar an arrow nests to the right: the type expression before
/// the arrow is a delimited one, and what follows the arrow is a whole type
/// expression, arrows included, inside the node `TYPE_ARROW`.
pub proof fn lemma_arrow_nests_right(kinds: Seq<SyntaxKind>, left: nat)
    requires
        peek_at(kinds, delimited_type_run(kinds, left).left) == SyntaxKind::ARROW,
    ensures
        ({
            let lhs = delimited_type_run(kinds, left);
            let rhs = type_run(kinds, bump_left(kinds, lhs.left));
            &&& type_run(kinds, left).events == with_parent(
                lhs.events,
                lhs.node,
                lhs.events.len() as int + 1,
            ) + seq![EventView::Advance] + node_run(SyntaxKind::TYPE_ARROW, rhs.events)
            &&& type_run(kinds, left).node == lhs.events.len() + 1
            &&& type_run(kinds, left).left == rhs.left
        }),
{
    lemma_delimited_type_tidy(kinds, left);
    let lhs = delimited_type_run(kinds, left);
    let rhs = type_run(kinds, bump_left(kinds, lhs.left));
    assert(type_run(kinds, left).events =~= with_parent(
        lhs.events,
        lhs.node,
        lhs.events.len() as int + 1,
    ) + seq![EventView::Advance] + node_run(SyntaxKind::TYPE_ARROW, rhs.events));
}

/// In the grammar application nests to the left: where another argument
/// follows, what has been parsed so far becomes the first child of a new node
/// `APP_EXPR`, which holds the argument after it, and the new node is what the
/// next argument is applied to.
pub proof fn lemma_application_nests_left(
    kinds: Seq<SyntaxKind>,
    events: Seq<EventView>,
    node: int,
    left: nat,
)
    requires
        starts_expr(peek_at(kinds, left)),
    ensures
        app_tail(kinds, events, node, left) == app_tail(
            kinds,
            with_parent(events, node, events.len() as int) + node_run(
                SyntaxKind::APP_EXPR,
                atom_run(kinds, left).events,
            ),
            events.len() as int,
            atom_run(kinds, left).left,
        ),
{
    lemma_atom_tidy(kinds, left);
    let arg = atom_run(kinds, left);
    assert(with_parent(events, node, events.len() as int) + seq![open_of(SyntaxKind::APP_EXPR)]
        + arg.events + seq![EventView::Close] =~= with_parent(events, node, events.len() as int)
        + node_run(SyntaxKind::APP_EXPR, arg.events));
}

/// How many tokens are left when parsing from a start symbol ends.
pub open spec fn parse_left(kinds: Seq<SyntaxKind>, left: nat, entry_point: PrefixEntryPoint) -> nat {
    match entry_point {
        PrefixEntryPoint::Module => module_run(kinds, left).left,
        PrefixEntryPoint::TypeExpr => rest_run(kinds, type_run(kinds, left)).left,
        PrefixEntryPoint::Expr => rest_run(kinds, expr_run(kinds, left)).left,
    }
}

/// A rule that hands back a node begins with an opening.
pub open spec fn opens(run: Run) -> bool {
    run.events.len() >= 1 && run.events[0] is Open
}

proof fn lemma_delimited_type_opens(kinds: Seq<SyntaxKind>, left: nat)
    ensures
        opens(delimited_type_run(kinds, left)),
{
}

proof fn lemma_type_opens(kinds: Seq<SyntaxKind>, left: nat)
    ensures
        opens(type_run(kinds, left)),
{
    lemma_delimited_type_opens(kinds, left);
}

proof fn lemma_binary_tail_opens(kinds: Seq<SyntaxKind>, events: Seq<EventView>, node: int, left: nat)
    requires
        events.len() >= 1,
        events[0] is Open,
    ensures
        opens(binary_tail(kinds, events, node, left)),
    decreases left, 0nat,
{
    if is_binary_op(peek_at(kinds, left)) {
        lemma_bump_left(kinds, left);
        let after = bump_left(kinds, left);
        let operand = atom_run(kinds, after);
        let next = with_parent(events, node, events.len() as int) + seq![
            open_of(SyntaxKind::BINARY_EXPR),
            EventView::Advance,
        ] + operand.events + seq![EventView::Close];
        assert(next[0] == with_parent(events, node, events.len() as int)[0]);
        lemma_binary_tail_opens(kinds, next, events.len() as int, within(operand.left, after));
    }
}

proof fn lemma_atom_opens(kinds: Seq<SyntaxKind>, left: nat)
    ensures
        opens(atom_run(kinds, left)),
{
    let kind = peek_at(kinds, left);
    if kind == SyntaxKind::L_PAREN {
        assert(opens(paren_run(kinds, left)));
    } else if kind == SyntaxKind::L_BRACE {
        assert(opens(block_run(kinds, left)));
    } else if kind == SyntaxKind::BACKSLASH {
        assert(opens(lambda_run(kinds, left)));
    }
}

proof fn lemma_expr_opens(kinds: Seq<SyntaxKind>, left: nat)
    ensures
        opens(expr_run(kinds, left)),
{
    if peek_at(kinds, left) == SyntaxKind::BACKSLASH {
        assert(opens(lambda_run(kinds, left)));
    } else {
        let first = atom_run(kinds, left);
        lemma_atom_opens(kinds, left);
        lemma_binary_tail_opens(kinds, first.events, first.node, within(first.left, left));
    }
}

proof fn lemma_rest_opens(kinds: Seq<SyntaxKind>, first: Run)
    requires
        opens(first),
    ensures
        opens(rest_run(kinds, first)),
{
    if peek_at(kinds, first.left) != SyntaxKind::EOF {
        let linked = with_parent(first.events, first.node, first.events.len() as int);
        assert(rest_run(kinds, first).events[0] == linked[0]);
    }
}

/// What is left after skipping to the end is the end.
proof fn lemma_rest_end(kinds: Seq<SyntaxKind>, first: Run)
    ensures
        peek_at(kinds, rest_run(kinds, first).left) == SyntaxKind::EOF,
{
    if peek_at(kinds, first.left) != SyntaxKind::EOF {
        lemma_skip_progress(kinds, first.left, Set::empty());
    }
}

/// The events of parsing are tidy, whatever the tokens and the start symbol:
/// they begin with an opening, and they end at the end of the input.
pub proof fn lemma_parse_tidy(kinds: Seq<SyntaxKind>, left: nat, entry_point: PrefixEntryPoint)
    ensures
        tidy(
            kinds,
            left,
            parse_run(kinds, left, entry_point),
            parse_left(kinds, left, entry_point),
        ),
        parse_run(kinds, left, entry_point).len() >= 1,
        parse_run(kinds, left, entry_point)[0] is Open,
        peek_at(kinds, parse_left(kinds, left, entry_point)) == SyntaxKind::EOF,
{
    match entry_point {
        PrefixEntryPoint::Module => {
            lemma_module_tidy(kinds, left);
        },
        PrefixEntryPoint::TypeExpr => {
            lemma_type_tidy(kinds, left);
            lemma_type_opens(kinds, left);
            lemma_rest_tidy(kinds, left, type_run(kinds, left));
            lemma_rest_opens(kinds, type_run(kinds, left));
            lemma_rest_end(kinds, type_run(kinds, left));
        },
        PrefixEntryPoint::Expr => {
            lemma_expr_tidy(kinds, left);
            lemma_expr_opens(kinds, left);
            lemma_rest_tidy(kinds, left, expr_run(kinds, left));
            lemma_rest_opens(kinds, expr_run(kinds, left));
            lemma_rest_end(kinds, expr_run(kinds, left));
        },
    }
}

/// After a declaration, malformed or not, parsing goes on with the next: the
/// events of the declarations from `left` tokens on are those of the first
/// declaration, followed by those of the declarations from where the first
/// one ended.
pub proof fn lemma_items_continue(kinds: Seq<SyntaxKind>, left: nat)
    requires
        peek_at(kinds, left) != SyntaxKind::EOF,
    ensures
        module_item_run(kinds, left).left < left,
        module_items(kinds, left).events == module_item_run(kinds, left).events + module_items(
            kinds,
            module_item_run(kinds, left).left,
        ).events,
        module_items(kinds, left).left == module_items(
            kinds,
            module_item_run(kinds, left).left,
        ).left,
{
    lemma_module_item_tidy(kinds, left);
}

/// The events are those of one node, the node that opens at `node`: they
/// begin with an opening whose chain of forward parents ends at `node`, the
/// opening at `node` has no forward parent, the node stays open from there to
/// the last event, and the last event closes it.
pub open spec fn rooted(events: Seq<EventView>, node: int) -> bool {
    &&& 0 <= node < events.len()
    &&& events[0] is Open
    &&& events[node] is Open
    &&& events[node]->parent is None
    &&& events.last() is Close
    &&& node == 0 || (chain_targets(events, 0).len() > 0 && chain_targets(events, 0).last()
        == node)
    &&& forall|n: int| node < n < events.len() ==> #[trigger] naive(events, n) >= 1
}

proof fn lemma_rooted_node(kinds: Seq<SyntaxKind>, from: nat, kind: SyntaxKind, inner: Seq<EventView>, to: nat)
    requires
        tidy(kinds, from, inner, to),
    ensures
        rooted(node_run(kind, inner), 0),
{
    lemma_tidy_node(kinds, from, kind, inner, to);
    let all = node_run(kind, inner);
    assert(all[all.len() - 1] == EventView::Close);
}

/// The chain through an opening that gets a new forward parent goes on to
/// the new parent.
proof fn lemma_chain_adopt(
    first: Seq<EventView>,
    node: int,
    rest: Seq<EventView>,
    k: int,
    i: int,
)
    requires
        linked(first),
        0 <= node < first.len(),
        first[node] is Open,
        first[node]->parent is None,
        0 <= k < rest.len(),
        rest[k] is Open,
        rest[k]->parent is None,
        0 <= i < first.len(),
        first[i] is Open,
        i == node || (chain_targets(first, i).len() > 0 && chain_targets(first, i).last() == node),
    ensures
        chain_targets(with_parent(first, node, first.len() as int + k) + rest, i) == chain_targets(
            first,
            i,
        ).push(first.len() + k),
    decreases first.len() - i,
{
    let target = first.len() as int + k;
    let changed = with_parent(first, node, target);
    let all = changed + rest;
    assert(all[target] == rest[k]);
    assert(chain_targets(all, target) =~= Seq::<int>::empty());
    if i == node {
        assert(all[node] == changed[node]);
        assert(chain_targets(first, node) =~= Seq::<int>::empty());
        assert(chain_targets(all, node) =~= seq![target] + chain_targets(all, target));
        assert(chain_targets(all, i) =~= chain_targets(first, i).push(target));
    } else {
        assert(all[i] == first[i]);
        assert(has_link(first, i));
        let j = link_target(first, i);
        assert(first[j] is Open);
        assert(all[j] == changed[j]);
        assert(changed[j] is Open);
        assert(chain_targets(first, i) =~= seq![j] + chain_targets(first, j));
        assert(chain_targets(all, i) =~= seq![j] + chain_targets(all, j));
        if j != node {
            assert(chain_targets(first, j).len() > 0) by {
                if chain_targets(first, j).len() == 0 {
                    assert(chain_targets(first, i) =~= seq![j]);
                }
            }
            assert(chain_targets(first, j).last() == chain_targets(first, i).last());
        }
        lemma_chain_adopt(first, node, rest, k, j);
        assert(chain_targets(all, i) =~= chain_targets(first, i).push(target));
    }
}

/// What was parsed as one node, under a new parent, is one node again: the
/// new parent.
proof fn lemma_rooted_adopt(
    kinds: Seq<SyntaxKind>,
    from: nat,
    first: Seq<EventView>,
    node: int,
    after_first: nat,
    between: Seq<EventView>,
    after_between: nat,
    kind: SyntaxKind,
    inner: Seq<EventView>,
    to: nat,
)
    requires
        tidy(kinds, from, first, after_first),
        rooted(first, node),
        tidy(kinds, after_first, between, after_between),
        tidy(kinds, after_between, inner, to),
    ensures
        rooted(
            with_parent(first, node, (first.len() + between.len()) as int) + between + node_run(
                kind,
                inner,
            ),
            (first.len() + between.len()) as int,
        ),
{
    let target = (first.len() + between.len()) as int;
    let changed = with_parent(first, node, target);
    let parent = node_run(kind, inner);
    let rest = between + parent;
    let all = changed + between + parent;
    lemma_tidy_node(kinds, after_between, kind, inner, to);
    assert(all =~= changed + rest);
    assert(rest[between.len() as int] == parent[0]);
    lemma_chain_adopt(first, node, rest, between.len() as int, 0);
    assert(all[0] == changed[0]);
    assert(all[target] == parent[0]);
    assert(all[all.len() - 1] == parent[parent.len() - 1]);
    assert(parent[parent.len() - 1] == EventView::Close);
    lemma_counted_parent(kinds, from, first, node, target, after_first);
    assert forall|n: int| target < n < all.len() implies #[trigger] naive(all, n) >= 1 by {
        lemma_naive_concat(changed + between, parent, n);
        lemma_naive_concat(changed, between, target);
        assert(naive(parent, n - target) >= 1);
        assert(naive(changed, changed.len() as int) == 0);
        assert(naive(between, between.len() as int) == 0);
    }
}

pub proof fn lemma_delimited_type_rooted(kinds: Seq<SyntaxKind>, left: nat)
    ensures
        rooted(delimited_type_run(kinds, left).events, delimited_type_run(kinds, left).node),
{
    if peek_at(kinds, left) == SyntaxKind::IDENT {
        lemma_tidy_advance(kinds, left);
        lemma_rooted_node(
            kinds,
            left,
            SyntaxKind::TYPE_IDENT,
            seq![EventView::Advance],
            bump_left(kinds, left),
        );
    } else if peek_at(kinds, left) == SyntaxKind::L_PAREN {
        lemma_bump_left(kinds, left);
        let start = bump_left(kinds, left);
        let inner = type_run(kinds, start);
        let close = expect_run(kinds, inner.left, SyntaxKind::R_PAREN);
        lemma_type_tidy(kinds, start);
        lemma_expect_tidy(kinds, inner.left, SyntaxKind::R_PAREN);
        lemma_tidy_advance(kinds, left);
        lemma_tidy_concat(kinds, left, seq![EventView::Advance], start, inner.events, inner.left);
        lemma_tidy_concat(
            kinds,
            left,
            seq![EventView::Advance] + inner.events,
            inner.left,
            close.events,
            close.left,
        );
        lemma_rooted_node(
            kinds,
            left,
            SyntaxKind::TYPE_PAREN,
            seq![EventView::Advance] + inner.events + close.events,
            close.left,
        );
    } else {
        lemma_rooted_error(kinds, left, "Expected type expression"@, ErrorPlacement::PrevTokenEnd);
    }
}

proof fn lemma_rooted_error(
    kinds: Seq<SyntaxKind>,
    left: nat,
    message: Seq<char>,
    location: ErrorPlacement,
)
    ensures
        rooted(error_run(message, location), 0),
{
    lemma_tidy_one(kinds, left, message, location);
    lemma_rooted_node(
        kinds,
        left,
        SyntaxKind::ERROR,
        seq![EventView::Error { message, location }],
        left,
    );
    assert(error_run(message, location) =~= node_run(
        SyntaxKind::ERROR,
        seq![EventView::Error { message, location }],
    ));
}

pub proof fn lemma_type_rooted(kinds: Seq<SyntaxKind>, left: nat)
    ensures
        rooted(type_run(kinds, left).events, type_run(kinds, left).node),
    decreases left,
{
    let lhs = delimited_type_run(kinds, left);
    lemma_delimited_type_tidy(kinds, left);
    lemma_delimited_type_rooted(kinds, left);
    let next = within(lhs.left, left);
    if peek_at(kinds, next) == SyntaxKind::ARROW {
        lemma_bump_left(kinds, next);
        let after = bump_left(kinds, next);
        let rhs = type_run(kinds, after);
        lemma_type_tidy(kinds, after);
        lemma_tidy_advance(kinds, next);
        lemma_rooted_adopt(
            kinds,
            left,
            lhs.events,
            lhs.node,
            next,
            seq![EventView::Advance],
            after,
            SyntaxKind::TYPE_ARROW,
            rhs.events,
            rhs.left,
        );
        assert(type_run(kinds, left).events =~= with_parent(
            lhs.events,
            lhs.node,
            lhs.events.len() as int + 1,
        ) + seq![EventView::Advance] + node_run(SyntaxKind::TYPE_ARROW, rhs.events));
    }
}

pub proof fn lemma_binary_tail_rooted(
    kinds: Seq<SyntaxKind>,
    from: nat,
    events: Seq<EventView>,
    node: int,
    left: nat,
)
    requires
        tidy(kinds, from, events, left),
        rooted(events, node),
    ensures
        rooted(
            binary_tail(kinds, events, node, left).events,
            binary_tail(kinds, events, node, left).node,
        ),
    decreases left,
{
    if is_binary_op(peek_at(kinds, left)) {
        lemma_bump_left(kinds, left);
        let after = bump_left(kinds, left);
        let operand = atom_run(kinds, after);
        lemma_atom_tidy(kinds, after);
        lemma_tidy_advance(kinds, left);
        lemma_tidy_concat(kinds, left, seq![EventView::Advance], after, operand.events, operand.left);
        lemma_tidy_empty(kinds, left);
        lemma_tidy_adopt(
            kinds,
            from,
            events,
            node,
            left,
            Seq::empty(),
            left,
            SyntaxKind::BINARY_EXPR,
            seq![EventView::Advance] + operand.events,
            operand.left,
        );
        lemma_rooted_adopt(
            kinds,
            from,
            events,
            node,
            left,
            Seq::empty(),
            left,
            SyntaxKind::BINARY_EXPR,
            seq![EventView::Advance] + operand.events,
            operand.left,
        );
        let linked = with_parent(events, node, events.len() as int);
        let next = linked + seq![open_of(SyntaxKind::BINARY_EXPR), EventView::Advance]
            + operand.events + seq![EventView::Close];
        assert(next =~= linked + Seq::<EventView>::empty() + node_run(
            SyntaxKind::BINARY_EXPR,
            seq![EventView::Advance] + operand.events,
        ));
        lemma_binary_tail_rooted(kinds, from, next, events.len() as int, operand.left);
    }
}

pub proof fn lemma_atom_rooted(kinds: Seq<SyntaxKind>, left: nat)
    ensures
        rooted(atom_run(kinds, left).events, atom_run(kinds, left).node),
{
    let kind = peek_at(kinds, left);
    lemma_bump_left(kinds, left);
    if kind == SyntaxKind::IDENT {
        lemma_tidy_advance(kinds, left);
        lemma_rooted_node(
            kinds,
            left,
            SyntaxKind::IDENT_EXPR,
            seq![EventView::Advance],
            bump_left(kinds, left),
        );
    } else if kind == SyntaxKind::INT {
        lemma_tidy_advance(kinds, left);
        lemma_rooted_node(
            kinds,
            left,
            SyntaxKind::LITERAL_EXPR,
            seq![EventView::Advance],
            bump_left(kinds, left),
        );
    } else if kind == SyntaxKind::L_PAREN {
        lemma_paren_rooted(kinds, left);
    } else if kind == SyntaxKind::L_BRACE {
        lemma_block_rooted(kinds, left);
    } else if kind == SyntaxKind::BACKSLASH {
        lemma_lambda_rooted(kinds, left);
    } else {
        lemma_rooted_error(kinds, left, "Expected expression"@, ErrorPlacement::PrevTokenEnd);
    }
}

proof fn lemma_paren_rooted(kinds: Seq<SyntaxKind>, left: nat)
    requires
        peek_at(kinds, left) == SyntaxKind::L_PAREN,
    ensures
        rooted(paren_run(kinds, left).events, paren_run(kinds, left).node),
{
    lemma_bump_left(kinds, left);
    let start = bump_left(kinds, left);
    let inner = arguments_run(kinds, start);
    let close = expect_run(kinds, inner.left, SyntaxKind::R_PAREN);
    lemma_arguments_tidy(kinds, start);
    lemma_expect_tidy(kinds, inner.left, SyntaxKind::R_PAREN);
    lemma_tidy_advance(kinds, left);
    let a = seq![EventView::Advance];
    lemma_tidy_concat(kinds, left, a, start, inner.events, inner.left);
    lemma_tidy_concat(kinds, left, a + inner.events, inner.left, close.events, close.left);
    lemma_rooted_node(
        kinds,
        left,
        SyntaxKind::PAREN_EXPR,
        a + inner.events + close.events,
        close.left,
    );
}

proof fn lemma_block_rooted(kinds: Seq<SyntaxKind>, left: nat)
    requires
        peek_at(kinds, left) == SyntaxKind::L_BRACE,
    ensures
        rooted(block_run(kinds, left).events, block_run(kinds, left).node),
{
    lemma_bump_left(kinds, left);
    let start = bump_left(kinds, left);
    let items = block_items(kinds, start);
    let close = expect_run(kinds, items.left, SyntaxKind::R_BRACE);
    lemma_block_items_tidy(kinds, start);
    lemma_expect_tidy(kinds, items.left, SyntaxKind::R_BRACE);
    lemma_tidy_advance(kinds, left);
    let a = seq![EventView::Advance];
    lemma_tidy_concat(kinds, left, a, start, items.events, items.left);
    lemma_tidy_concat(kinds, left, a + items.events, items.left, close.events, close.left);
    lemma_rooted_node(
        kinds,
        left,
        SyntaxKind::BLOCK_EXPR,
        a + items.events + close.events,
        close.left,
    );
}

proof fn lemma_lambda_rooted(kinds: Seq<SyntaxKind>, left: nat)
    requires
        peek_at(kinds, left) == SyntaxKind::BACKSLASH,
    ensures
        rooted(lambda_run(kinds, left).events, lambda_run(kinds, left).node),
{
    lemma_bump_left(kinds, left);
    let start = bump_left(kinds, left);
    let params = params_run(kinds, start);
    let annotation = result_type_run(kinds, params.left);
    let arrow = expect_run(kinds, annotation.left, SyntaxKind::ARROW);
    lemma_params_tidy(kinds, start);
    lemma_result_type_tidy(kinds, params.left);
    lemma_expect_tidy(kinds, annotation.left, SyntaxKind::ARROW);
    let body = expr_run(kinds, within(arrow.left, start));
    lemma_expr_tidy(kinds, arrow.left);
    lemma_tidy_advance(kinds, left);
    let a = seq![EventView::Advance];
    lemma_tidy_concat(kinds, left, a, start, params.events, params.left);
    lemma_tidy_concat(kinds, left, a + params.events, params.left, annotation.events, annotation.left);
    lemma_tidy_concat(
        kinds,
        left,
        a + params.events + annotation.events,
        annotation.left,
        arrow.events,
        arrow.left,
    );
    lemma_tidy_concat(
        kinds,
        left,
        a + params.events + annotation.events + arrow.events,
        arrow.left,
        body.events,
        body.left,
    );
    lemma_rooted_node(
        kinds,
        left,
        SyntaxKind::LAMBDA_EXPR,
        a + params.events + annotation.events + arrow.events + body.events,
        body.left,
    );
}

pub proof fn lemma_expr_rooted(kinds: Seq<SyntaxKind>, left: nat)
    ensures
        rooted(expr_run(kinds, left).events, expr_run(kinds, left).node),
{
    if peek_at(kinds, left) == SyntaxKind::BACKSLASH {
        lemma_lambda_rooted(kinds, left);
    } else {
        let first = atom_run(kinds, left);
        lemma_atom_tidy(kinds, left);
        lemma_atom_rooted(kinds, left);
        lemma_binary_tail_rooted(kinds, left, first.events, first.node, first.left);
    }
}

pub proof fn lemma_rest_rooted(kinds: Seq<SyntaxKind>, left: nat, first: Run)
    requires
        run_tidy(kinds, left, first),
        rooted(first.events, first.node),
    ensures
        rooted(rest_run(kinds, first).events, rest_run(kinds, first).node),
{
    if peek_at(kinds, first.left) != SyntaxKind::EOF {
        let skipped = recover_run(kinds, first.left, Set::empty(), "Expected end of input"@);
        lemma_recover_tidy(kinds, first.left, Set::empty(), "Expected end of input"@);
        lemma_tidy_empty(kinds, first.left);
        lemma_rooted_adopt(
            kinds,
            left,
            first.events,
            first.node,
            first.left,
            Seq::empty(),
            first.left,
            SyntaxKind::ERROR,
            skipped.events,
            skipped.left,
        );
        let linked = with_parent(first.events, first.node, first.events.len() as int);
        assert(rest_run(kinds, first).events =~= linked + Seq::<EventView>::empty() + node_run(
            SyntaxKind::ERROR,
            skipped.events,
        ));
    }
}

/// Where the root of the tree opens among the events of parsing.
pub open spec fn parse_node(kinds: Seq<SyntaxKind>, left: nat, entry_point: PrefixEntryPoint) -> int {
    match entry_point {
        PrefixEntryPoint::Module => 0,
        PrefixEntryPoint::TypeExpr => rest_run(kinds, type_run(kinds, left)).node,
        PrefixEntryPoint::Expr => rest_run(kinds, expr_run(kinds, left)).node,
    }
}

/// The events of parsing are those of one node, whatever the tokens and the
/// start symbol.
pub proof fn lemma_parse_rooted(kinds: Seq<SyntaxKind>, left: nat, entry_point: PrefixEntryPoint)
    ensures
        rooted(parse_run(kinds, left, entry_point), parse_node(kinds, left, entry_point)),
{
    match entry_point {
        PrefixEntryPoint::Module => {
            let items = module_items(kinds, left);
            lemma_module_items_tidy(kinds, left);
            lemma_rooted_node(kinds, left, SyntaxKind::MODULE, items.events, items.left);
        },
        PrefixEntryPoint::TypeExpr => {
            lemma_type_tidy(kinds, left);
            lemma_type_rooted(kinds, left);
            lemma_rest_rooted(kinds, left, type_run(kinds, left));
        },
        PrefixEntryPoint::Expr => {
            lemma_expr_tidy(kinds, left);
            lemma_expr_rooted(kinds, left);
            lemma_rest_rooted(kinds, left, expr_run(kinds, left));
        },
    }
}

} // verus!
