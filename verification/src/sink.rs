//! The sink: the events are replayed against the tokens, trivia included, and
//! give the tree and the diagnostics.

use vstd::prelude::*;
use core::ops::Range;
use crate::event::{ErrorPlacement, Event, EventView, ParseError, view_of, views};
use crate::lexer::{Token, token_view, token_views, tokens_text, TokenView};
use crate::source::{kinds_of, lemma_skip_trivia, skip_trivia};
use crate::syntax_kind::SyntaxKind;
use crate::text::{byte_len, lemma_offset_monotone, lemma_offset_step, offset_of, str_byte_len};
use crate::tree::{element_tokens, elements_tokens, SyntaxElement, SyntaxNode};

verus! {

/// A syntax error: the message and the bytes of the input that it is about.
#[derive(Debug, PartialEq)]
pub struct SyntaxError {
    pub message: String,
    pub range: Range<usize>,
}

/// One step of a walk through a tree in the order of the source text: into a
/// node, over a token, out of a node. A tree is determined by its steps.
pub enum Step {
    Start(SyntaxKind),
    Leaf(TokenView),
    Finish,
}

/// The steps of the walk through one element.
pub open spec fn element_steps(e: SyntaxElement) -> Seq<Step>
    decreases e, 0nat,
{
    match e {
        SyntaxElement::Token(t) => seq![Step::Leaf(token_view(t))],
        SyntaxElement::Node(n) => seq![Step::Start(n.kind)] + elements_steps(n.children@) + seq![
            Step::Finish,
        ],
    }
}

/// The steps of the walk through a sequence of elements.
pub open spec fn elements_steps(s: Seq<SyntaxElement>) -> Seq<Step>
    decreases s, 1nat,
{
    if s.len() == 0 {
        Seq::empty()
    } else {
        elements_steps(s.drop_last()) + element_steps(s.last())
    }
}

/// The tokens that a walk passes, in order.
pub open spec fn steps_tokens(steps: Seq<Step>) -> Seq<TokenView>
    decreases steps.len(),
{
    if steps.len() == 0 {
        Seq::empty()
    } else {
        match steps.last() {
            Step::Leaf(t) => steps_tokens(steps.drop_last()).push(t),
            _ => steps_tokens(steps.drop_last()),
        }
    }
}

pub proof fn lemma_steps_tokens_concat(a: Seq<Step>, b: Seq<Step>)
    ensures
        steps_tokens(a + b) == steps_tokens(a) + steps_tokens(b),
    decreases b.len(),
{
    if b.len() == 0 {
        assert(a + b =~= a);
        assert(steps_tokens(a) + steps_tokens(b) =~= steps_tokens(a));
    } else {
        lemma_steps_tokens_concat(a, b.drop_last());
        assert((a + b).drop_last() =~= a + b.drop_last());
        assert((a + b).last() == b.last());
        assert(steps_tokens(a + b) =~= steps_tokens(a) + steps_tokens(b));
    }
}

proof fn lemma_steps_tokens_one(step: Step)
    ensures
        steps_tokens(seq![step]) == (match step {
            Step::Leaf(t) => seq![t],
            _ => Seq::<TokenView>::empty(),
        }),
{
    reveal_with_fuel(steps_tokens, 2);
    assert(seq![step].drop_last() =~= Seq::<Step>::empty());
    assert(seq![step].last() == step);
    match step {
        Step::Leaf(t) => {
            assert(Seq::<TokenView>::empty().push(t) =~= seq![t]);
        },
        _ => {},
    }
}

/// The walk through an element passes the tokens of the element.
pub proof fn lemma_element_steps_tokens(e: SyntaxElement)
    ensures
        steps_tokens(element_steps(e)) == token_views(element_tokens(e)),
    decreases e, 0nat,
{
    match e {
        SyntaxElement::Token(t) => {
            lemma_steps_tokens_one(Step::Leaf(token_view(t)));
            assert(token_views(seq![t]) =~= seq![token_view(t)]);
        },
        SyntaxElement::Node(n) => {
            lemma_elements_steps_tokens(n.children@);
            let inner = elements_steps(n.children@);
            let open = seq![Step::Start(n.kind)];
            let close = seq![Step::Finish];
            lemma_steps_tokens_concat(open + inner, close);
            lemma_steps_tokens_concat(open, inner);
            lemma_steps_tokens_one(Step::Start(n.kind));
            lemma_steps_tokens_one(Step::Finish);
            assert(steps_tokens(element_steps(e)) =~= token_views(elements_tokens(n.children@)));
        },
    }
}

/// The walk through a sequence of elements passes their tokens.
pub proof fn lemma_elements_steps_tokens(s: Seq<SyntaxElement>)
    ensures
        steps_tokens(elements_steps(s)) == token_views(elements_tokens(s)),
    decreases s, 1nat,
{
    if s.len() > 0 {
        lemma_elements_steps_tokens(s.drop_last());
        lemma_element_steps_tokens(s.last());
        lemma_steps_tokens_concat(elements_steps(s.drop_last()), element_steps(s.last()));
        assert(token_views(elements_tokens(s.drop_last()) + element_tokens(s.last()))
            =~= token_views(elements_tokens(s.drop_last())) + token_views(
            element_tokens(s.last()),
        ));
    } else {
        assert(token_views(elements_tokens(s)) =~= Seq::<TokenView>::empty());
    }
}

/// A diagnostic as a plain value: the message and the range of bytes.
pub struct Diagnostic {
    pub message: Seq<char>,
    pub start: int,
    pub end: int,
}

pub open spec fn diagnostic_of(e: SyntaxError) -> Diagnostic {
    Diagnostic { message: e.message@, start: e.range.start as int, end: e.range.end as int }
}

pub open spec fn diagnostics_of(errors: Seq<SyntaxError>) -> Seq<Diagnostic> {
    errors.map_values(|e: SyntaxError| diagnostic_of(e))
}

/// What replaying a prefix of the events has led to.
pub struct Replay {
    /// How many tokens are in the tree.
    pub cursor: int,
    /// The byte offset at which the last significant token that went into the
    /// tree ends.
    pub prev_end: int,
    /// How many nodes are open.
    pub depth: nat,
    /// The openings that were taken early, as the forward parent of another.
    pub started: Set<int>,
    /// The steps so far.
    pub steps: Seq<Step>,
    /// The diagnostics so far.
    pub errors: Seq<Diagnostic>,
}

/// The openings that the forward-parent links lead to from the opening at `i`,
/// nearest first.
pub open spec fn chain_targets(events: Seq<EventView>, i: int) -> Seq<int>
    decreases events.len() - i,
{
    if 0 <= i < events.len() {
        match events[i] {
            EventView::Open { parent: Some(d), .. } => {
                if d > 0 && i + d < events.len() && events[i + d] is Open {
                    seq![i + d] + chain_targets(events, i + d)
                } else {
                    Seq::empty()
                }
            },
            _ => Seq::empty(),
        }
    } else {
        Seq::empty()
    }
}

/// The kinds of the openings at `targets`.
pub open spec fn kinds_at(events: Seq<EventView>, targets: Seq<int>) -> Seq<SyntaxKind> {
    targets.map_values(|t: int| events[t]->kind)
}

/// A `Start` for each kind, the last kind first.
pub open spec fn rev_starts(kinds: Seq<SyntaxKind>) -> Seq<Step>
    decreases kinds.len(),
{
    if kinds.len() == 0 {
        Seq::empty()
    } else {
        seq![Step::Start(kinds.last())] + rev_starts(kinds.drop_last())
    }
}

/// A `Leaf` for each of the tokens `from..to`.
pub open spec fn leaves(tokens: Seq<TokenView>, from: int, to: int) -> Seq<Step> {
    Seq::new((to - from) as nat, |k: int| Step::Leaf(tokens[from + k]))
}

/// `n` times `Finish`.
pub open spec fn finishes(n: nat) -> Seq<Step> {
    Seq::new(n, |k: int| Step::Finish)
}

/// The range of bytes that an error is about. An error placed at the previous
/// token covers nothing, at the end of that token; one placed on the next token
/// covers the token at the cursor, or nothing at the end of the input.
pub open spec fn error_range(r: Replay, tokens: Seq<TokenView>, location: ErrorPlacement) -> (
    int,
    int,
) {
    match location {
        ErrorPlacement::PrevTokenEnd => (r.prev_end, r.prev_end),
        ErrorPlacement::NextToken => if 0 <= r.cursor < tokens.len() {
            (offset_at(tokens, r.cursor) as int, offset_at(tokens, r.cursor + 1) as int)
        } else {
            (offset_at(tokens, r.cursor) as int, offset_at(tokens, r.cursor) as int)
        },
    }
}

/// The kinds of the tokens, in order.
pub open spec fn view_kinds(tokens: Seq<TokenView>) -> Seq<SyntaxKind> {
    tokens.map_values(|t: TokenView| t.kind)
}

/// The byte offset at which the token `index` starts.
pub open spec fn offset_at(tokens: Seq<TokenView>, index: int) -> nat
    decreases index,
{
    if index <= 0 || index > tokens.len() {
        0
    } else {
        offset_at(tokens, index - 1) + byte_len(tokens[index - 1].text)
    }
}

pub proof fn lemma_offset_views(tokens: Seq<Token>, index: int)
    requires
        0 <= index <= tokens.len(),
    ensures
        offset_of(tokens, index) == offset_at(token_views(tokens), index),
    decreases index,
{
    if index > 0 {
        lemma_offset_views(tokens, index - 1);
        lemma_offset_step(tokens, index - 1);
    } else {
        lemma_offset_step_zero(tokens);
    }
}

pub proof fn lemma_kinds_views(tokens: Seq<Token>)
    ensures
        view_kinds(token_views(tokens)) == kinds_of(tokens),
{
    assert(view_kinds(token_views(tokens)) =~= kinds_of(tokens));
}

/// The effect of the event `idx`, before the trivia that follows is taken.
///
/// An opening starts its forward parents, outermost first, and then its own
/// node; one that was started as a forward parent does nothing more. A closing
/// ends the innermost open node. `Advance` takes the token at the cursor. An
/// error is placed. What cannot be done (closing with no node open, taking a
/// token at the end of the input) is left undone.
pub open spec fn apply_event(
    r: Replay,
    events: Seq<EventView>,
    tokens: Seq<TokenView>,
    idx: int,
) -> Replay {
    match events[idx] {
        EventView::Unmatched => r,
        EventView::Open { kind, .. } => {
            if r.started.contains(idx) {
                r
            } else {
                let targets = chain_targets(events, idx);
                Replay {
                    depth: r.depth + 1 + targets.len(),
                    started: r.started.union(targets.to_set()),
                    steps: r.steps + rev_starts(seq![kind] + kinds_at(events, targets)),
                    ..r
                }
            }
        },
        EventView::Close => {
            if r.depth > 0 {
                Replay { depth: (r.depth - 1) as nat, steps: r.steps.push(Step::Finish), ..r }
            } else {
                r
            }
        },
        EventView::Advance => {
            if 0 <= r.cursor < tokens.len() {
                Replay {
                    cursor: r.cursor + 1,
                    prev_end: offset_at(tokens, r.cursor + 1) as int,
                    steps: r.steps.push(Step::Leaf(tokens[r.cursor])),
                    ..r
                }
            } else {
                r
            }
        },
        EventView::Error { message, location } => {
            let range = error_range(r, tokens, location);
            Replay {
                errors: r.errors.push(Diagnostic { message, start: range.0, end: range.1 }),
                ..r
            }
        },
    }
}

/// The trivia at the cursor goes into the innermost open node.
pub open spec fn take_trivia(r: Replay, tokens: Seq<TokenView>) -> Replay {
    let next = skip_trivia(view_kinds(tokens), r.cursor);
    Replay { cursor: next, steps: r.steps + leaves(tokens, r.cursor, next), ..r }
}

/// The state after the first `n` events: each event takes effect, and the
/// trivia that follows it is taken at once.
pub open spec fn replay(events: Seq<EventView>, tokens: Seq<TokenView>, n: nat) -> Replay
    decreases n,
{
    if n == 0 {
        Replay {
            cursor: 0,
            prev_end: 0,
            depth: 0,
            started: Set::empty(),
            steps: Seq::empty(),
            errors: Seq::empty(),
        }
    } else {
        take_trivia(apply_event(replay(events, tokens, (n - 1) as nat), events, tokens, n - 1), tokens)
    }
}

/// All steps of the replay: after the last event the tokens that are left are
/// taken, and the nodes that are still open are closed.
pub open spec fn replay_steps(events: Seq<EventView>, tokens: Seq<TokenView>) -> Seq<Step> {
    let r = replay(events, tokens, events.len());
    r.steps + leaves(tokens, r.cursor, tokens.len() as int) + finishes(r.depth)
}

proof fn lemma_rev_starts_tokens(kinds: Seq<SyntaxKind>)
    ensures
        steps_tokens(rev_starts(kinds)) == Seq::<TokenView>::empty(),
    decreases kinds.len(),
{
    if kinds.len() > 0 {
        lemma_rev_starts_tokens(kinds.drop_last());
        let first = seq![Step::Start(kinds.last())];
        lemma_steps_tokens_concat(first, rev_starts(kinds.drop_last()));
        lemma_steps_tokens_one(Step::Start(kinds.last()));
    }
}

proof fn lemma_finishes_tokens(n: nat)
    ensures
        steps_tokens(finishes(n)) == Seq::<TokenView>::empty(),
    decreases n,
{
    if n > 0 {
        lemma_finishes_tokens((n - 1) as nat);
        assert(finishes(n).drop_last() =~= finishes((n - 1) as nat));
    }
}

proof fn lemma_leaves_tokens(tokens: Seq<TokenView>, from: int, to: int)
    requires
        0 <= from <= to <= tokens.len(),
    ensures
        steps_tokens(leaves(tokens, from, to)) == tokens.subrange(from, to),
    decreases to - from,
{
    if from < to {
        lemma_leaves_tokens(tokens, from, to - 1);
        assert(leaves(tokens, from, to).drop_last() =~= leaves(tokens, from, to - 1));
        assert(tokens.subrange(from, to - 1).push(tokens[to - 1]) =~= tokens.subrange(from, to));
    } else {
        assert(tokens.subrange(from, to) =~= Seq::<TokenView>::empty());
    }
}

/// Whatever the events are, the replay takes the tokens in their order, each
/// once: after any number of events the walk has passed the tokens before the
/// cursor.
pub proof fn lemma_replay_tokens(events: Seq<EventView>, tokens: Seq<TokenView>, n: nat)
    requires
        n <= events.len(),
    ensures
        0 <= replay(events, tokens, n).cursor <= tokens.len(),
        steps_tokens(replay(events, tokens, n).steps) == tokens.take(
            replay(events, tokens, n).cursor,
        ),
    decreases n,
{
    if n == 0 {
        assert(tokens.take(0) =~= Seq::<TokenView>::empty());
    } else {
        lemma_replay_tokens(events, tokens, (n - 1) as nat);
        let r = replay(events, tokens, (n - 1) as nat);
        let a = apply_event(r, events, tokens, n - 1);
        assert(0 <= a.cursor <= tokens.len() && steps_tokens(a.steps) == tokens.take(a.cursor)) by {
            match events[n - 1] {
                EventView::Open { kind, .. } => {
                    let added = rev_starts(
                        seq![kind] + kinds_at(events, chain_targets(events, n - 1)),
                    );
                    lemma_rev_starts_tokens(seq![kind] + kinds_at(events, chain_targets(events, n - 1)));
                    lemma_steps_tokens_concat(r.steps, added);
                    assert(steps_tokens(r.steps) + Seq::<TokenView>::empty() =~= steps_tokens(
                        r.steps,
                    ));
                },
                EventView::Close => {
                    assert(r.steps.push(Step::Finish).drop_last() =~= r.steps);
                },
                EventView::Advance => {
                    if 0 <= r.cursor < tokens.len() {
                        assert(r.steps.push(Step::Leaf(tokens[r.cursor])).drop_last() =~= r.steps);
                        assert(tokens.take(r.cursor).push(tokens[r.cursor]) =~= tokens.take(
                            r.cursor + 1,
                        ));
                    }
                },
                _ => {},
            }
        }
        let next = skip_trivia(view_kinds(tokens), a.cursor);
        lemma_skip_trivia(view_kinds(tokens), a.cursor);
        lemma_leaves_tokens(tokens, a.cursor, next);
        lemma_steps_tokens_concat(a.steps, leaves(tokens, a.cursor, next));
        assert(tokens.take(a.cursor) + tokens.subrange(a.cursor, next) =~= tokens.take(next));
    }
}

/// Losslessness of the replay: whatever the events are, every token is passed
/// once, in the order of the input.
pub proof fn lemma_replay_lossless(events: Seq<EventView>, tokens: Seq<TokenView>)
    ensures
        steps_tokens(replay_steps(events, tokens)) == tokens,
{
    let r = replay(events, tokens, events.len());
    lemma_replay_tokens(events, tokens, events.len());
    lemma_leaves_tokens(tokens, r.cursor, tokens.len() as int);
    lemma_finishes_tokens(r.depth);
    lemma_steps_tokens_concat(r.steps + leaves(tokens, r.cursor, tokens.len() as int), finishes(r.depth));
    lemma_steps_tokens_concat(r.steps, leaves(tokens, r.cursor, tokens.len() as int));
    assert(tokens.take(r.cursor) + tokens.subrange(r.cursor, tokens.len() as int) =~= tokens);
    assert(tokens + Seq::<TokenView>::empty() =~= tokens);
}

/// The tokens of the root are those of the elements it was made of.
pub proof fn lemma_root_tokens(top: Seq<SyntaxElement>, root: SyntaxNode)
    requires
        root_of(top, root),
    ensures
        root.tokens() == elements_tokens(top),
{
    if top.len() == 1 && top[0] is Node {
        reveal_with_fuel(elements_tokens, 2);
        assert(top.drop_last() =~= Seq::<SyntaxElement>::empty());
        assert(elements_tokens(top) =~= element_tokens(top[0]));
    }
}

/// The root for the elements that stand at the top: a single node is the root
/// itself; anything else is put under a root of kind `ERROR`.
pub open spec fn root_of(top: Seq<SyntaxElement>, root: SyntaxNode) -> bool {
    if top.len() == 1 && top[0] is Node {
        root == top[0]->Node_0
    } else {
        root.kind == SyntaxKind::ERROR && root.children@ == top
    }
}

/// The tree with the root `root` is the tree of the walk `walk`.
pub open spec fn replayed(walk: Seq<Step>, root: SyntaxNode) -> bool {
    exists|top: Seq<SyntaxElement>| elements_steps(top) == walk && root_of(top, root)
}

/// What the replay of events against tokens gives: the tree and the
/// diagnostics.
#[derive(Debug)]
pub struct Parse {
    pub root: SyntaxNode,
    pub errors: Vec<SyntaxError>,
}

/// A node that is open: its kind, and the children it has so far.
struct Frame {
    kind: SyntaxKind,
    children: Vec<SyntaxElement>,
}

/// The steps that a stack of open nodes stands for. The lowest frame collects
/// what stands at the top, and is no node itself.
spec fn stack_steps(stack: Seq<Frame>) -> Seq<Step>
    decreases stack.len(),
{
    if stack.len() == 0 {
        Seq::empty()
    } else if stack.len() == 1 {
        elements_steps(stack[0].children@)
    } else {
        stack_steps(stack.drop_last()) + seq![Step::Start(stack.last().kind)] + elements_steps(
            stack.last().children@,
        )
    }
}

proof fn lemma_elements_steps_push(s: Seq<SyntaxElement>, e: SyntaxElement)
    ensures
        elements_steps(s.push(e)) == elements_steps(s) + element_steps(e),
{
    assert(s.push(e).drop_last() =~= s);
}

fn push_element(stack: &mut Vec<Frame>, e: SyntaxElement)
    requires
        old(stack).len() >= 1,
    ensures
        final(stack).len() == old(stack).len(),
        stack_steps(final(stack)@) == stack_steps(old(stack)@) + element_steps(e),
{
    let mut top = stack.pop().unwrap();
    let ghost below = stack@;
    let ghost before = top.children@;
    top.children.push(e);
    proof {
        lemma_elements_steps_push(before, e);
        assert(old(stack)@.drop_last() =~= below);
    }
    let ghost kind = top.kind;
    stack.push(top);
    proof {
        assert(stack@.drop_last() =~= below);
        if below.len() == 0 {
            assert(stack_steps(stack@) =~= stack_steps(old(stack)@) + element_steps(e));
        } else {
            assert(stack_steps(stack@) =~= stack_steps(old(stack)@) + element_steps(e));
        }
    }
}

fn open_frame(stack: &mut Vec<Frame>, kind: SyntaxKind)
    requires
        old(stack).len() >= 1,
    ensures
        final(stack).len() == old(stack).len() + 1,
        stack_steps(final(stack)@) == stack_steps(old(stack)@).push(Step::Start(kind)),
{
    stack.push(Frame { kind, children: Vec::new() });
    proof {
        assert(stack@.drop_last() =~= old(stack)@);
        assert(stack_steps(stack@) =~= stack_steps(old(stack)@).push(Step::Start(kind)));
    }
}

fn close_frame(stack: &mut Vec<Frame>)
    requires
        old(stack).len() >= 2,
    ensures
        final(stack).len() == old(stack).len() - 1,
        stack_steps(final(stack)@) == stack_steps(old(stack)@).push(Step::Finish),
{
    let top = stack.pop().unwrap();
    let ghost below = stack@;
    let node = SyntaxNode { kind: top.kind, children: top.children };
    proof {
        assert(old(stack)@.drop_last() =~= below);
    }
    push_element(stack, SyntaxElement::Node(node));
    proof {
        assert(stack_steps(stack@) =~= stack_steps(old(stack)@).push(Step::Finish));
    }
}

fn copy_token(t: &Token) -> (r: Token)
    ensures
        r == *t,
{
    Token { kind: t.kind, text: t.text.clone() }
}

/// Takes the tokens `cursor..to` into the innermost open node.
fn take_tokens(tokens: &[Token], stack: &mut Vec<Frame>, cursor: usize, to: usize)
    requires
        old(stack).len() >= 1,
        cursor <= to <= tokens@.len(),
    ensures
        final(stack).len() == old(stack).len(),
        stack_steps(final(stack)@) == stack_steps(old(stack)@) + leaves(
            token_views(tokens@),
            cursor as int,
            to as int,
        ),
{
    let mut i = cursor;
    proof {
        assert(leaves(token_views(tokens@), cursor as int, cursor as int) =~= Seq::<Step>::empty());
        assert(stack_steps(stack@) + Seq::<Step>::empty() =~= stack_steps(stack@));
    }
    while i < to
        invariant
            cursor <= i <= to <= tokens@.len(),
            stack.len() == old(stack).len(),
            stack.len() >= 1,
            stack_steps(stack@) == stack_steps(old(stack)@) + leaves(
                token_views(tokens@),
                cursor as int,
                i as int,
            ),
        decreases to - i,
    {
        let ghost before = stack_steps(stack@);
        push_element(stack, SyntaxElement::Token(copy_token(&tokens[i])));
        proof {
            let tv = token_views(tokens@);
            assert(leaves(tv, cursor as int, i + 1) =~= leaves(tv, cursor as int, i as int) + seq![
                Step::Leaf(token_view(tokens@[i as int])),
            ]);
            assert(stack_steps(stack@) =~= stack_steps(old(stack)@) + leaves(
                tv,
                cursor as int,
                i + 1,
            ));
        }
        i = i + 1;
    }
}

/// The end of the run of trivia that starts at `cursor`, and the byte offset
/// there.
fn trivia_end(tokens: &[Token], cursor: usize, offset: usize) -> (r: (usize, usize))
    requires
        cursor <= tokens@.len(),
        offset == offset_of(tokens@, cursor as int),
        byte_len(crate::lexer::tokens_text(tokens@)) <= usize::MAX,
    ensures
        r.0 == skip_trivia(kinds_of(tokens@), cursor as int),
        cursor <= r.0 <= tokens@.len(),
        r.1 == offset_of(tokens@, r.0 as int),
{
    let mut i = cursor;
    let mut at = offset;
    proof {
        lemma_skip_trivia(kinds_of(tokens@), cursor as int);
    }
    while i < tokens.len() && tokens[i].kind.is_trivia()
        invariant
            cursor <= i <= tokens@.len(),
            skip_trivia(kinds_of(tokens@), i as int) == skip_trivia(kinds_of(tokens@), cursor as int),
            at == offset_of(tokens@, i as int),
            byte_len(crate::lexer::tokens_text(tokens@)) <= usize::MAX,
        decreases tokens@.len() - i,
    {
        proof {
            lemma_offset_step(tokens@, i as int);
            lemma_offset_monotone(tokens@, i + 1, tokens@.len() as int);
        }
        at = at + str_byte_len(tokens[i].text.as_str());
        i = i + 1;
    }
    (i, at)
}

/// The kinds of the nodes that start at the opening `idx`: its own kind, then
/// those of its forward parents, nearest first. The forward parents are marked
/// as started.
fn collect_chain(events: &Vec<Event>, idx: usize, started: &mut Vec<bool>) -> (kinds: Vec<SyntaxKind>)
    requires
        idx < events.len(),
        events@[idx as int] is Open,
        old(started).len() == events.len(),
    ensures
        final(started).len() == events.len(),
        kinds@ == seq![events@[idx as int]->kind] + kinds_at(
            views(events@),
            chain_targets(views(events@), idx as int),
        ),
        kinds@.len() == 1 + chain_targets(views(events@), idx as int).len(),
        forall|j: int|
            0 <= j < events.len() ==> (#[trigger] final(started)[j] <==> (old(started)[j] || chain_targets(
                views(events@),
                idx as int,
            ).to_set().contains(j))),
{
    let mut kinds: Vec<SyntaxKind> = Vec::new();
    let mut link: Option<usize> = None;
    match &events[idx] {
        Event::Open { kind, forward_parent } => {
            kinds.push(*kind);
            link = *forward_parent;
        },
        _ => {},
    }
    let ghost first = events@[idx as int]->kind;
    let ghost ev = views(events@);
    let mut at: usize = idx;
    let ghost mut seen: Seq<int> = Seq::empty();
    let mut more = true;
    proof {
        assert(kinds@ =~= seq![first] + kinds_at(ev, seen));
        assert(seen + chain_targets(ev, at as int) =~= chain_targets(ev, idx as int));
    }
    while more
        invariant
            idx <= at < events.len(),
            started.len() == events.len(),
            events@[at as int] matches Event::Open { forward_parent: fp, .. } && fp == link,
            ev == views(events@),
            more ==> chain_targets(ev, idx as int) == seen + chain_targets(ev, at as int),
            !more ==> chain_targets(ev, idx as int) == seen,
            kinds@ == seq![first] + kinds_at(ev, seen),
            old(started).len() == events.len(),
            forall|j: int|
                0 <= j < events.len() ==> (#[trigger] started[j] <==> (old(started)[j]
                    || seen.to_set().contains(j))),
        decreases events.len() - at, (if more { 1nat } else { 0nat }),
    {
        let mut next: Option<usize> = None;
        match link {
            Some(d) => {
                if d > 0 && d < events.len() - at {
                    next = Some(at + d);
                }
            },
            None => {},
        }
        let mut found = false;
        match next {
            Some(t) => {
                match &events[t] {
                    Event::Open { kind: parent, forward_parent: further } => {
                        proof {
                            let ghost old_seen = seen;
                            seen = seen.push(t as int);
                            assert(ev[t as int] == view_of(events@[t as int]));
                            assert(ev[at as int] == view_of(events@[at as int]));
                            assert(kinds_at(ev, seen) =~= kinds_at(ev, old_seen).push(*parent));
                            lemma_to_set_push(old_seen, t as int);
                            assert(chain_targets(ev, at as int) =~= seq![t as int] + chain_targets(
                                ev,
                                t as int,
                            ));
                            assert(old_seen + (seq![t as int] + chain_targets(ev, t as int))
                                =~= seen + chain_targets(ev, t as int));
                        }
                        started.set(t, true);
                        kinds.push(*parent);
                        at = t;
                        link = *further;
                        found = true;
                    },
                    _ => {},
                }
            },
            None => {},
        }
        if !found {
            more = false;
            proof {
                assert(ev[at as int] == view_of(events@[at as int]));
                match next {
                    Some(t) => {
                        assert(ev[t as int] == view_of(events@[t as int]));
                    },
                    None => {},
                }
                assert(chain_targets(ev, at as int) =~= Seq::<int>::empty());
                assert(seen + Seq::<int>::empty() =~= seen);
            }
        }
    }
    kinds
}

proof fn lemma_to_set_push(s: Seq<int>, x: int)
    ensures
        s.push(x).to_set() == s.to_set().insert(x),
{
    let t = s.push(x);
    assert forall|y: int| t.to_set().contains(y) <==> s.to_set().insert(x).contains(y) by {
        if t.contains(y) {
            let j = choose|j: int| 0 <= j < t.len() && t[j] == y;
            if j < s.len() {
                assert(s[j] == y);
            }
        }
        if s.contains(y) {
            let j = choose|j: int| 0 <= j < s.len() && s[j] == y;
            assert(t[j] == y);
        }
        if y == x {
            assert(t[t.len() - 1] == y);
        }
    }
    assert(t.to_set() =~= s.to_set().insert(x));
}

/// Opens a node for each kind, the last kind first.
fn open_frames(stack: &mut Vec<Frame>, kinds: &Vec<SyntaxKind>)
    requires
        old(stack).len() >= 1,
    ensures
        final(stack).len() == old(stack).len() + kinds.len(),
        stack_steps(final(stack)@) == stack_steps(old(stack)@) + rev_starts(kinds@),
{
    let ghost base = stack_steps(stack@);
    let mut j: usize = kinds.len();
    proof {
        assert(kinds@.take(kinds.len() as int) =~= kinds@);
    }
    while j > 0
        invariant
            j <= kinds.len(),
            stack.len() >= 1,
            stack.len() == old(stack).len() + (kinds.len() - j),
            stack_steps(stack@) + rev_starts(kinds@.take(j as int)) == base + rev_starts(kinds@),
        decreases j,
    {
        let ghost before = stack_steps(stack@);
        open_frame(stack, kinds[j - 1]);
        proof {
            assert(kinds@.take(j as int).drop_last() =~= kinds@.take(j - 1));
            assert(before.push(Step::Start(kinds@[j - 1])) + rev_starts(kinds@.take(j - 1))
                =~= before + rev_starts(kinds@.take(j as int)));
        }
        j = j - 1;
    }
    proof {
        assert(rev_starts(kinds@.take(0)) =~= Seq::<Step>::empty());
        assert(stack_steps(stack@) =~= base + rev_starts(kinds@));
    }
}

/// The diagnostic for an error event, placed by the tokens.
fn place_error(
    e: &ParseError,
    tokens: &[Token],
    cursor: usize,
    offset: usize,
    prev_end: usize,
) -> (error: SyntaxError)
    requires
        cursor <= tokens@.len(),
        offset == offset_of(tokens@, cursor as int),
        byte_len(crate::lexer::tokens_text(tokens@)) <= usize::MAX,
    ensures
        error.message@ == e.message@,
        error.range.start == (if e.location == ErrorPlacement::PrevTokenEnd {
            prev_end as int
        } else {
            offset as int
        }),
        error.range.end == (if e.location == ErrorPlacement::PrevTokenEnd {
            prev_end as int
        } else if cursor < tokens@.len() {
            offset_of(tokens@, cursor + 1) as int
        } else {
            offset as int
        }),
{
    let range = match e.location {
        ErrorPlacement::PrevTokenEnd => prev_end..prev_end,
        ErrorPlacement::NextToken => {
            if cursor < tokens.len() {
                proof {
                    lemma_offset_step(tokens@, cursor as int);
                    lemma_offset_monotone(tokens@, cursor + 1, tokens@.len() as int);
                }
                offset..(offset + str_byte_len(tokens[cursor].text.as_str()))
            } else {
                offset..offset
            }
        },
    };
    SyntaxError { message: e.message.clone(), range }
}

/// Closes every node that is still open, and gives the root.
fn close_all(stack: Vec<Frame>) -> (root: SyntaxNode)
    requires
        stack.len() >= 1,
    ensures
        exists|top: Seq<SyntaxElement>|
            elements_steps(top) == stack_steps(stack@) + finishes((stack.len() - 1) as nat)
                && root_of(top, root),
{
    let mut stack = stack;
    let ghost base = stack_steps(stack@);
    let ghost depth = (stack.len() - 1) as nat;
    proof {
        assert(base + finishes(0) =~= base);
    }
    while stack.len() >= 2
        invariant
            stack.len() >= 1,
            stack.len() <= depth + 1,
            stack_steps(stack@) == base + finishes((depth + 1 - stack.len()) as nat),
        decreases stack.len(),
    {
        let ghost before = stack_steps(stack@);
        let ghost n = (depth + 1 - stack.len()) as nat;
        close_frame(&mut stack);
        proof {
            assert(finishes(n).push(Step::Finish) =~= finishes(n + 1));
            assert(before.push(Step::Finish) =~= base + finishes(n + 1));
        }
    }
    let bottom = stack.pop().unwrap();
    let ghost top = bottom.children@;
    let mut children = bottom.children;
    let root = if children.len() == 1 {
        match children.pop().unwrap() {
            SyntaxElement::Node(node) => node,
            SyntaxElement::Token(token) => {
                let mut only: Vec<SyntaxElement> = Vec::new();
                only.push(SyntaxElement::Token(token));
                proof {
                    assert(only@ =~= top);
                }
                SyntaxNode { kind: SyntaxKind::ERROR, children: only }
            },
        }
    } else {
        SyntaxNode { kind: SyntaxKind::ERROR, children }
    };
    proof {
        assert(root_of(top, root));
        assert(elements_steps(top) == base + finishes(depth));
    }
    root
}

/// Replays events against the tokens they were recorded for, and builds the
/// tree.
pub struct Sink<'t> {
    tokens: &'t [Token],
    events: Vec<Event>,
}

impl<'t> Sink<'t> {
    pub closed spec fn tokens(&self) -> Seq<Token> {
        self.tokens@
    }

    pub closed spec fn events(&self) -> Seq<Event> {
        self.events@
    }

    pub fn new(tokens: &'t [Token], events: Vec<Event>) -> (sink: Self)
        ensures
            sink.tokens() == tokens@,
            sink.events() == events@,
    {
        Sink { tokens, events }
    }

    /// Builds the tree and the list of diagnostics.
    ///
    /// The walk through the tree takes the steps of the replay, and the
    /// diagnostics are those of the replay, in the order of the events. The
    /// replay is defined for any events: what an event cannot do is left
    /// undone, and what is open or left over at the end is closed and taken
    /// then. For the events that the grammar records nothing of that kind ever
    /// happens (`lemma_parse_walk`). No token is lost in any case.
    pub fn finish(self) -> (parse: Parse)
        requires
            byte_len(crate::lexer::tokens_text(self.tokens())) <= usize::MAX,
        ensures
            replayed(
                replay_steps(views(self.events()), token_views(self.tokens())),
                parse.root,
            ),
            diagnostics_of(parse.errors@) == replay(
                views(self.events()),
                token_views(self.tokens()),
                self.events().len(),
            ).errors,
            token_views(parse.root.tokens()) == token_views(self.tokens()),
            parse.root.text() == tokens_text(self.tokens()),
    {
        let tokens = self.tokens;
        let events = self.events;
        let mut stack: Vec<Frame> = Vec::new();
        stack.push(Frame { kind: SyntaxKind::ERROR, children: Vec::new() });
        let mut errors: Vec<SyntaxError> = Vec::new();
        let mut started: Vec<bool> = Vec::new();
        let mut k: usize = 0;
        while k < events.len()
            invariant
                k <= events.len(),
                started.len() == k,
                forall|j: int| 0 <= j < k ==> !started[j],
            decreases events.len() - k,
        {
            started.push(false);
            k = k + 1;
        }
        let mut cursor: usize = 0;
        let mut offset: usize = 0;
        let mut prev_end: usize = 0;
        let mut idx: usize = 0;
        let ghost ev = views(events@);
        let ghost tv = token_views(tokens@);
        proof {
            lemma_offset_step_zero(tokens@);
            lemma_kinds_views(tokens@);
            assert(diagnostics_of(errors@) =~= Seq::<Diagnostic>::empty());
        }
        while idx < events.len()
            invariant
                idx <= events.len(),
                started.len() == events.len(),
                byte_len(crate::lexer::tokens_text(tokens@)) <= usize::MAX,
                ev == views(events@),
                tv == token_views(tokens@),
                view_kinds(tv) == kinds_of(tokens@),
                stack.len() == replay(ev, tv, idx as nat).depth + 1,
                stack_steps(stack@) == replay(ev, tv, idx as nat).steps,
                cursor == replay(ev, tv, idx as nat).cursor,
                cursor <= tokens@.len(),
                offset == offset_of(tokens@, cursor as int),
                prev_end == replay(ev, tv, idx as nat).prev_end,
                forall|j: int|
                    0 <= j < started.len() ==> (started[j] <==> replay(
                        ev,
                        tv,
                        idx as nat,
                    ).started.contains(j)),
                diagnostics_of(errors@) == replay(ev, tv, idx as nat).errors,
            decreases events.len() - idx,
        {
            let ghost r = replay(ev, tv, idx as nat);
            let ghost applied = apply_event(r, ev, tv, idx as int);
            proof {
                assert(ev[idx as int] == view_of(events@[idx as int]));
                lemma_offset_views(tokens@, cursor as int);
                if cursor < tokens@.len() {
                    lemma_offset_views(tokens@, cursor + 1);
                    assert(tv[cursor as int] == token_view(tokens@[cursor as int]));
                }
            }
            match &events[idx] {
                Event::UnmatchedOpen => {},
                Event::Open { .. } => {
                    if !started[idx] {
                        let kinds = collect_chain(&events, idx, &mut started);
                        open_frames(&mut stack, &kinds);
                    }
                },
                Event::Close => {
                    if stack.len() >= 2 {
                        close_frame(&mut stack);
                    }
                },
                Event::Advance => {
                    if cursor < tokens.len() {
                        push_element(&mut stack, SyntaxElement::Token(copy_token(&tokens[cursor])));
                        proof {
                            lemma_offset_step(tokens@, cursor as int);
                            lemma_offset_monotone(tokens@, cursor + 1, tokens@.len() as int);
                        }
                        offset = offset + str_byte_len(tokens[cursor].text.as_str());
                        cursor = cursor + 1;
                        prev_end = offset;
                    }
                },
                Event::Error(e) => {
                    let ghost before = errors@;
                    let error = place_error(e, tokens, cursor, offset, prev_end);
                    errors.push(error);
                    proof {
                        assert(diagnostics_of(errors@) =~= diagnostics_of(before).push(
                            diagnostic_of(error),
                        ));
                        assert(diagnostic_of(error) == applied.errors.last());
                    }
                },
            }
            proof {
                assert(stack_steps(stack@) =~= applied.steps);
                assert(stack.len() == applied.depth + 1);
                assert(cursor == applied.cursor);
                assert(diagnostics_of(errors@) =~= applied.errors);
                assert(forall|j: int|
                    0 <= j < started.len() ==> (started[j] <==> applied.started.contains(j)));
            }
            let (next, next_offset) = trivia_end(tokens, cursor, offset);
            take_tokens(tokens, &mut stack, cursor, next);
            cursor = next;
            offset = next_offset;
            idx = idx + 1;
        }
        let ghost r = replay(ev, tv, events@.len());
        take_tokens(tokens, &mut stack, cursor, tokens.len());
        let root = close_all(stack);
        proof {
            let top = choose|top: Seq<SyntaxElement>|
                elements_steps(top) == replay_steps(ev, tv) && root_of(top, root);
            lemma_root_tokens(top, root);
            lemma_elements_steps_tokens(top);
            lemma_replay_lossless(ev, tv);
            lemma_text_of_views(root.tokens(), tokens@);
        }
        Parse { root, errors }
    }
}

/// The text of tokens depends on their kinds and characters only.
pub proof fn lemma_text_of_views(a: Seq<Token>, b: Seq<Token>)
    requires
        token_views(a) == token_views(b),
    ensures
        tokens_text(a) == tokens_text(b),
    decreases a.len(),
{
    assert(a.len() == token_views(a).len());
    assert(b.len() == token_views(b).len());
    if a.len() > 0 {
        assert(token_views(a.drop_last()) =~= token_views(a).drop_last());
        assert(token_views(b.drop_last()) =~= token_views(b).drop_last());
        lemma_text_of_views(a.drop_last(), b.drop_last());
        assert(token_views(a)[a.len() - 1] == token_view(a.last()));
        assert(token_views(b)[b.len() - 1] == token_view(b.last()));
    }
}

proof fn lemma_offset_step_zero(tokens: Seq<Token>)
    ensures
        offset_of(tokens, 0) == 0,
{
    assert(tokens.take(0) =~= Seq::<Token>::empty());
}

} // verus!
