//! The events that the parser writes: a flat list in which the tree is implicit.

use vstd::prelude::*;
use crate::syntax_kind::SyntaxKind;

verus! {

/// Where a diagnostic is anchored when the events are replayed.
#[derive(Clone, Copy, Debug, PartialEq, Eq, Structural)]
pub enum ErrorPlacement {
    /// At the end of the last significant token before the error.
    PrevTokenEnd,
    /// On the next significant token.
    NextToken,
}

/// A syntax error as the parser records it: the message, and how to place it.
#[derive(Debug)]
pub struct ParseError {
    pub message: String,
    pub location: ErrorPlacement,
}

/// One step of the flat record that parsing leaves behind.
#[derive(Debug)]
pub enum Event {
    /// A node was opened and not closed yet; its kind is still unknown.
    UnmatchedOpen,
    /// A node of `kind` starts here. With `forward_parent: Some(d)`, the node
    /// opened by the event `d` places further on is its parent and starts here
    /// too, just before it.
    Open { kind: SyntaxKind, forward_parent: Option<usize> },
    /// The innermost open node ends here.
    Close,
    /// The next significant token belongs here.
    Advance,
    /// A syntax error was found here.
    Error(ParseError),
}

/// An event as a plain value: a message by its characters.
pub enum EventView {
    Unmatched,
    Open { kind: SyntaxKind, parent: Option<nat> },
    Close,
    Advance,
    Error { message: Seq<char>, location: ErrorPlacement },
}

pub open spec fn view_of(e: Event) -> EventView {
    match e {
        Event::UnmatchedOpen => EventView::Unmatched,
        Event::Open { kind, forward_parent } => EventView::Open {
            kind,
            parent: match forward_parent {
                Some(d) => Some(d as nat),
                None => None,
            },
        },
        Event::Close => EventView::Close,
        Event::Advance => EventView::Advance,
        Event::Error(e) => EventView::Error { message: e.message@, location: e.location },
    }
}

pub open spec fn views(events: Seq<Event>) -> Seq<EventView> {
    events.map_values(|e: Event| view_of(e))
}

pub proof fn lemma_views_push(events: Seq<Event>, e: Event)
    ensures
        views(events.push(e)) == views(events).push(view_of(e)),
{
    assert(views(events.push(e)) =~= views(events).push(view_of(e)));
}

pub proof fn lemma_views_update(events: Seq<Event>, i: int, e: Event)
    requires
        0 <= i < events.len(),
    ensures
        views(events.update(i, e)) == views(events).update(i, view_of(e)),
{
    assert(views(events.update(i, e)) =~= views(events).update(i, view_of(e)));
}

} // verus!
