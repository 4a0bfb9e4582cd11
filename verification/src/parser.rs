//! The parser engine: markers, events, and the cursor over the significant
//! tokens.

use vstd::prelude::*;
use vstd::string::*;
use crate::event::{
    ErrorPlacement, Event, EventView, lemma_views_push, lemma_views_update, ParseError, views,
};
use crate::grammar::rules::{
    bump_left, error_run, expect_run, open_of, peek_at, ran, ran_node, recover_run, skip_run,
    unexpected_run, with_parent,
};
use crate::source::{bumped, lemma_skip_trivia, remaining, skip_trivia, Source};
use crate::syntax_kind::SyntaxKind;
use crate::token_set::TokenSet;

verus! {

/// A node that was opened and has to be closed, once, by `Parser::close`. The
/// rules of the grammar close every node they open (`lemma_parse_tidy`).
#[must_use]
pub struct Marker {
    pos: usize,
    completed: bool,
}

/// A node that has been closed. It can still be given a parent, by
/// `Parser::open_before`.
#[derive(Clone, Copy)]
pub struct CompletedMarker {
    pub pos: usize,
}

impl Marker {
    /// The place of the node's opening event in the event list.
    pub closed spec fn index(&self) -> int {
        self.pos as int
    }

    pub closed spec fn is_completed(&self) -> bool {
        self.completed
    }

    pub fn new(pos: usize) -> (m: Self)
        ensures
            m.index() == pos,
            !m.is_completed(),
    {
        Self { pos, completed: false }
    }

    pub fn complete(self) -> (c: CompletedMarker)
        ensures
            c.pos == self.index(),
    {
        let mut this = self;
        this.completed = true;
        CompletedMarker { pos: this.pos }
    }
}

/// Turns the tokens of a `Source` into events.
pub struct Parser<'t> {
    source: Source<'t>,
    events: Vec<Event>,
}

impl<'t> Parser<'t> {
    /// The events recorded so far.
    pub closed spec fn events(&self) -> Seq<Event> {
        self.events@
    }

    /// The events recorded so far, as plain values.
    pub open spec fn trace(&self) -> Seq<EventView> {
        views(self.events())
    }

    /// The kinds of all tokens of the input.
    pub closed spec fn kinds(&self) -> Seq<SyntaxKind> {
        self.source.kinds()
    }

    /// The number of tokens that lie before the cursor.
    pub closed spec fn pos(&self) -> int {
        self.source.pos()
    }

    /// How many tokens are left from the next significant one on.
    pub open spec fn left(&self) -> nat {
        remaining(self.kinds(), self.pos())
    }

    /// The kind of the next significant token, `EOF` at the end.
    pub open spec fn peek(&self) -> SyntaxKind {
        peek_at(self.kinds(), self.left())
    }

    pub closed spec fn wf(&self) -> bool {
        self.source.wf()
    }

    /// What every step of parsing keeps: the parser stays well formed, reads
    /// the same input, and does not go back in it.
    pub open spec fn stepped(&self, before: &Self) -> bool {
        &&& self.wf()
        &&& self.kinds() == before.kinds()
        &&& self.left() <= before.left()
    }

    /// The cursor lies inside the input, and the tokens between the cursor and
    /// the next significant token are trivia.
    pub proof fn lemma_cursor(&self)
        requires
            self.wf(),
        ensures
            0 <= self.pos() <= skip_trivia(self.kinds(), self.pos()) <= self.kinds().len(),
            self.left() == self.kinds().len() - skip_trivia(self.kinds(), self.pos()),
            self.left() > 0 ==> self.peek() == self.kinds()[skip_trivia(self.kinds(), self.pos())],
            forall|j: int|
                self.pos() <= j < skip_trivia(self.kinds(), self.pos()) ==> (
                #[trigger] self.kinds()[j]).spec_is_trivia(),
            remaining(self.kinds(), bumped(self.kinds(), self.pos())) == bump_left(
                self.kinds(),
                self.left(),
            ),
    {
        self.source.lemma_wf();
        lemma_skip_trivia(self.kinds(), self.pos());
    }

    pub fn new(source: Source<'t>) -> (p: Self)
        requires
            source.wf(),
        ensures
            p.wf(),
            p.events() == Seq::<Event>::empty(),
            p.kinds() == source.kinds(),
            p.pos() == source.pos(),
    {
        Self { source, events: Vec::new() }
    }

    /// The events, in the order in which they were recorded.
    pub fn finish(self) -> (events: Vec<Event>)
        ensures
            events@ == self.events(),
    {
        self.events
    }

    /// The number of tokens passed so far.
    pub fn position(&self) -> (r: usize)
        ensures
            r == self.pos(),
    {
        self.source.position()
    }

    /// Opens a new node: reserves its place in the event list.
    pub fn open(&mut self) -> (m: Marker)
        requires
            old(self).wf(),
        ensures
            final(self).stepped(old(self)),
            final(self).trace() == old(self).trace().push(EventView::Unmatched),
            final(self).left() == old(self).left(),
            final(self).pos() == old(self).pos(),
            m.index() == old(self).trace().len(),
            !m.is_completed(),
    {
        proof {
            lemma_views_push(self.events@, Event::UnmatchedOpen);
        }
        let pos = self.events.len();
        self.events.push(Event::UnmatchedOpen);
        Marker::new(pos)
    }

    /// Closes the node that `marker` opened, as a node of `kind`: the place
    /// that was reserved becomes the opening of the node, and the closing is
    /// recorded.
    pub fn close(&mut self, marker: Marker, kind: SyntaxKind) -> (c: CompletedMarker)
        requires
            old(self).wf(),
            0 <= marker.index() < old(self).trace().len(),
            old(self).trace()[marker.index()] is Unmatched,
        ensures
            final(self).stepped(old(self)),
            final(self).trace() == old(self).trace().update(marker.index(), open_of(kind)).push(
                EventView::Close,
            ),
            final(self).left() == old(self).left(),
            final(self).pos() == old(self).pos(),
            c.pos == marker.index(),
    {
        proof {
            let opened = Event::Open { kind, forward_parent: None };
            lemma_views_update(self.events@, marker.index(), opened);
            lemma_views_push(self.events@.update(marker.index(), opened), Event::Close);
        }
        self.events.set(marker.pos, Event::Open { kind, forward_parent: None });
        self.events.push(Event::Close);
        marker.complete()
    }

    /// Opens a new node above the closed node of `marker`: the new node starts
    /// where that one starts, and becomes its parent. The opening of the closed
    /// node gets the new opening as its forward parent.
    pub fn open_before(&mut self, marker: CompletedMarker) -> (m: Marker)
        requires
            old(self).wf(),
            marker.pos < old(self).trace().len(),
            old(self).trace()[marker.pos as int] is Open,
        ensures
            final(self).stepped(old(self)),
            final(self).trace() == with_parent(
                old(self).trace(),
                marker.pos as int,
                old(self).trace().len() as int,
            ).push(EventView::Unmatched),
            final(self).left() == old(self).left(),
            final(self).pos() == old(self).pos(),
            m.index() == old(self).trace().len(),
            !m.is_completed(),
    {
        let new_pos = self.events.len();
        let kind = match &self.events[marker.pos] {
            Event::Open { kind, .. } => *kind,
            _ => SyntaxKind::ERROR,
        };
        proof {
            let linked = Event::Open { kind, forward_parent: Some((new_pos - marker.pos) as usize) };
            lemma_views_update(self.events@, marker.pos as int, linked);
            lemma_views_push(self.events@.update(marker.pos as int, linked), Event::UnmatchedOpen);
        }
        self.events.set(
            marker.pos,
            Event::Open { kind, forward_parent: Some(new_pos - marker.pos) },
        );
        self.events.push(Event::UnmatchedOpen);
        Marker::new(new_pos)
    }

    /// The kind of the next significant token. Nothing is consumed: asking
    /// again gives the same answer.
    pub fn current(&mut self) -> (kind: SyntaxKind)
        requires
            old(self).wf(),
        ensures
            final(self).stepped(old(self)),
            final(self).events() == old(self).events(),
            final(self).left() == old(self).left(),
            final(self).pos() == skip_trivia(old(self).kinds(), old(self).pos()),
            kind == old(self).peek(),
            kind != SyntaxKind::EOF ==> old(self).left() > 0,
    {
        proof {
            self.lemma_cursor();
        }
        self.source.current()
    }

    /// Whether the next significant token is of `kind`.
    pub fn at(&mut self, kind: SyntaxKind) -> (r: bool)
        requires
            old(self).wf(),
        ensures
            final(self).stepped(old(self)),
            final(self).events() == old(self).events(),
            final(self).left() == old(self).left(),
            final(self).pos() == skip_trivia(old(self).kinds(), old(self).pos()),
            r == (old(self).peek() == kind),
            old(self).peek() != SyntaxKind::EOF ==> old(self).left() > 0,
    {
        self.current() == kind
    }

    /// Whether the next significant token is of one of the kinds in `set`.
    pub fn at_any(&mut self, set: TokenSet) -> (r: bool)
        requires
            old(self).wf(),
        ensures
            final(self).stepped(old(self)),
            final(self).events() == old(self).events(),
            final(self).left() == old(self).left(),
            final(self).pos() == skip_trivia(old(self).kinds(), old(self).pos()),
            r == set.has(old(self).peek()),
            old(self).peek() != SyntaxKind::EOF ==> old(self).left() > 0,
    {
        let kind = self.current();
        set.contains(kind)
    }

    /// Consumes the next significant token into the innermost open node.
    pub fn advance(&mut self)
        requires
            old(self).wf(),
        ensures
            final(self).stepped(old(self)),
            final(self).trace() == old(self).trace().push(EventView::Advance),
            final(self).left() == bump_left(old(self).kinds(), old(self).left()),
            final(self).pos() == bumped(old(self).kinds(), old(self).pos()),
            old(self).left() > 0 ==> final(self).left() < old(self).left(),
    {
        proof {
            self.lemma_cursor();
            lemma_views_push(self.events@, Event::Advance);
        }
        self.source.bump();
        self.events.push(Event::Advance);
    }

    /// Consumes the next significant token if it is of `kind`.
    pub fn eat(&mut self, kind: SyntaxKind) -> (r: bool)
        requires
            old(self).wf(),
        ensures
            final(self).stepped(old(self)),
            r == (old(self).peek() == kind),
            r ==> final(self).trace() == old(self).trace().push(EventView::Advance)
                && final(self).left() == bump_left(old(self).kinds(), old(self).left()),
            r && old(self).left() > 0 ==> final(self).left() < old(self).left(),
            !r ==> final(self).events() == old(self).events() && final(self).left() == old(
                self,
            ).left(),
            old(self).peek() != SyntaxKind::EOF ==> old(self).left() > 0,
    {
        if self.at(kind) {
            self.advance();
            true
        } else {
            false
        }
    }

    /// Consumes the next significant token if its kind is in `set`.
    pub fn eat_any(&mut self, set: TokenSet) -> (r: bool)
        requires
            old(self).wf(),
        ensures
            final(self).stepped(old(self)),
            r == set.has(old(self).peek()),
            r ==> final(self).trace() == old(self).trace().push(EventView::Advance)
                && final(self).left() == bump_left(old(self).kinds(), old(self).left()),
            r ==> final(self).pos() == bumped(old(self).kinds(), old(self).pos()),
            !r ==> final(self).pos() == skip_trivia(old(self).kinds(), old(self).pos()),
            r && old(self).left() > 0 ==> final(self).left() < old(self).left(),
            !r ==> final(self).events() == old(self).events() && final(self).left() == old(
                self,
            ).left(),
            old(self).peek() != SyntaxKind::EOF ==> old(self).left() > 0,
    {
        proof {
            self.lemma_cursor();
            lemma_skip_trivia(self.kinds(), skip_trivia(self.kinds(), self.pos()));
        }
        if self.at_any(set) {
            self.advance();
            true
        } else {
            false
        }
    }

    /// Records a syntax error: an empty `ERROR` node that carries the message.
    /// No token is consumed.
    pub fn error(&mut self, message: String, location: ErrorPlacement) -> (c: CompletedMarker)
        requires
            old(self).wf(),
        ensures
            final(self).stepped(old(self)),
            final(self).trace() == old(self).trace() + error_run(message@, location),
            final(self).pos() == old(self).pos(),
            final(self).left() == old(self).left(),
            c.pos == old(self).trace().len(),
    {
        let mark = self.open();
        proof {
            lemma_views_push(self.events@, Event::Error(ParseError { message, location }));
        }
        self.events.push(Event::Error(ParseError { message, location }));
        let done = self.close(mark, SyntaxKind::ERROR);
        proof {
            assert(self.trace() =~= old(self).trace() + error_run(message@, location));
        }
        done
    }

    /// Consumes the next significant token if it is of `kind`; otherwise
    /// records the error "Expected .. but found ..", placed at the end of the
    /// previous token, and consumes nothing.
    pub fn expect(&mut self, kind: SyntaxKind)
        requires
            old(self).wf(),
        ensures
            ran(old(self), final(self), expect_run(old(self).kinds(), old(self).left(), kind)),
            old(self).peek() == kind && old(self).left() > 0 ==> final(self).left() < old(
                self,
            ).left(),
    {
        if self.eat(kind) {
            proof {
                assert(old(self).trace().push(EventView::Advance) =~= old(self).trace() + seq![
                    EventView::Advance,
                ]);
            }
            return ;
        }
        let found = self.current();
        let mut msg = String::from_str("Expected ");
        msg.append(kind.name());
        msg.append(" but found ");
        msg.append(found.name());
        self.error(msg, ErrorPlacement::PrevTokenEnd);
    }

    /// Records the error "Unexpected token: ..", placed on the next token, and
    /// consumes that token.
    pub fn unexpected(&mut self)
        requires
            old(self).wf(),
        ensures
            ran(old(self), final(self), unexpected_run(old(self).kinds(), old(self).left())),
            old(self).left() > 0 ==> final(self).left() < old(self).left(),
    {
        let found = self.current();
        let mut msg = String::from_str("Unexpected token: ");
        msg.append(found.name());
        self.error(msg, ErrorPlacement::NextToken);
        self.advance();
        proof {
            assert(self.trace() =~= old(self).trace() + unexpected_run(
                old(self).kinds(),
                old(self).left(),
            ).events);
        }
    }

    /// Consumes tokens up to the first whose kind is in `stop`, or to the end
    /// of the input. No significant token whose kind is in `stop` is consumed.
    pub fn skip_until(&mut self, stop: TokenSet)
        requires
            old(self).wf(),
        ensures
            ran(
                old(self),
                final(self),
                skip_run(old(self).kinds(), old(self).left(), stop.kinds()),
            ),
            final(self).peek() == SyntaxKind::EOF || stop.has(final(self).peek()),
            !stop.has(old(self).peek()) && old(self).peek() != SyntaxKind::EOF
                ==> final(self).left() < old(self).left(),
            old(self).pos() <= final(self).pos() <= final(self).kinds().len(),
            forall|j: int|
                old(self).pos() <= j < final(self).pos() ==> (#[trigger] final(self).kinds()[j]).spec_is_trivia()
                    || !stop.has(final(self).kinds()[j]),
    {
        proof {
            self.lemma_cursor();
        }
        let mut more = !self.at(SyntaxKind::EOF) && !self.at_any(stop);
        proof {
            self.lemma_cursor();
        }
        while more
            invariant
                self.stepped(old(self)),
                more ==> self.left() > 0 && !stop.has(self.peek()) && self.peek()
                    != SyntaxKind::EOF,
                !more ==> (self.peek() == SyntaxKind::EOF || stop.has(self.peek())),
                !stop.has(old(self).peek()) && old(self).peek() != SyntaxKind::EOF ==> (more
                    || self.left() < old(self).left()),
                old(self).pos() <= self.pos() <= self.kinds().len(),
                self.pos() == skip_trivia(self.kinds(), self.pos()),
                forall|j: int|
                    old(self).pos() <= j < self.pos() ==> (#[trigger] self.kinds()[j]).spec_is_trivia()
                        || !stop.has(self.kinds()[j]),
                self.trace() + skip_run(self.kinds(), self.left(), stop.kinds()).events == old(
                    self,
                ).trace() + skip_run(old(self).kinds(), old(self).left(), stop.kinds()).events,
                skip_run(self.kinds(), self.left(), stop.kinds()).left == skip_run(
                    old(self).kinds(),
                    old(self).left(),
                    stop.kinds(),
                ).left,
            decreases self.left(),
        {
            let ghost prev = *self;
            proof {
                prev.lemma_cursor();
            }
            self.advance();
            proof {
                self.lemma_cursor();
                let rest = skip_run(self.kinds(), self.left(), stop.kinds());
                assert(prev.trace().push(EventView::Advance) + rest.events =~= prev.trace() + (
                seq![EventView::Advance] + rest.events));
            }
            more = !self.at(SyntaxKind::EOF) && !self.at_any(stop);
            proof {
                self.lemma_cursor();
            }
        }
        proof {
            assert(self.trace() + Seq::<EventView>::empty() =~= self.trace());
        }
    }

    /// Skips tokens up to the first whose kind is in `stop`, or to the end of
    /// the input. The skipped tokens go into one `ERROR` node that carries
    /// `message`, placed on the next token.
    pub fn eat_error_until(&mut self, stop: TokenSet, message: String) -> (c: CompletedMarker)
        requires
            old(self).wf(),
        ensures
            ran_node(
                old(self),
                final(self),
                recover_run(old(self).kinds(), old(self).left(), stop.kinds(), message@),
                c,
            ),
            final(self).peek() == SyntaxKind::EOF || stop.has(final(self).peek()),
            !stop.has(old(self).peek()) && old(self).peek() != SyntaxKind::EOF
                ==> final(self).left() < old(self).left(),
            old(self).pos() <= final(self).pos() <= final(self).kinds().len(),
            forall|j: int|
                old(self).pos() <= j < final(self).pos() ==> (#[trigger] final(self).kinds()[j]).spec_is_trivia()
                    || !stop.has(final(self).kinds()[j]),
    {
        let mark = self.open();
        proof {
            lemma_views_push(
                self.events@,
                Event::Error(ParseError { message, location: ErrorPlacement::NextToken }),
            );
        }
        self.events.push(Event::Error(ParseError { message, location: ErrorPlacement::NextToken }));
        self.skip_until(stop);
        let done = self.close(mark, SyntaxKind::ERROR);
        proof {
            assert(self.trace() =~= old(self).trace() + recover_run(
                old(self).kinds(),
                old(self).left(),
                stop.kinds(),
                message@,
            ).events);
        }
        done
    }
}

} // verus!
