//! The token source: the cursor over the tokens, which passes over trivia.

use vstd::prelude::*;
use crate::lexer::Token;
use crate::syntax_kind::SyntaxKind;

verus! {

/// The kinds of the tokens, in order.
pub open spec fn kinds_of(tokens: Seq<Token>) -> Seq<SyntaxKind> {
    tokens.map_values(|t: Token| t.kind)
}

/// The first position from `pos` on that holds no trivia: that of the next
/// significant token, or the length of the input.
pub open spec fn skip_trivia(kinds: Seq<SyntaxKind>, pos: int) -> int
    decreases kinds.len() - pos,
{
    if 0 <= pos < kinds.len() && kinds[pos].spec_is_trivia() {
        skip_trivia(kinds, pos + 1)
    } else {
        pos
    }
}

/// The kind of the next significant token from `pos` on; `EOF` when there is none.
pub open spec fn kind_at(kinds: Seq<SyntaxKind>, pos: int) -> SyntaxKind {
    let p = skip_trivia(kinds, pos);
    if 0 <= p < kinds.len() {
        kinds[p]
    } else {
        SyntaxKind::EOF
    }
}

/// The position after the next significant token is consumed; at the end of
/// the input nothing is consumed.
pub open spec fn bumped(kinds: Seq<SyntaxKind>, pos: int) -> int {
    let p = skip_trivia(kinds, pos);
    if p < kinds.len() {
        p + 1
    } else {
        p
    }
}

/// How many tokens lie between the next significant token and the end. It is
/// zero exactly when only trivia is left.
pub open spec fn remaining(kinds: Seq<SyntaxKind>, pos: int) -> nat {
    (kinds.len() - skip_trivia(kinds, pos)) as nat
}

pub proof fn lemma_skip_trivia(kinds: Seq<SyntaxKind>, pos: int)
    requires
        0 <= pos <= kinds.len(),
    ensures
        pos <= skip_trivia(kinds, pos) <= kinds.len(),
        skip_trivia(kinds, pos) < kinds.len() ==> !kinds[skip_trivia(kinds, pos)].spec_is_trivia(),
        skip_trivia(kinds, skip_trivia(kinds, pos)) == skip_trivia(kinds, pos),
        forall|j: int| pos <= j < skip_trivia(kinds, pos) ==> (#[trigger] kinds[j]).spec_is_trivia(),
    decreases kinds.len() - pos,
{
    if pos < kinds.len() && kinds[pos].spec_is_trivia() {
        lemma_skip_trivia(kinds, pos + 1);
    }
}

/// Skipping trivia from anywhere inside a run of trivia ends at the same place.
pub proof fn lemma_skip_trivia_within(kinds: Seq<SyntaxKind>, pos: int, mid: int)
    requires
        0 <= pos <= mid <= skip_trivia(kinds, pos),
        pos <= kinds.len(),
    ensures
        skip_trivia(kinds, mid) == skip_trivia(kinds, pos),
    decreases mid - pos,
{
    lemma_skip_trivia(kinds, pos);
    if pos < mid {
        lemma_skip_trivia_within(kinds, pos + 1, mid);
    }
}

/// The tokens of the input and a cursor into them. Trivia is skipped whenever
/// the next token is looked at.
pub struct Source<'t> {
    tokens: &'t [Token],
    cursor: usize,
}

impl<'t> Source<'t> {
    /// The kinds of all tokens of the input.
    pub closed spec fn kinds(&self) -> Seq<SyntaxKind> {
        kinds_of(self.tokens@)
    }

    /// The number of tokens that lie before the cursor.
    pub closed spec fn pos(&self) -> int {
        self.cursor as int
    }

    pub closed spec fn wf(&self) -> bool {
        self.cursor <= self.tokens@.len()
    }

    pub proof fn lemma_wf(&self)
        requires
            self.wf(),
        ensures
            0 <= self.pos() <= self.kinds().len(),
    {
    }

    pub fn new(tokens: &'t [Token]) -> (s: Self)
        ensures
            s.wf(),
            s.kinds() == kinds_of(tokens@),
            s.pos() == 0,
    {
        Source { tokens, cursor: 0 }
    }

    /// The cursor: how many tokens have been passed.
    pub fn position(&self) -> (r: usize)
        ensures
            r == self.pos(),
    {
        self.cursor
    }

    fn eat_trivia(&mut self)
        requires
            old(self).wf(),
        ensures
            final(self).wf(),
            final(self).kinds() == old(self).kinds(),
            final(self).pos() == skip_trivia(old(self).kinds(), old(self).pos()),
    {
        let ghost start = self.cursor as int;
        proof {
            lemma_skip_trivia(self.kinds(), start);
        }
        while self.cursor < self.tokens.len() && self.tokens[self.cursor].kind.is_trivia()
            invariant
                self.wf(),
                self.tokens == old(self).tokens,
                start <= self.cursor <= skip_trivia(self.kinds(), start),
                start <= self.tokens@.len(),
            decreases self.tokens@.len() - self.cursor,
        {
            proof {
                lemma_skip_trivia_within(self.kinds(), start, self.cursor as int);
                lemma_skip_trivia(self.kinds(), self.cursor as int);
            }
            self.cursor = self.cursor + 1;
        }
        proof {
            lemma_skip_trivia_within(self.kinds(), start, self.cursor as int);
        }
    }

    /// The kind of the next significant token, `EOF` at the end of the input.
    /// The token is not consumed: asking again gives the same answer.
    pub fn current(&mut self) -> (kind: SyntaxKind)
        requires
            old(self).wf(),
        ensures
            final(self).wf(),
            final(self).kinds() == old(self).kinds(),
            final(self).pos() == skip_trivia(old(self).kinds(), old(self).pos()),
            kind == kind_at(old(self).kinds(), old(self).pos()),
            kind == kind_at(final(self).kinds(), final(self).pos()),
            remaining(old(self).kinds(), old(self).pos()) == 0 ==> kind == SyntaxKind::EOF,
            remaining(final(self).kinds(), final(self).pos()) == remaining(
                old(self).kinds(),
                old(self).pos(),
            ),
    {
        proof {
            lemma_skip_trivia(self.kinds(), self.pos());
        }
        self.eat_trivia();
        if self.cursor < self.tokens.len() {
            self.tokens[self.cursor].kind
        } else {
            SyntaxKind::EOF
        }
    }

    /// Consumes the tokens up to and including the next significant one. At
    /// the end of the input only the trailing trivia is passed.
    pub fn bump(&mut self)
        requires
            old(self).wf(),
        ensures
            final(self).wf(),
            final(self).kinds() == old(self).kinds(),
            final(self).pos() == bumped(old(self).kinds(), old(self).pos()),
            remaining(old(self).kinds(), old(self).pos()) > 0 ==> remaining(
                final(self).kinds(),
                final(self).pos(),
            ) < remaining(old(self).kinds(), old(self).pos()),
            remaining(final(self).kinds(), final(self).pos()) <= remaining(
                old(self).kinds(),
                old(self).pos(),
            ),
    {
        proof {
            lemma_skip_trivia(self.kinds(), self.pos());
        }
        self.eat_trivia();
        if self.cursor < self.tokens.len() {
            self.cursor = self.cursor + 1;
            proof {
                lemma_skip_trivia(self.kinds(), self.pos());
            }
        }
    }
}

} // verus!
