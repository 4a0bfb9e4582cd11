//! The syntax tree: nodes with their children, tokens with their texts.

use vstd::prelude::*;
use vstd::string::*;
use crate::lexer::{Token, tokens_text};
use crate::syntax_kind::SyntaxKind;

verus! {

/// A child of a node: a node or a token.
#[derive(Debug)]
pub enum SyntaxElement {
    Node(SyntaxNode),
    Token(Token),
}

/// A node of the syntax tree: its kind and its children, nodes and tokens, in
/// the order of the source text.
#[derive(Debug)]
pub struct SyntaxNode {
    pub kind: SyntaxKind,
    pub children: Vec<SyntaxElement>,
}

/// The tokens below an element, in the order of the source text.
pub open spec fn element_tokens(e: SyntaxElement) -> Seq<Token>
    decreases e, 0nat,
{
    match e {
        SyntaxElement::Token(t) => seq![t],
        SyntaxElement::Node(n) => elements_tokens(n.children@),
    }
}

/// The tokens below a sequence of elements.
pub open spec fn elements_tokens(s: Seq<SyntaxElement>) -> Seq<Token>
    decreases s, 1nat,
{
    if s.len() == 0 {
        Seq::empty()
    } else {
        elements_tokens(s.drop_last()) + element_tokens(s.last())
    }
}

pub proof fn lemma_tokens_text_concat(a: Seq<Token>, b: Seq<Token>)
    ensures
        tokens_text(a + b) == tokens_text(a) + tokens_text(b),
    decreases b.len(),
{
    if b.len() == 0 {
        assert(a + b =~= a);
    } else {
        lemma_tokens_text_concat(a, b.drop_last());
        assert((a + b).drop_last() =~= a + b.drop_last());
        assert((a + b).last() == b.last());
    }
}

impl SyntaxNode {
    /// The tokens of the tree, trivia included, in the order of the source text.
    pub open spec fn tokens(&self) -> Seq<Token> {
        elements_tokens(self.children@)
    }

    /// The text that the node covers: the texts of its tokens, joined.
    pub open spec fn text(&self) -> Seq<char> {
        tokens_text(self.tokens())
    }

    /// Appends the text that the node covers.
    pub fn push_text(&self, out: &mut String)
        ensures
            final(out)@ == old(out)@ + self.text(),
        decreases self,
    {
        let mut i: usize = 0;
        proof {
            assert(self.children@.take(0) =~= Seq::<SyntaxElement>::empty());
            assert(old(out)@ + Seq::<char>::empty() =~= old(out)@);
        }
        while i < self.children.len()
            invariant
                i <= self.children.len(),
                out@ == old(out)@ + tokens_text(elements_tokens(self.children@.take(i as int))),
            decreases self.children.len() - i,
        {
            let ghost before = elements_tokens(self.children@.take(i as int));
            proof {
                assert(self.children@.take(i + 1).drop_last() =~= self.children@.take(i as int));
                lemma_tokens_text_concat(before, element_tokens(self.children@[i as int]));
            }
            match &self.children[i] {
                SyntaxElement::Token(t) => {
                    out.append(t.text.as_str());
                    proof {
                        reveal_with_fuel(tokens_text, 2);
                        assert(seq![*t].drop_last() =~= Seq::<Token>::empty());
                        assert(tokens_text(seq![*t]) =~= t.text@);
                    }
                },
                SyntaxElement::Node(child) => {
                    child.push_text(out);
                },
            }
            proof {
                assert(out@ =~= old(out)@ + tokens_text(
                    elements_tokens(self.children@.take(i + 1)),
                ));
            }
            i = i + 1;
        }
        proof {
            assert(self.children@.take(i as int) =~= self.children@);
        }
    }

    /// The text that the node covers.
    pub fn to_text(&self) -> (text: String)
        ensures
            text@ == self.text(),
    {
        let mut out = String::new();
        self.push_text(&mut out);
        proof {
            assert(Seq::<char>::empty() + self.text() =~= self.text());
        }
        out
    }

    /// The kind of the node.
    pub fn kind(&self) -> (k: SyntaxKind)
        ensures
            k == self.kind,
    {
        self.kind
    }
}

} // verus!
