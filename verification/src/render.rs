//! The tree as text: one line for each node and token, with kind, range of
//! bytes and, for a token, its text.

use vstd::prelude::*;
use vstd::string::*;
use crate::lexer::{Token, tokens_text};
use crate::syntax_kind::SyntaxKind;
use crate::text::{byte_len, lemma_byte_len_concat, str_byte_len};
use crate::tree::{
    element_tokens, elements_tokens, lemma_tokens_text_concat, SyntaxElement, SyntaxNode,
};

verus! {

/// The text that `{:?}` gives for a string: the string in double quotes, with
/// the characters escaped that Rust escapes in a string literal.
pub uninterp spec fn quoted(text: Seq<char>) -> Seq<char>;

/// `<str as Debug>::fmt`, through `format!`: the result is the quoted form of
/// `text`, a function of `text` alone.
#[verifier::external_body]
fn debug_quoted(text: &str) -> (r: String)
    ensures
        r@ == quoted(text@),
{
    format!("{:?}", text)
}

/// The digit for `d`, which is below ten.
pub open spec fn digit(d: nat) -> char {
    if d == 0 {
        '0'
    } else if d == 1 {
        '1'
    } else if d == 2 {
        '2'
    } else if d == 3 {
        '3'
    } else if d == 4 {
        '4'
    } else if d == 5 {
        '5'
    } else if d == 6 {
        '6'
    } else if d == 7 {
        '7'
    } else if d == 8 {
        '8'
    } else {
        '9'
    }
}

/// `n` in decimal digits, without leading zeros.
pub open spec fn decimal(n: nat) -> Seq<char>
    decreases n,
{
    if n < 10 {
        seq![digit(n)]
    } else {
        decimal(n / 10).push(digit(n % 10))
    }
}

/// The first line of a node or a token: indentation, kind and range of bytes.
pub open spec fn heading(indent: Seq<char>, kind: SyntaxKind, start: nat, end: nat) -> Seq<char> {
    indent + kind.spec_name() + seq!['@'] + decimal(start) + seq!['.', '.'] + decimal(end)
}

/// The line of a token: its heading, a blank and its text in quotes.
pub open spec fn token_line(
    indent: Seq<char>,
    kind: SyntaxKind,
    start: nat,
    end: nat,
    quoted_text: Seq<char>,
) -> Seq<char> {
    heading(indent, kind, start, end) + seq![' '] + quoted_text + seq!['\n']
}

/// The number of bytes of the text of an element.
pub open spec fn element_len(e: SyntaxElement) -> nat {
    byte_len(tokens_text(element_tokens(e)))
}

/// The number of bytes of the text of a sequence of elements.
pub open spec fn elements_len(s: Seq<SyntaxElement>) -> nat {
    byte_len(tokens_text(elements_tokens(s)))
}

/// The lines of an element that starts at the byte `offset`: for a token its
/// line; for a node its heading, and the lines of its children, indented by
/// two blanks more.
pub open spec fn element_lines(e: SyntaxElement, indent: Seq<char>, offset: nat) -> Seq<char>
    decreases e, 0nat,
{
    match e {
        SyntaxElement::Token(t) => token_line(
            indent,
            t.kind,
            offset,
            offset + byte_len(t.text@),
            quoted(t.text@),
        ),
        SyntaxElement::Node(n) => heading(indent, n.kind, offset, offset + element_len(e))
            + seq!['\n'] + elements_lines(n.children@, indent + seq![' ', ' '], offset),
    }
}

/// The lines of a sequence of elements, the first of which starts at the byte
/// `offset`.
pub open spec fn elements_lines(s: Seq<SyntaxElement>, indent: Seq<char>, offset: nat) -> Seq<char>
    decreases s, 1nat,
{
    if s.len() == 0 {
        Seq::empty()
    } else {
        elements_lines(s.drop_last(), indent, offset) + element_lines(
            s.last(),
            indent,
            offset + elements_len(s.drop_last()),
        )
    }
}

/// The rendering of a tree: one line for each node and token, in the order of
/// the source text.
pub open spec fn tree_lines(root: SyntaxNode) -> Seq<char> {
    element_lines(SyntaxElement::Node(root), Seq::empty(), 0)
}

pub proof fn lemma_elements_len_step(s: Seq<SyntaxElement>, i: int)
    requires
        0 <= i < s.len(),
    ensures
        elements_len(s.take(i + 1)) == elements_len(s.take(i)) + element_len(s[i]),
        elements_len(s.take(0)) == 0,
        elements_len(s.take(i)) <= elements_len(s),
        elements_len(s.take(i + 1)) <= elements_len(s),
{
    assert(s.take(i + 1).drop_last() =~= s.take(i));
    lemma_tokens_text_concat(elements_tokens(s.take(i)), element_tokens(s[i]));
    lemma_byte_len_concat(
        tokens_text(elements_tokens(s.take(i))),
        tokens_text(element_tokens(s[i])),
    );
    assert(s.take(0) =~= Seq::<SyntaxElement>::empty());
    lemma_elements_len_prefix(s, i + 1);
}

pub proof fn lemma_elements_len_prefix(s: Seq<SyntaxElement>, i: int)
    requires
        0 <= i <= s.len(),
    ensures
        elements_len(s.take(i)) <= elements_len(s),
        i > 0 ==> elements_len(s.take(i - 1)) <= elements_len(s.take(i)),
    decreases s.len() - i,
{
    if i == s.len() {
        assert(s.take(i) =~= s);
    } else {
        lemma_elements_len_prefix(s, i + 1);
    }
    if i > 0 {
        assert(s.take(i).drop_last() =~= s.take(i - 1));
        lemma_tokens_text_concat(elements_tokens(s.take(i - 1)), element_tokens(s[i - 1]));
        lemma_byte_len_concat(
            tokens_text(elements_tokens(s.take(i - 1))),
            tokens_text(element_tokens(s[i - 1])),
        );
    }
}

pub proof fn lemma_token_len_pub(t: Token)
    ensures
        element_len(SyntaxElement::Token(t)) == byte_len(t.text@),
{
    lemma_token_len(t);
}

pub proof fn lemma_elements_len_empty(s: Seq<SyntaxElement>)
    requires
        s.len() == 0,
    ensures
        elements_len(s) == 0,
{
}

proof fn lemma_token_len(t: Token)
    ensures
        element_len(SyntaxElement::Token(t)) == byte_len(t.text@),
{
    reveal_with_fuel(tokens_text, 2);
    assert(seq![t].drop_last() =~= Seq::<Token>::empty());
    assert(Seq::<char>::empty() + t.text@ =~= t.text@);
}

/// The number of bytes of the text of `node`.
pub fn text_len(node: &SyntaxNode) -> (n: usize)
    requires
        element_len(SyntaxElement::Node(*node)) <= usize::MAX,
    ensures
        n == element_len(SyntaxElement::Node(*node)),
    decreases node,
{
    let mut total: usize = 0;
    let mut i: usize = 0;
    proof {
        lemma_elements_len_prefix(node.children@, 0);
        assert(node.children@.take(0) =~= Seq::<SyntaxElement>::empty());
    }
    while i < node.children.len()
        invariant
            i <= node.children.len(),
            total == elements_len(node.children@.take(i as int)),
            elements_len(node.children@) <= usize::MAX,
        decreases node.children.len() - i,
    {
        proof {
            lemma_elements_len_step(node.children@, i as int);
        }
        match &node.children[i] {
            SyntaxElement::Token(t) => {
                proof {
                    lemma_token_len(*t);
                }
                total = total + str_byte_len(t.text.as_str());
            },
            SyntaxElement::Node(child) => {
                total = total + text_len(child);
            },
        }
        i = i + 1;
    }
    proof {
        assert(node.children@.take(i as int) =~= node.children@);
    }
    total
}

fn digit_of(d: usize) -> (c: char)
    requires
        d < 10,
    ensures
        c == digit(d as nat),
{
    if d == 0 {
        '0'
    } else if d == 1 {
        '1'
    } else if d == 2 {
        '2'
    } else if d == 3 {
        '3'
    } else if d == 4 {
        '4'
    } else if d == 5 {
        '5'
    } else if d == 6 {
        '6'
    } else if d == 7 {
        '7'
    } else if d == 8 {
        '8'
    } else {
        '9'
    }
}

/// Appends `n` in decimal digits.
pub fn push_decimal(out: &mut String, n: usize)
    ensures
        final(out)@ == old(out)@ + decimal(n as nat),
    decreases n,
{
    if n >= 10 {
        push_decimal(out, n / 10);
    }
    out.push(digit_of(n % 10));
    proof {
        if n >= 10 {
            assert(final(out)@ =~= old(out)@ + decimal(n as nat));
        } else {
            assert(old(out)@.push(digit(n as nat)) =~= old(out)@ + decimal(n as nat));
        }
    }
}

/// Appends the heading of a node or a token.
pub fn push_heading(out: &mut String, indent: &str, kind: SyntaxKind, start: usize, end: usize)
    ensures
        final(out)@ == old(out)@ + heading(indent@, kind, start as nat, end as nat),
{
    out.append(indent);
    out.append(kind.name());
    out.push('@');
    push_decimal(out, start);
    out.push('.');
    out.push('.');
    push_decimal(out, end);
    proof {
        assert(final(out)@ =~= old(out)@ + heading(indent@, kind, start as nat, end as nat));
    }
}

/// Appends the line of a token whose text in quotes is `quoted_text`.
pub fn push_token_line(
    out: &mut String,
    indent: &str,
    kind: SyntaxKind,
    start: usize,
    end: usize,
    quoted_text: &str,
)
    ensures
        final(out)@ == old(out)@ + token_line(
            indent@,
            kind,
            start as nat,
            end as nat,
            quoted_text@,
        ),
{
    push_heading(out, indent, kind, start, end);
    out.push(' ');
    out.append(quoted_text);
    out.push('\n');
    proof {
        assert(final(out)@ =~= old(out)@ + token_line(
            indent@,
            kind,
            start as nat,
            end as nat,
            quoted_text@,
        ));
    }
}

/// Appends the lines of `node`, which starts at the byte `offset`.
pub fn render_node(out: &mut String, node: &SyntaxNode, indent: &str, offset: usize)
    requires
        offset + element_len(SyntaxElement::Node(*node)) <= usize::MAX,
    ensures
        final(out)@ == old(out)@ + element_lines(
            SyntaxElement::Node(*node),
            indent@,
            offset as nat,
        ),
    decreases node,
{
    let len = text_len(node);
    push_heading(out, indent, node.kind, offset, offset + len);
    out.push('\n');
    let mut deeper = String::from_str(indent);
    deeper.push(' ');
    deeper.push(' ');
    proof {
        assert(deeper@ =~= indent@ + seq![' ', ' ']);
    }
    let ghost head = out@;
    let mut at = offset;
    let mut i: usize = 0;
    proof {
        lemma_elements_len_prefix(node.children@, 0);
        assert(node.children@.take(0) =~= Seq::<SyntaxElement>::empty());
        assert(head + Seq::<char>::empty() =~= head);
    }
    while i < node.children.len()
        invariant
            i <= node.children.len(),
            at == offset + elements_len(node.children@.take(i as int)),
            offset + elements_len(node.children@) <= usize::MAX,
            out@ == head + elements_lines(node.children@.take(i as int), deeper@, offset as nat),
        decreases node.children.len() - i,
    {
        proof {
            lemma_elements_len_step(node.children@, i as int);
            assert(node.children@.take(i + 1).drop_last() =~= node.children@.take(i as int));
        }
        let ghost before = out@;
        match &node.children[i] {
            SyntaxElement::Token(t) => {
                proof {
                    lemma_token_len(*t);
                }
                let text = debug_quoted(t.text.as_str());
                let end = at + str_byte_len(t.text.as_str());
                push_token_line(out, deeper.as_str(), t.kind, at, end, text.as_str());
                at = end;
            },
            SyntaxElement::Node(child) => {
                render_node(out, child, deeper.as_str(), at);
                at = at + text_len(child);
            },
        }
        proof {
            let prefix = node.children@.take(i as int);
            let next = node.children@.take(i + 1);
            assert(next.last() == node.children@[i as int]);
            assert(next.drop_last() =~= prefix);
            assert(elements_lines(next, deeper@, offset as nat) == elements_lines(
                prefix,
                deeper@,
                offset as nat,
            ) + element_lines(
                node.children@[i as int],
                deeper@,
                offset as nat + elements_len(prefix),
            ));
            assert(out@ == before + element_lines(
                node.children@[i as int],
                deeper@,
                offset as nat + elements_len(prefix),
            ));
            assert(out@ =~= head + elements_lines(next, deeper@, offset as nat));
        }
        i = i + 1;
    }
    proof {
        assert(node.children@.take(i as int) =~= node.children@);
        assert(final(out)@ =~= old(out)@ + element_lines(
            SyntaxElement::Node(*node),
            indent@,
            offset as nat,
        ));
    }
}

} // verus!
