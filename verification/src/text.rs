//! Lengths and offsets of texts in bytes of UTF-8.

use vstd::prelude::*;
use vstd::string::*;
use vstd::utf8::encode_utf8;
use crate::lexer::{Token, tokens_text};

verus! {

/// The number of bytes that `text` takes in UTF-8.
pub open spec fn byte_len(text: Seq<char>) -> nat {
    encode_utf8(text).len()
}

/// The encoding of a concatenation is the concatenation of the encodings.
pub proof fn lemma_encode_concat(a: Seq<char>, b: Seq<char>)
    ensures
        encode_utf8(a + b) == encode_utf8(a) + encode_utf8(b),
    decreases a.len(),
{
    if a.len() == 0 {
        assert(a + b =~= b);
        assert(encode_utf8(a) + encode_utf8(b) =~= encode_utf8(b));
    } else {
        lemma_encode_concat(a.drop_first(), b);
        assert((a + b).drop_first() =~= a.drop_first() + b);
        assert((a + b)[0] == a[0]);
        assert(encode_utf8(a + b) =~= encode_utf8(a) + encode_utf8(b));
    }
}

pub proof fn lemma_byte_len_concat(a: Seq<char>, b: Seq<char>)
    ensures
        byte_len(a + b) == byte_len(a) + byte_len(b),
{
    lemma_encode_concat(a, b);
}

/// The byte offset at which the token `index` starts: the length of the text
/// of the tokens before it.
pub open spec fn offset_of(tokens: Seq<Token>, index: int) -> nat {
    byte_len(tokens_text(tokens.take(index)))
}

pub proof fn lemma_offset_step(tokens: Seq<Token>, index: int)
    requires
        0 <= index < tokens.len(),
    ensures
        offset_of(tokens, index + 1) == offset_of(tokens, index) + byte_len(tokens[index].text@),
        offset_of(tokens, 0) == 0,
{
    assert(tokens.take(index + 1).drop_last() =~= tokens.take(index));
    lemma_byte_len_concat(tokens_text(tokens.take(index)), tokens[index].text@);
    assert(tokens.take(0) =~= Seq::<Token>::empty());
}

pub proof fn lemma_offset_monotone(tokens: Seq<Token>, i: int, j: int)
    requires
        0 <= i <= j <= tokens.len(),
    ensures
        offset_of(tokens, i) <= offset_of(tokens, j),
        offset_of(tokens, tokens.len() as int) == byte_len(tokens_text(tokens)),
    decreases j - i,
{
    assert(tokens.take(tokens.len() as int) =~= tokens);
    if i < j {
        lemma_offset_step(tokens, j - 1);
        lemma_offset_monotone(tokens, i, j - 1);
    }
}

/// The number of bytes of `s`.
pub fn str_byte_len(s: &str) -> (n: usize)
    ensures
        n == byte_len(s@),
{
    s.as_bytes().len()
}

} // verus!
