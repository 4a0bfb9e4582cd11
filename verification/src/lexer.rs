//! The lexer: a text is cut into tokens from left to right, each as long as
//! it can be; the texts of the tokens make up the text.

use vstd::prelude::*;
use crate::syntax_kind::SyntaxKind;

verus! {

/// `String::push`: the string afterwards is the string before with `ch` appended.
pub assume_specification[ String::push ](s: &mut String, ch: char)
    ensures
        final(s)@ == old(s)@.push(ch),
;

/// One token of the input: its kind and the text it covers.
#[derive(Debug)]
pub struct Token {
    pub kind: SyntaxKind,
    pub text: String,
}

pub open spec fn is_space(c: char) -> bool {
    c == ' ' || c == '\t' || c == '\n' || c == '\r'
}

pub open spec fn is_digit(c: char) -> bool {
    '0' <= c && c <= '9'
}

pub open spec fn is_ident_start(c: char) -> bool {
    ('a' <= c && c <= 'z') || ('A' <= c && c <= 'Z') || c == '_'
}

pub open spec fn is_ident_part(c: char) -> bool {
    is_ident_start(c) || is_digit(c)
}

/// The kind of a word: one of the four keywords, or an identifier.
pub open spec fn word_kind(text: Seq<char>) -> SyntaxKind {
    if text =~= seq!['d', 'e', 'f'] {
        SyntaxKind::DEF_KW
    } else if text =~= seq!['t', 'y', 'p', 'e'] {
        SyntaxKind::TYPE_KW
    } else if text =~= seq!['o', 'p', 'e', 'n'] {
        SyntaxKind::OPEN_KW
    } else if text =~= seq!['l', 'e', 't'] {
        SyntaxKind::LET_KW
    } else {
        SyntaxKind::IDENT
    }
}

/// The kind of a token that is a single character.
pub open spec fn symbol_kind(c: char) -> SyntaxKind {
    if c == '(' {
        SyntaxKind::L_PAREN
    } else if c == ')' {
        SyntaxKind::R_PAREN
    } else if c == '{' {
        SyntaxKind::L_BRACE
    } else if c == '}' {
        SyntaxKind::R_BRACE
    } else if c == ':' {
        SyntaxKind::COLON
    } else if c == ';' {
        SyntaxKind::SEMICOLON
    } else if c == '=' {
        SyntaxKind::EQUAL
    } else if c == '\\' {
        SyntaxKind::BACKSLASH
    } else if c == '+' {
        SyntaxKind::PLUS
    } else if c == '-' {
        SyntaxKind::MINUS
    } else if c == '*' {
        SyntaxKind::STAR
    } else if c == '/' {
        SyntaxKind::SLASH
    } else {
        SyntaxKind::ERROR
    }
}

/// The kind that the text of a token determines, by its first character.
pub open spec fn token_kind(text: Seq<char>) -> SyntaxKind
    recommends
        text.len() > 0,
{
    let c = text[0];
    if is_space(c) {
        SyntaxKind::WHITESPACE
    } else if c == '#' {
        SyntaxKind::COMMENT
    } else if is_ident_start(c) {
        word_kind(text)
    } else if is_digit(c) {
        SyntaxKind::INT
    } else if text =~= seq!['-', '>'] {
        SyntaxKind::ARROW
    } else {
        symbol_kind(c)
    }
}

/// Whether every character of `text` may stand in a token that starts with `text[0]`.
pub open spec fn token_shape(text: Seq<char>) -> bool
    recommends
        text.len() > 0,
{
    let c = text[0];
    if is_space(c) {
        forall|i: int| 0 <= i < text.len() ==> is_space(#[trigger] text[i])
    } else if c == '#' {
        forall|i: int| 0 <= i < text.len() ==> #[trigger] text[i] != '\n'
    } else if is_ident_start(c) {
        forall|i: int| 0 <= i < text.len() ==> is_ident_part(#[trigger] text[i])
    } else if is_digit(c) {
        forall|i: int| 0 <= i < text.len() ==> is_digit(#[trigger] text[i])
    } else {
        text.len() == 1 || text =~= seq!['-', '>']
    }
}

/// A token as a plain value: its kind and the characters of its text.
pub struct TokenView {
    pub kind: SyntaxKind,
    pub text: Seq<char>,
}

pub open spec fn token_view(t: Token) -> TokenView {
    TokenView { kind: t.kind, text: t.text@ }
}

pub open spec fn token_views(tokens: Seq<Token>) -> Seq<TokenView> {
    tokens.map_values(|t: Token| token_view(t))
}

/// Whether `c` continues a token that starts with `first`: whitespace goes on
/// with whitespace, a comment up to the end of the line, a word with letters,
/// digits and `_`, a number with digits. Nothing continues another token.
pub open spec fn continues(first: char, c: char) -> bool {
    if is_space(first) {
        is_space(c)
    } else if first == '#' {
        c != '\n'
    } else if is_ident_start(first) {
        is_ident_part(c)
    } else if is_digit(first) {
        is_digit(c)
    } else {
        false
    }
}

/// The first position from `from` on whose character does not continue a
/// token that starts with `first`; the length of the text when all do.
pub open spec fn run_end(chars: Seq<char>, first: char, from: int) -> int
    decreases chars.len() - from,
{
    if 0 <= from < chars.len() && continues(first, chars[from]) {
        run_end(chars, first, from + 1)
    } else {
        from
    }
}

/// Where the token that starts at `start` ends: it is as long as it can be.
/// `->` is one token; any other token goes on as long as its characters
/// continue it.
pub open spec fn token_end(chars: Seq<char>, start: int) -> int {
    if chars[start] == '-' && start + 1 < chars.len() && chars[start + 1] == '>' {
        start + 2
    } else {
        run_end(chars, chars[start], start + 1)
    }
}

pub proof fn lemma_run_end(chars: Seq<char>, first: char, from: int)
    requires
        0 <= from <= chars.len(),
    ensures
        from <= run_end(chars, first, from) <= chars.len(),
        forall|j: int| from <= j < run_end(chars, first, from) ==> continues(first, #[trigger] chars[j]),
        run_end(chars, first, from) < chars.len() ==> !continues(
            first,
            chars[run_end(chars, first, from)],
        ),
    decreases chars.len() - from,
{
    if from < chars.len() && continues(first, chars[from]) {
        lemma_run_end(chars, first, from + 1);
    }
}

/// The tokens of the text from `start` on.
pub open spec fn lex_from(chars: Seq<char>, start: int) -> Seq<TokenView>
    decreases chars.len() - start,
{
    if 0 <= start < chars.len() {
        let end = token_end(chars, start);
        if start < end <= chars.len() {
            seq![
                TokenView {
                    kind: token_kind(chars.subrange(start, end)),
                    text: chars.subrange(start, end),
                },
            ] + lex_from(chars, end)
        } else {
            Seq::empty()
        }
    } else {
        Seq::empty()
    }
}

/// The tokens of a text: from its start on, each token as long as it can be.
pub open spec fn lex_spec(text: Seq<char>) -> Seq<TokenView> {
    lex_from(text, 0)
}

/// The texts of the tokens, one after the other.
pub open spec fn tokens_text(tokens: Seq<Token>) -> Seq<char>
    decreases tokens.len(),
{
    if tokens.len() == 0 {
        Seq::empty()
    } else {
        tokens_text(tokens.drop_last()) + tokens.last().text@
    }
}

/// What holds of the token sequence of any input: no token is empty or has the
/// kind `EOF`, and each has the kind and the shape that its text determines.
pub open spec fn well_lexed(tokens: Seq<Token>) -> bool {
    forall|i: int|
        0 <= i < tokens.len() ==> {
            &&& (#[trigger] tokens[i]).text@.len() > 0
            &&& tokens[i].kind == token_kind(tokens[i].text@)
            &&& tokens[i].kind != SyntaxKind::EOF
            &&& token_shape(tokens[i].text@)
        }
}

/// Appending a token appends its text.
pub proof fn lemma_tokens_text_push(tokens: Seq<Token>, t: Token)
    ensures
        tokens_text(tokens.push(t)) == tokens_text(tokens) + t.text@,
{
    assert(tokens.push(t).drop_last() =~= tokens);
}

/// The characters of `s`, in order.
pub fn to_chars(s: &str) -> (v: Vec<char>)
    ensures
        v@ == s@,
{
    let mut v: Vec<char> = Vec::new();
    for c in it: s.chars()
        invariant
            v@ == it.seq().take(it.index() as int),
            it.seq() == s@,
    {
        v.push(c);
    }
    v
}

/// The characters `chars[start..end]` as a string.
pub fn slice_to_string(chars: &Vec<char>, start: usize, end: usize) -> (s: String)
    requires
        start <= end <= chars.len(),
    ensures
        s@ == chars@.subrange(start as int, end as int),
{
    let mut s = String::new();
    let mut i: usize = start;
    while i < end
        invariant
            start <= i <= end <= chars.len(),
            s@ == chars@.subrange(start as int, i as int),
        decreases end - i,
    {
        s.push(chars[i]);
        proof {
            assert(chars@.subrange(start as int, i + 1) =~= chars@.subrange(
                start as int,
                i as int,
            ).push(chars@[i as int]));
        }
        i = i + 1;
    }
    s
}

fn char_is_space(c: char) -> (r: bool)
    ensures
        r == is_space(c),
{
    c == ' ' || c == '\t' || c == '\n' || c == '\r'
}

fn char_is_digit(c: char) -> (r: bool)
    ensures
        r == is_digit(c),
{
    '0' <= c && c <= '9'
}

fn char_is_ident_start(c: char) -> (r: bool)
    ensures
        r == is_ident_start(c),
{
    ('a' <= c && c <= 'z') || ('A' <= c && c <= 'Z') || c == '_'
}

fn char_is_ident_part(c: char) -> (r: bool)
    ensures
        r == is_ident_part(c),
{
    char_is_ident_start(c) || char_is_digit(c)
}

fn symbol(c: char) -> (r: SyntaxKind)
    ensures
        r == symbol_kind(c),
{
    if c == '(' {
        SyntaxKind::L_PAREN
    } else if c == ')' {
        SyntaxKind::R_PAREN
    } else if c == '{' {
        SyntaxKind::L_BRACE
    } else if c == '}' {
        SyntaxKind::R_BRACE
    } else if c == ':' {
        SyntaxKind::COLON
    } else if c == ';' {
        SyntaxKind::SEMICOLON
    } else if c == '=' {
        SyntaxKind::EQUAL
    } else if c == '\\' {
        SyntaxKind::BACKSLASH
    } else if c == '+' {
        SyntaxKind::PLUS
    } else if c == '-' {
        SyntaxKind::MINUS
    } else if c == '*' {
        SyntaxKind::STAR
    } else if c == '/' {
        SyntaxKind::SLASH
    } else {
        SyntaxKind::ERROR
    }
}

fn word(chars: &Vec<char>, start: usize, end: usize) -> (r: SyntaxKind)
    requires
        start < end <= chars.len(),
    ensures
        r == word_kind(chars@.subrange(start as int, end as int)),
{
    let ghost text = chars@.subrange(start as int, end as int);
    let n = end - start;
    let c0 = chars[start];
    proof {
        assert(text[0] == chars@[start as int]);
        if n >= 3 {
            assert(text[1] == chars@[start + 1]);
            assert(text[2] == chars@[start + 2]);
        }
        if n >= 4 {
            assert(text[3] == chars@[start + 3]);
        }
        assert(seq!['d', 'e', 'f'].len() == 3 && seq!['l', 'e', 't'].len() == 3);
        assert(seq!['t', 'y', 'p', 'e'].len() == 4 && seq!['o', 'p', 'e', 'n'].len() == 4);
    }
    if n == 3 && c0 == 'd' && chars[start + 1] == 'e' && chars[start + 2] == 'f' {
        SyntaxKind::DEF_KW
    } else if n == 4 && c0 == 't' && chars[start + 1] == 'y' && chars[start + 2] == 'p' && chars[start
        + 3] == 'e' {
        SyntaxKind::TYPE_KW
    } else if n == 4 && c0 == 'o' && chars[start + 1] == 'p' && chars[start + 2] == 'e' && chars[start
        + 3] == 'n' {
        SyntaxKind::OPEN_KW
    } else if n == 3 && c0 == 'l' && chars[start + 1] == 'e' && chars[start + 2] == 't' {
        SyntaxKind::LET_KW
    } else {
        proof {
            if text =~= seq!['d', 'e', 'f'] {
                assert(seq!['d', 'e', 'f'][0] == 'd');
                assert(seq!['d', 'e', 'f'][1] == 'e');
                assert(seq!['d', 'e', 'f'][2] == 'f');
            }
            if text =~= seq!['l', 'e', 't'] {
                assert(seq!['l', 'e', 't'][0] == 'l');
                assert(seq!['l', 'e', 't'][1] == 'e');
                assert(seq!['l', 'e', 't'][2] == 't');
            }
            if text =~= seq!['t', 'y', 'p', 'e'] {
                assert(seq!['t', 'y', 'p', 'e'][0] == 't');
                assert(seq!['t', 'y', 'p', 'e'][1] == 'y');
                assert(seq!['t', 'y', 'p', 'e'][2] == 'p');
                assert(seq!['t', 'y', 'p', 'e'][3] == 'e');
            }
            if text =~= seq!['o', 'p', 'e', 'n'] {
                assert(seq!['o', 'p', 'e', 'n'][0] == 'o');
                assert(seq!['o', 'p', 'e', 'n'][1] == 'p');
                assert(seq!['o', 'p', 'e', 'n'][2] == 'e');
                assert(seq!['o', 'p', 'e', 'n'][3] == 'n');
            }
        }
        SyntaxKind::IDENT
    }
}

/// The end of the token that starts at `start`, and its kind.
fn scan(chars: &Vec<char>, start: usize) -> (r: (usize, SyntaxKind))
    requires
        start < chars.len(),
    ensures
        start < r.0 <= chars.len(),
        r.0 == token_end(chars@, start as int),
        r.1 == token_kind(chars@.subrange(start as int, r.0 as int)),
        r.1 != SyntaxKind::EOF,
        token_shape(chars@.subrange(start as int, r.0 as int)),
{
    let c = chars[start];
    let mut i: usize = start + 1;
    proof {
        lemma_run_end(chars@, c, start + 1);
    }
    if char_is_space(c) {
        while i < chars.len() && char_is_space(chars[i])
            invariant
                start < i <= chars.len(),
                is_space(c),
                forall|j: int| start <= j < i ==> is_space(#[trigger] chars@[j]),
                run_end(chars@, c, i as int) == run_end(chars@, c, start + 1),
            decreases chars.len() - i,
        {
            i = i + 1;
        }
        (i, SyntaxKind::WHITESPACE)
    } else if c == '#' {
        while i < chars.len() && chars[i] != '\n'
            invariant
                start < i <= chars.len(),
                !is_space(c),
                c == '#',
                forall|j: int| start <= j < i ==> #[trigger] chars@[j] != '\n',
                run_end(chars@, c, i as int) == run_end(chars@, c, start + 1),
            decreases chars.len() - i,
        {
            i = i + 1;
        }
        (i, SyntaxKind::COMMENT)
    } else if char_is_ident_start(c) {
        while i < chars.len() && char_is_ident_part(chars[i])
            invariant
                start < i <= chars.len(),
                !is_space(c),
                c != '#',
                is_ident_start(c),
                forall|j: int| start <= j < i ==> is_ident_part(#[trigger] chars@[j]),
                run_end(chars@, c, i as int) == run_end(chars@, c, start + 1),
            decreases chars.len() - i,
        {
            i = i + 1;
        }
        (i, word(chars, start, i))
    } else if char_is_digit(c) {
        while i < chars.len() && char_is_digit(chars[i])
            invariant
                start < i <= chars.len(),
                !is_space(c),
                c != '#',
                !is_ident_start(c),
                is_digit(c),
                forall|j: int| start <= j < i ==> is_digit(#[trigger] chars@[j]),
                run_end(chars@, c, i as int) == run_end(chars@, c, start + 1),
            decreases chars.len() - i,
        {
            i = i + 1;
        }
        (i, SyntaxKind::INT)
    } else if c == '-' && i < chars.len() && chars[i] == '>' {
        proof {
            assert(chars@.subrange(start as int, start + 2) =~= seq!['-', '>']);
        }
        (start + 2, SyntaxKind::ARROW)
    } else {
        proof {
            let text = chars@.subrange(start as int, start + 1);
            assert(text.len() == 1);
            assert(seq!['-', '>'].len() == 2);
        }
        (i, symbol(c))
    }
}

/// Splits the input into tokens, whitespace and comments included.
///
/// Nothing of the input is lost: the texts of the tokens, joined, are the
/// input. Each token has the kind its text determines.
pub fn lex(input: &str) -> (tokens: Vec<Token>)
    ensures
        token_views(tokens@) == lex_spec(input@),
        tokens_text(tokens@) == input@,
        well_lexed(tokens@),
{
    let chars = to_chars(input);
    let mut tokens: Vec<Token> = Vec::new();
    let mut i: usize = 0;
    proof {
        assert(Seq::<TokenView>::empty() + lex_from(chars@, 0) =~= lex_from(chars@, 0));
        assert(token_views(tokens@) =~= Seq::<TokenView>::empty());
    }
    while i < chars.len()
        invariant
            i <= chars.len(),
            tokens_text(tokens@) == chars@.take(i as int),
            well_lexed(tokens@),
            token_views(tokens@) + lex_from(chars@, i as int) == lex_from(chars@, 0),
        decreases chars.len() - i,
    {
        let (end, kind) = scan(&chars, i);
        let text = slice_to_string(&chars, i, end);
        let token = Token { kind, text };
        proof {
            assert(token_views(tokens@.push(token)) =~= token_views(tokens@).push(
                token_view(token),
            ));
            assert(token_views(tokens@).push(token_view(token)) + lex_from(chars@, end as int)
                =~= token_views(tokens@) + (seq![token_view(token)] + lex_from(
                chars@,
                end as int,
            )));
            lemma_tokens_text_push(tokens@, token);
            assert(chars@.take(end as int) =~= chars@.take(i as int) + chars@.subrange(
                i as int,
                end as int,
            ));
        }
        tokens.push(token);
        i = end;
    }
    proof {
        assert(chars@.take(i as int) =~= chars@);
        assert(token_views(tokens@) + Seq::<TokenView>::empty() =~= token_views(tokens@));
    }
    tokens
}

} // verus!
