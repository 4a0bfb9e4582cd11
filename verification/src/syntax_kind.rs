//! The kinds of tokens and nodes.

use vstd::prelude::*;

verus! {

/// The kind of a token or of a node of the syntax tree.
///
/// The kinds up to `EOF` are token kinds, the others are node kinds.
#[allow(non_camel_case_types)]
#[derive(Clone, Copy, Debug, PartialEq, Eq, PartialOrd, Ord, Hash, Structural)]
pub enum SyntaxKind {
    /// A run of blanks, tabs and line breaks.
    WHITESPACE,
    /// A `#` comment, up to the end of its line.
    COMMENT,
    DEF_KW,
    TYPE_KW,
    OPEN_KW,
    LET_KW,
    IDENT,
    INT,
    L_PAREN,
    R_PAREN,
    L_BRACE,
    R_BRACE,
    COLON,
    SEMICOLON,
    EQUAL,
    ARROW,
    BACKSLASH,
    PLUS,
    MINUS,
    STAR,
    SLASH,
    /// A character no token starts with; also the kind of the node that stands where a rule failed.
    ERROR,
    /// The end of the input. No token of the input has this kind.
    EOF,
    /// The root of a parsed file.
    MODULE,
    DEFINITION,
    OPEN,
    TYPE_DEFINITION,
    PARAMS,
    PARAM,
    DEF_BODY,
    TYPE_ANNOTATION,
    TYPE_IDENT,
    TYPE_ARROW,
    TYPE_PAREN,
    IDENT_EXPR,
    LITERAL_EXPR,
    PAREN_EXPR,
    APP_EXPR,
    LAMBDA_EXPR,
    BLOCK_EXPR,
    BINARY_EXPR,
    EXPR_STMT,
    LET_STMT,
}

impl SyntaxKind {
    /// The position of the kind in the enumeration; distinct kinds have distinct indices.
    pub open spec fn spec_index(self) -> nat {
        match self {
            SyntaxKind::WHITESPACE => 0,
            SyntaxKind::COMMENT => 1,
            SyntaxKind::DEF_KW => 2,
            SyntaxKind::TYPE_KW => 3,
            SyntaxKind::OPEN_KW => 4,
            SyntaxKind::LET_KW => 5,
            SyntaxKind::IDENT => 6,
            SyntaxKind::INT => 7,
            SyntaxKind::L_PAREN => 8,
            SyntaxKind::R_PAREN => 9,
            SyntaxKind::L_BRACE => 10,
            SyntaxKind::R_BRACE => 11,
            SyntaxKind::COLON => 12,
            SyntaxKind::SEMICOLON => 13,
            SyntaxKind::EQUAL => 14,
            SyntaxKind::ARROW => 15,
            SyntaxKind::BACKSLASH => 16,
            SyntaxKind::PLUS => 17,
            SyntaxKind::MINUS => 18,
            SyntaxKind::STAR => 19,
            SyntaxKind::SLASH => 20,
            SyntaxKind::ERROR => 21,
            SyntaxKind::EOF => 22,
            SyntaxKind::MODULE => 23,
            SyntaxKind::DEFINITION => 24,
            SyntaxKind::OPEN => 25,
            SyntaxKind::TYPE_DEFINITION => 26,
            SyntaxKind::PARAMS => 27,
            SyntaxKind::PARAM => 28,
            SyntaxKind::DEF_BODY => 29,
            SyntaxKind::TYPE_ANNOTATION => 30,
            SyntaxKind::TYPE_IDENT => 31,
            SyntaxKind::TYPE_ARROW => 32,
            SyntaxKind::TYPE_PAREN => 33,
            SyntaxKind::IDENT_EXPR => 34,
            SyntaxKind::LITERAL_EXPR => 35,
            SyntaxKind::PAREN_EXPR => 36,
            SyntaxKind::APP_EXPR => 37,
            SyntaxKind::LAMBDA_EXPR => 38,
            SyntaxKind::BLOCK_EXPR => 39,
            SyntaxKind::BINARY_EXPR => 40,
            SyntaxKind::EXPR_STMT => 41,
            SyntaxKind::LET_STMT => 42,
        }
    }

    /// The upper-case name under which the kind appears in rendered trees and in messages.
    pub open spec fn spec_name(self) -> Seq<char> {
        match self {
            SyntaxKind::WHITESPACE => "WHITESPACE"@,
            SyntaxKind::COMMENT => "COMMENT"@,
            SyntaxKind::DEF_KW => "DEF_KW"@,
            SyntaxKind::TYPE_KW => "TYPE_KW"@,
            SyntaxKind::OPEN_KW => "OPEN_KW"@,
            SyntaxKind::LET_KW => "LET_KW"@,
            SyntaxKind::IDENT => "IDENT"@,
            SyntaxKind::INT => "INT"@,
            SyntaxKind::L_PAREN => "L_PAREN"@,
            SyntaxKind::R_PAREN => "R_PAREN"@,
            SyntaxKind::L_BRACE => "L_BRACE"@,
            SyntaxKind::R_BRACE => "R_BRACE"@,
            SyntaxKind::COLON => "COLON"@,
            SyntaxKind::SEMICOLON => "SEMICOLON"@,
            SyntaxKind::EQUAL => "EQUAL"@,
            SyntaxKind::ARROW => "ARROW"@,
            SyntaxKind::BACKSLASH => "BACKSLASH"@,
            SyntaxKind::PLUS => "PLUS"@,
            SyntaxKind::MINUS => "MINUS"@,
            SyntaxKind::STAR => "STAR"@,
            SyntaxKind::SLASH => "SLASH"@,
            SyntaxKind::ERROR => "ERROR"@,
            SyntaxKind::EOF => "EOF"@,
            SyntaxKind::MODULE => "MODULE"@,
            SyntaxKind::DEFINITION => "DEFINITION"@,
            SyntaxKind::OPEN => "OPEN"@,
            SyntaxKind::TYPE_DEFINITION => "TYPE_DEFINITION"@,
            SyntaxKind::PARAMS => "PARAMS"@,
            SyntaxKind::PARAM => "PARAM"@,
            SyntaxKind::DEF_BODY => "DEF_BODY"@,
            SyntaxKind::TYPE_ANNOTATION => "TYPE_ANNOTATION"@,
            SyntaxKind::TYPE_IDENT => "TYPE_IDENT"@,
            SyntaxKind::TYPE_ARROW => "TYPE_ARROW"@,
            SyntaxKind::TYPE_PAREN => "TYPE_PAREN"@,
            SyntaxKind::IDENT_EXPR => "IDENT_EXPR"@,
            SyntaxKind::LITERAL_EXPR => "LITERAL_EXPR"@,
            SyntaxKind::PAREN_EXPR => "PAREN_EXPR"@,
            SyntaxKind::APP_EXPR => "APP_EXPR"@,
            SyntaxKind::LAMBDA_EXPR => "LAMBDA_EXPR"@,
            SyntaxKind::BLOCK_EXPR => "BLOCK_EXPR"@,
            SyntaxKind::BINARY_EXPR => "BINARY_EXPR"@,
            SyntaxKind::EXPR_STMT => "EXPR_STMT"@,
            SyntaxKind::LET_STMT => "LET_STMT"@,
        }
    }

    /// Whitespace and comments: kept in the tree, skipped by the grammar.
    pub open spec fn spec_is_trivia(self) -> bool {
        self == SyntaxKind::WHITESPACE || self == SyntaxKind::COMMENT
    }

    /// The position of the kind in the enumeration.
    pub fn index(self) -> (r: u16)
        ensures
            r == self.spec_index(),
            r < 43,
    {
        match self {
            SyntaxKind::WHITESPACE => 0,
            SyntaxKind::COMMENT => 1,
            SyntaxKind::DEF_KW => 2,
            SyntaxKind::TYPE_KW => 3,
            SyntaxKind::OPEN_KW => 4,
            SyntaxKind::LET_KW => 5,
            SyntaxKind::IDENT => 6,
            SyntaxKind::INT => 7,
            SyntaxKind::L_PAREN => 8,
            SyntaxKind::R_PAREN => 9,
            SyntaxKind::L_BRACE => 10,
            SyntaxKind::R_BRACE => 11,
            SyntaxKind::COLON => 12,
            SyntaxKind::SEMICOLON => 13,
            SyntaxKind::EQUAL => 14,
            SyntaxKind::ARROW => 15,
            SyntaxKind::BACKSLASH => 16,
            SyntaxKind::PLUS => 17,
            SyntaxKind::MINUS => 18,
            SyntaxKind::STAR => 19,
            SyntaxKind::SLASH => 20,
            SyntaxKind::ERROR => 21,
            SyntaxKind::EOF => 22,
            SyntaxKind::MODULE => 23,
            SyntaxKind::DEFINITION => 24,
            SyntaxKind::OPEN => 25,
            SyntaxKind::TYPE_DEFINITION => 26,
            SyntaxKind::PARAMS => 27,
            SyntaxKind::PARAM => 28,
            SyntaxKind::DEF_BODY => 29,
            SyntaxKind::TYPE_ANNOTATION => 30,
            SyntaxKind::TYPE_IDENT => 31,
            SyntaxKind::TYPE_ARROW => 32,
            SyntaxKind::TYPE_PAREN => 33,
            SyntaxKind::IDENT_EXPR => 34,
            SyntaxKind::LITERAL_EXPR => 35,
            SyntaxKind::PAREN_EXPR => 36,
            SyntaxKind::APP_EXPR => 37,
            SyntaxKind::LAMBDA_EXPR => 38,
            SyntaxKind::BLOCK_EXPR => 39,
            SyntaxKind::BINARY_EXPR => 40,
            SyntaxKind::EXPR_STMT => 41,
            SyntaxKind::LET_STMT => 42,
        }
    }

    /// The kind with the index `index`, if there is one.
    pub fn from_index(index: u16) -> (r: Option<SyntaxKind>)
        ensures
            r matches Some(kind) ==> kind.spec_index() == index,
            r is None ==> index >= 43,
    {
        if index == 0 {
            Some(SyntaxKind::WHITESPACE)
        } else if index == 1 {
            Some(SyntaxKind::COMMENT)
        } else if index == 2 {
            Some(SyntaxKind::DEF_KW)
        } else if index == 3 {
            Some(SyntaxKind::TYPE_KW)
        } else if index == 4 {
            Some(SyntaxKind::OPEN_KW)
        } else if index == 5 {
            Some(SyntaxKind::LET_KW)
        } else if index == 6 {
            Some(SyntaxKind::IDENT)
        } else if index == 7 {
            Some(SyntaxKind::INT)
        } else if index == 8 {
            Some(SyntaxKind::L_PAREN)
        } else if index == 9 {
            Some(SyntaxKind::R_PAREN)
        } else if index == 10 {
            Some(SyntaxKind::L_BRACE)
        } else if index == 11 {
            Some(SyntaxKind::R_BRACE)
        } else if index == 12 {
            Some(SyntaxKind::COLON)
        } else if index == 13 {
            Some(SyntaxKind::SEMICOLON)
        } else if index == 14 {
            Some(SyntaxKind::EQUAL)
        } else if index == 15 {
            Some(SyntaxKind::ARROW)
        } else if index == 16 {
            Some(SyntaxKind::BACKSLASH)
        } else if index == 17 {
            Some(SyntaxKind::PLUS)
        } else if index == 18 {
            Some(SyntaxKind::MINUS)
        } else if index == 19 {
            Some(SyntaxKind::STAR)
        } else if index == 20 {
            Some(SyntaxKind::SLASH)
        } else if index == 21 {
            Some(SyntaxKind::ERROR)
        } else if index == 22 {
            Some(SyntaxKind::EOF)
        } else if index == 23 {
            Some(SyntaxKind::MODULE)
        } else if index == 24 {
            Some(SyntaxKind::DEFINITION)
        } else if index == 25 {
            Some(SyntaxKind::OPEN)
        } else if index == 26 {
            Some(SyntaxKind::TYPE_DEFINITION)
        } else if index == 27 {
            Some(SyntaxKind::PARAMS)
        } else if index == 28 {
            Some(SyntaxKind::PARAM)
        } else if index == 29 {
            Some(SyntaxKind::DEF_BODY)
        } else if index == 30 {
            Some(SyntaxKind::TYPE_ANNOTATION)
        } else if index == 31 {
            Some(SyntaxKind::TYPE_IDENT)
        } else if index == 32 {
            Some(SyntaxKind::TYPE_ARROW)
        } else if index == 33 {
            Some(SyntaxKind::TYPE_PAREN)
        } else if index == 34 {
            Some(SyntaxKind::IDENT_EXPR)
        } else if index == 35 {
            Some(SyntaxKind::LITERAL_EXPR)
        } else if index == 36 {
            Some(SyntaxKind::PAREN_EXPR)
        } else if index == 37 {
            Some(SyntaxKind::APP_EXPR)
        } else if index == 38 {
            Some(SyntaxKind::LAMBDA_EXPR)
        } else if index == 39 {
            Some(SyntaxKind::BLOCK_EXPR)
        } else if index == 40 {
            Some(SyntaxKind::BINARY_EXPR)
        } else if index == 41 {
            Some(SyntaxKind::EXPR_STMT)
        } else if index == 42 {
            Some(SyntaxKind::LET_STMT)
        } else {
            None
        }
    }

    /// The upper-case name of the kind.
    pub fn name(self) -> (r: &'static str)
        ensures
            r@ == self.spec_name(),
    {
        match self {
            SyntaxKind::WHITESPACE => "WHITESPACE",
            SyntaxKind::COMMENT => "COMMENT",
            SyntaxKind::DEF_KW => "DEF_KW",
            SyntaxKind::TYPE_KW => "TYPE_KW",
            SyntaxKind::OPEN_KW => "OPEN_KW",
            SyntaxKind::LET_KW => "LET_KW",
            SyntaxKind::IDENT => "IDENT",
            SyntaxKind::INT => "INT",
            SyntaxKind::L_PAREN => "L_PAREN",
            SyntaxKind::R_PAREN => "R_PAREN",
            SyntaxKind::L_BRACE => "L_BRACE",
            SyntaxKind::R_BRACE => "R_BRACE",
            SyntaxKind::COLON => "COLON",
            SyntaxKind::SEMICOLON => "SEMICOLON",
            SyntaxKind::EQUAL => "EQUAL",
            SyntaxKind::ARROW => "ARROW",
            SyntaxKind::BACKSLASH => "BACKSLASH",
            SyntaxKind::PLUS => "PLUS",
            SyntaxKind::MINUS => "MINUS",
            SyntaxKind::STAR => "STAR",
            SyntaxKind::SLASH => "SLASH",
            SyntaxKind::ERROR => "ERROR",
            SyntaxKind::EOF => "EOF",
            SyntaxKind::MODULE => "MODULE",
            SyntaxKind::DEFINITION => "DEFINITION",
            SyntaxKind::OPEN => "OPEN",
            SyntaxKind::TYPE_DEFINITION => "TYPE_DEFINITION",
            SyntaxKind::PARAMS => "PARAMS",
            SyntaxKind::PARAM => "PARAM",
            SyntaxKind::DEF_BODY => "DEF_BODY",
            SyntaxKind::TYPE_ANNOTATION => "TYPE_ANNOTATION",
            SyntaxKind::TYPE_IDENT => "TYPE_IDENT",
            SyntaxKind::TYPE_ARROW => "TYPE_ARROW",
            SyntaxKind::TYPE_PAREN => "TYPE_PAREN",
            SyntaxKind::IDENT_EXPR => "IDENT_EXPR",
            SyntaxKind::LITERAL_EXPR => "LITERAL_EXPR",
            SyntaxKind::PAREN_EXPR => "PAREN_EXPR",
            SyntaxKind::APP_EXPR => "APP_EXPR",
            SyntaxKind::LAMBDA_EXPR => "LAMBDA_EXPR",
            SyntaxKind::BLOCK_EXPR => "BLOCK_EXPR",
            SyntaxKind::BINARY_EXPR => "BINARY_EXPR",
            SyntaxKind::EXPR_STMT => "EXPR_STMT",
            SyntaxKind::LET_STMT => "LET_STMT",
        }
    }

    /// Whether the kind is whitespace or a comment.
    #[verifier::when_used_as_spec(spec_is_trivia)]
    pub fn is_trivia(self) -> (r: bool)
        ensures
            r == self.spec_is_trivia(),
    {
        match self {
            SyntaxKind::WHITESPACE | SyntaxKind::COMMENT => true,
            _ => false,
        }
    }
}

/// Two kinds with the same index are the same kind.
pub proof fn lemma_index_injective(a: SyntaxKind, b: SyntaxKind)
    requires
        a.spec_index() == b.spec_index(),
    ensures
        a == b,
{
}

} // verus!
