//! The front end of a small expression-oriented functional language: source
//! text to a lossless syntax tree, and the tree to an arena-indexed
//! intermediate representation.

use vstd::prelude::*;
use rowan::GreenNode;
use crate::ast::{AstNode, Module as ModuleNode};
use crate::event::EventView;
use crate::grammar::{parse_run, PrefixEntryPoint};
use crate::green::{green_steps, raw_element_steps, to_green};
use crate::lexer::{lex, lex_spec};
use crate::parser::Parser;
use crate::profile::{lemma_parse_root, lemma_parse_walk, root_kind};
use crate::render::{render_node, text_len, tree_lines};
use crate::sink::{
    Diagnostic, diagnostics_of, elements_steps, lemma_kinds_views, Parse, replay, replay_steps,
    Sink, Step, SyntaxError, view_kinds,
};
use crate::source::{remaining, Source};
use crate::syntax_kind::SyntaxKind;
use crate::text::{byte_len, str_byte_len};
use crate::tree::{SyntaxElement, SyntaxNode};

pub mod syntax_kind;
pub mod token_set;
pub mod lexer;
pub mod event;
pub mod source;
pub mod parser;
pub mod grammar;
pub mod tree;
pub mod text;
pub mod sink;
pub mod render;
pub mod ast;
pub mod hir;
pub mod arena;
pub mod interner;
pub mod store;
pub mod module;
pub mod lower_spec;
pub mod layout;
pub mod lower;
pub mod deep_eq;
pub mod green;
pub mod laws;
pub mod recovery;
pub mod resume;
pub mod placed;
pub mod cli;
pub mod profile;

verus! {

/// The events that the grammar gives for a text, from a start symbol.
pub open spec fn parsed_events(text: Seq<char>, entry_point: PrefixEntryPoint) -> Seq<EventView> {
    let kinds = view_kinds(lex_spec(text));
    parse_run(kinds, remaining(kinds, 0), entry_point)
}

/// The walk through the tree of a text: the replay of its events against its
/// tokens.
pub open spec fn parsed_walk(text: Seq<char>, entry_point: PrefixEntryPoint) -> Seq<Step> {
    replay_steps(parsed_events(text, entry_point), lex_spec(text))
}

/// The diagnostics of a text, in the order of its events.
pub open spec fn parsed_errors(text: Seq<char>, entry_point: PrefixEntryPoint) -> Seq<Diagnostic> {
    replay(
        parsed_events(text, entry_point),
        lex_spec(text),
        parsed_events(text, entry_point).len(),
    ).errors
}

/// What parsing a text gives: the tree and the diagnostics are those of the
/// text, and of nothing else. The walk through the tree is the replay of the
/// events of the text; its root has the kind that the start symbol gives; and
/// the tree is lossless: the texts of its tokens, joined in the order of the
/// tree, are the text.
pub open spec fn parsed(text: Seq<char>, entry_point: PrefixEntryPoint, parse: Parse) -> bool {
    &&& elements_steps(seq![SyntaxElement::Node(parse.root)]) == parsed_walk(text, entry_point)
    &&& parse.root.kind == root_kind(text, entry_point)
    &&& diagnostics_of(parse.errors@) == parsed_errors(text, entry_point)
    &&& parse.root.text() == text
    &&& byte_len(parse.root.text()) <= usize::MAX
}

/// Parses `input` as a whole file. Whatever the input, the root of the tree
/// is a node `MODULE`.
pub fn parse(input: &str) -> (parse: Parse)
    ensures
        parsed(input@, PrefixEntryPoint::Module, parse),
        parse.root.kind == SyntaxKind::MODULE,
{
    let parse = parse_internal(input, PrefixEntryPoint::Module);
    proof {
        lemma_parse_walk(input@, PrefixEntryPoint::Module);
    }
    parse
}

/// Parses `input` from the start symbol `entry_point`: the input is split
/// into tokens, the grammar turns the tokens into events, and the events are
/// replayed against the tokens.
pub fn parse_internal(input: &str, entry_point: PrefixEntryPoint) -> (parse: Parse)
    ensures
        parsed(input@, entry_point, parse),
{
    let tokens = lex(input);
    // The text is in memory, so every offset into it is a `usize`.
    let bytes: usize = str_byte_len(input);
    let source = Source::new(tokens.as_slice());
    let parser = Parser::new(source);
    proof {
        lemma_kinds_views(tokens@);
    }
    let events = crate::grammar::parse(parser, entry_point);
    let sink = Sink::new(tokens.as_slice(), events);
    let parse = sink.finish();
    proof {
        lemma_parse_root(input@, entry_point, parse.root);
    }
    parse
}

impl Parse {
    /// The tree, one line for each node and token: kind, range of bytes and,
    /// for a token, its text in quotes. Children are indented by two blanks.
    pub fn debug_tree(&self) -> (text: String)
        requires
            byte_len(self.root.text()) <= usize::MAX,
        ensures
            text@ == tree_lines(self.root),
    {
        let mut out = String::new();
        render_node(&mut out, &self.root, "", 0);
        proof {
            assert(""@ =~= Seq::<char>::empty()) by {
                reveal_strlit("");
            }
            assert(Seq::<char>::empty() + tree_lines(self.root) =~= tree_lines(self.root));
        }
        out
    }

    /// The tree as a green tree of rowan, with each kind as its index. rowan
    /// keeps offsets in 32 bits: for a text of 4 GiB or more there is no green
    /// tree.
    pub fn green(&self) -> (green: Option<GreenNode>)
        requires
            byte_len(self.root.text()) <= usize::MAX,
        ensures
            green is Some <==> byte_len(self.root.text()) <= u32::MAX,
            green matches Some(node) ==> green_steps(node) == raw_element_steps(
                SyntaxElement::Node(self.root),
            ),
    {
        if text_len(&self.root) <= 0xffff_ffff {
            Some(to_green(&self.root))
        } else {
            None
        }
    }

    /// The root of the tree.
    pub fn syntax(&self) -> (root: &SyntaxNode)
        ensures
            *root == self.root,
    {
        &self.root
    }

    /// The typed view of the root, if there was no syntax error; the errors
    /// otherwise, whatever the root. Only a root without errors is cast, so only
    /// there the view has to be one of the root's kind.
    pub fn ok<T: AstNode>(self) -> (r: Result<T, Vec<SyntaxError>>)
        requires
            self.errors@.len() == 0 ==> T::can_cast(self.root.kind),
        ensures
            self.errors@.len() == 0 ==> (r matches Ok(view) && view.node() == self.root),
            self.errors@.len() > 0 ==> r == Err::<T, Vec<SyntaxError>>(self.errors),
    {
        if self.errors.len() == 0 {
            match T::cast(self.root) {
                Some(view) => Ok(view),
                None => Err(self.errors),
            }
        } else {
            Err(self.errors)
        }
    }

    /// The root as a module, errors or not.
    pub fn module(self) -> (module: ModuleNode)
        requires
            self.root.kind == SyntaxKind::MODULE,
        ensures
            module.node() == self.root,
    {
        match ModuleNode::cast(self.root) {
            Some(module) => module,
            None => vstd::pervasive::unreached(),
        }
    }
}

} // verus!
