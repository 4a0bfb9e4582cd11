//! The modes of the command line, and the rule that selects one.

use vstd::prelude::*;
use crate::deep_eq::same_text;

verus! {

/// What the program is asked to do.
#[derive(Clone, Copy, Debug, PartialEq, Eq, Structural)]
pub enum Mode {
    /// Read a text, parse it, print its tree.
    Parse,
    REPL,
    LSP,
}

/// A text in lower case, as `str::to_lowercase` gives it.
pub uninterp spec fn lowercased(text: Seq<char>) -> Seq<char>;

/// `str::to_lowercase`: the text with each character in lower case, by the
/// tables of Unicode. The result depends on the text alone.
#[verifier::external_body]
fn to_lowercase(text: &str) -> (lower: String)
    ensures
        lower@ == lowercased(text@),
{
    text.to_lowercase()
}

/// The mode that a name in lower case selects: `parse` and `lsp` select
/// theirs, every other name selects the REPL.
pub open spec fn mode_named(lower: Seq<char>) -> Mode {
    if lower == "parse"@ {
        Mode::Parse
    } else if lower == "lsp"@ {
        Mode::LSP
    } else {
        Mode::REPL
    }
}

/// The mode that the first argument of the command line selects, whatever
/// its case; `Parse` without an argument.
pub open spec fn mode_for(arg: Option<Seq<char>>) -> Mode {
    match arg {
        Some(name) => mode_named(lowercased(name)),
        None => Mode::Parse,
    }
}

/// The mode that a name in lower case selects.
pub fn mode_of_name(lower: &str) -> (mode: Mode)
    ensures
        mode == mode_named(lower@),
{
    if same_text(lower, "parse") {
        Mode::Parse
    } else if same_text(lower, "lsp") {
        Mode::LSP
    } else {
        Mode::REPL
    }
}

/// The mode that the first argument of the command line selects.
pub fn select_mode(arg: Option<&str>) -> (mode: Mode)
    ensures
        mode == mode_for(
            match arg {
                Some(name) => Some(name@),
                None => None,
            },
        ),
{
    match arg {
        Some(name) => {
            let lower = to_lowercase(name);
            mode_of_name(lower.as_str())
        },
        None => Mode::Parse,
    }
}

} // verus!
