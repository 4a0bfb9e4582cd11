//! The table of names: each spelling has one handle, its position in the table.

use vstd::prelude::*;
use vstd::string::*;
use crate::hir::Name;

verus! {

/// The spellings of a table, in the order of their handles.
pub open spec fn spellings(names: Seq<String>) -> Seq<Seq<char>> {
    names.map_values(|s: String| s@)
}

/// The position of the first spelling from `from` on that equals `text`; the
/// length of the table when there is none.
pub open spec fn position_of(names: Seq<Seq<char>>, text: Seq<char>, from: int) -> int
    decreases names.len() - from,
{
    if from < 0 || from >= names.len() {
        names.len() as int
    } else if names[from] == text {
        from
    } else {
        position_of(names, text, from + 1)
    }
}

/// No spelling stands in the table twice.
pub open spec fn distinct(names: Seq<Seq<char>>) -> bool {
    forall|i: int, j: int| 0 <= i < j < names.len() ==> names[i] != names[j]
}

/// The table after `text` is interned: unchanged when it holds the spelling,
/// else with the spelling at its end.
pub open spec fn interned(names: Seq<Seq<char>>, text: Seq<char>) -> Seq<Seq<char>> {
    if position_of(names, text, 0) < names.len() {
        names
    } else {
        names.push(text)
    }
}

pub proof fn lemma_position_of(names: Seq<Seq<char>>, text: Seq<char>, from: int)
    requires
        0 <= from,
    ensures
        position_of(names, text, from) <= names.len(),
        position_of(names, text, from) < names.len() ==> from <= position_of(names, text, from)
            && names[position_of(names, text, from)] == text,
        position_of(names, text, from) == names.len() ==> forall|i: int|
            from <= i < names.len() ==> names[i] != text,
    decreases names.len() - from,
{
    if from < names.len() && names[from] != text {
        lemma_position_of(names, text, from + 1);
    }
}

/// Interning keeps a table distinct, keeps the spellings it had where they
/// were, and leaves the spelling in the table at the position found.
pub proof fn lemma_interned(names: Seq<Seq<char>>, text: Seq<char>)
    requires
        distinct(names),
    ensures
        distinct(interned(names, text)),
        names.len() <= interned(names, text).len() <= names.len() + 1,
        forall|i: int| 0 <= i < names.len() ==> interned(names, text)[i] == names[i],
        position_of(names, text, 0) < interned(names, text).len(),
        interned(names, text)[position_of(names, text, 0)] == text,
        position_of(interned(names, text), text, 0) == position_of(names, text, 0),
{
    lemma_position_of(names, text, 0);
    let after = interned(names, text);
    lemma_position_of(after, text, 0);
    if position_of(names, text, 0) == names.len() {
        let p = position_of(after, text, 0);
        assert(after[names.len() as int] == text);
        if p < names.len() {
            assert(names[p] == after[p]);
        }
    }
}

/// The table of names of a module.
#[derive(Debug, PartialEq)]
pub struct Interner {
    names: Vec<String>,
}

impl Interner {
    /// The spellings, in the order of their handles.
    pub closed spec fn view(&self) -> Seq<Seq<char>> {
        spellings(self.names@)
    }

    pub fn new() -> (table: Self)
        ensures
            table@ == Seq::<Seq<char>>::empty(),
    {
        let table = Interner { names: Vec::new() };
        proof {
            assert(table@ =~= Seq::<Seq<char>>::empty());
        }
        table
    }

    /// The handle of `name`. A spelling that the table does not hold yet is
    /// appended to it; the others stay where they are.
    ///
    /// The handle is the position of the spelling cast to `u32`: the
    /// position itself, as long as positions fit into 32 bits.
    pub fn intern(&mut self, name: String) -> (handle: Name)
        ensures
            final(self)@ == interned(old(self)@, name@),
            handle.raw < final(self)@.len(),
            handle.raw == position_of(old(self)@, name@, 0) as u32,
            final(self)@.len() <= 0x1_0000_0000 ==> handle.raw == position_of(old(self)@, name@, 0),
    {
        let ghost before = self@;
        proof {
            lemma_position_of(before, name@, 0);
        }
        let mut i: usize = 0;
        while i < self.names.len()
            invariant
                self.names == old(self).names,
                i <= self.names.len(),
                position_of(before, name@, i as int) == position_of(before, name@, 0),
                before == spellings(self.names@),
            decreases self.names.len() - i,
        {
            if self.names[i] == name {
                proof {
                    assert(before[i as int] == name@);
                }
                return Name { raw: #[verifier::truncate] (i as u32) };
            }
            i = i + 1;
        }
        let at = self.names.len();
        self.names.push(name);
        proof {
            assert(self@ =~= before.push(name@));
        }
        Name { raw: #[verifier::truncate] (at as u32) }
    }

    /// The spelling of `name`; the empty string for a handle that the table
    /// did not give out.
    pub fn lookup(&self, name: Name) -> (text: &str)
        ensures
            text@ == name_text(self@, name),
    {
        if (name.raw as usize) < self.names.len() {
            self.names[name.raw as usize].as_str()
        } else {
            proof {
                reveal_strlit("");
                assert(""@ =~= Seq::<char>::empty());
            }
            ""
        }
    }

    /// How many names the table holds.
    pub fn len(&self) -> (n: usize)
        ensures
            n == self@.len(),
    {
        self.names.len()
    }
}

/// The spelling that a handle stands for; empty for a handle outside the
/// table.
pub open spec fn name_text(names: Seq<Seq<char>>, name: Name) -> Seq<char> {
    if name.raw < names.len() {
        names[name.raw as int]
    } else {
        Seq::empty()
    }
}

} // verus!
