//! A module: the arenas of expressions, type expressions and declarations, and
//! the table of names. Position 0 of the first two holds `Missing`.

use vstd::prelude::*;
use vstd::string::*;
use la_arena::Arena;
use crate::arena::{
    alloc_definition, alloc_expr, alloc_open, alloc_type_definition, alloc_type_expr,
    definition_values, definitions_of, exprs_len, exprs_of, get_expr, get_type_expr,
    new_definitions, new_exprs, new_opens, new_type_definitions, new_type_exprs, open_values,
    opens_of, type_definition_values, type_definitions_of, type_exprs_len, type_exprs_of,
};
use crate::hir::{
    Definition, DefinitionTerm, Expr, ExprIdx, Name, Open, Store, TypeDefinition,
    TypeDefinitionTerm, TypeExpr, TypeExprIdx,
};
use crate::interner::{interned, Interner, lemma_interned, name_text};
use crate::layout::{Content, Layout, layout_of, lemma_layout_push, put_expr, put_name, put_type};
use crate::store::{
    expr_ok, expr_term_at, expr_value_term, fits, grows, lemma_expr_stable, lemma_expr_value_stable,
    lemma_params_stable, lemma_type_stable, lemma_type_value_stable, name_ok, params_ok,
    params_terms, store_wf, type_ok, type_term_at, type_value_term,
};

verus! {

/// The references of a definition are in range.
pub open spec fn definition_ok(s: Store, d: Definition) -> bool {
    &&& name_ok(s, d.name)
    &&& params_ok(s, d.params@)
    &&& d.return_type.raw < s.types.len()
    &&& d.defn.raw < s.exprs.len()
}

pub open spec fn type_definition_ok(s: Store, d: TypeDefinition) -> bool {
    name_ok(s, d.name) && d.defn.raw < s.types.len()
}

/// A definition as a plain value.
pub open spec fn definition_term(s: Store, d: Definition) -> DefinitionTerm {
    DefinitionTerm {
        name: name_text(s.names, d.name),
        params: params_terms(s, d.params@),
        return_type: type_term_at(s, d.return_type.raw as nat),
        defn: expr_term_at(s, d.defn.raw as nat),
    }
}

/// A type definition as a plain value.
pub open spec fn type_definition_term(s: Store, d: TypeDefinition) -> TypeDefinitionTerm {
    TypeDefinitionTerm {
        name: name_text(s.names, d.name),
        defn: type_term_at(s, d.defn.raw as nat),
    }
}

pub proof fn lemma_definition_stable(a: Store, b: Store, d: Definition)
    requires
        store_wf(a),
        grows(a, b),
        definition_ok(a, d),
    ensures
        definition_term(b, d) == definition_term(a, d),
        definition_ok(b, d),
{
    lemma_params_stable(a, b, d.params@);
    lemma_type_stable(a, b, d.return_type.raw as nat);
    lemma_expr_stable(a, b, d.defn.raw as nat);
    assert(b.names[d.name.raw as int] == a.names[d.name.raw as int]);
}

pub proof fn lemma_type_definition_stable(a: Store, b: Store, d: TypeDefinition)
    requires
        store_wf(a),
        grows(a, b),
        type_definition_ok(a, d),
    ensures
        type_definition_term(b, d) == type_definition_term(a, d),
        type_definition_ok(b, d),
{
    lemma_type_stable(a, b, d.defn.raw as nat);
    assert(b.names[d.name.raw as int] == a.names[d.name.raw as int]);
}

/// The lowered form of a file: the arenas of expressions, type expressions
/// and declarations, and the table of names.
#[derive(Debug, PartialEq)]
pub struct Module {
    expressions: Arena<Expr>,
    type_expressions: Arena<TypeExpr>,
    definitions: Arena<Definition>,
    opens: Arena<Open>,
    type_definitions: Arena<TypeDefinition>,
    names: Interner,
}

impl Module {
    /// The expressions, the type expressions and the names.
    pub closed spec fn store(&self) -> Store {
        Store {
            exprs: exprs_of(self.expressions),
            types: type_exprs_of(self.type_expressions),
            names: self.names@,
        }
    }

    /// The arenas of expressions and type expressions and the table of names,
    /// position by position.
    pub open spec fn layout(&self) -> Layout {
        layout_of(self.store())
    }

    /// All that the module holds, position by position.
    pub open spec fn content(&self) -> Content {
        Content {
            layout: self.layout(),
            defs: self.defs().map_values(|d: Definition| d@),
            opens: self.open_decls(),
            type_defs: self.type_defs(),
        }
    }

    /// The definitions, in the order of the source.
    pub closed spec fn defs(&self) -> Seq<Definition> {
        definitions_of(self.definitions)
    }

    /// The `open` declarations, in the order of the source.
    pub closed spec fn open_decls(&self) -> Seq<Open> {
        opens_of(self.opens)
    }

    /// The type definitions, in the order of the source.
    pub closed spec fn type_defs(&self) -> Seq<TypeDefinition> {
        type_definitions_of(self.type_definitions)
    }

    /// The invariant of a module: that of its arenas, and every reference of a
    /// declaration is in range.
    pub open spec fn wf(&self) -> bool {
        &&& store_wf(self.store())
        &&& forall|i: int|
            0 <= i < self.defs().len() ==> definition_ok(self.store(), #[trigger] self.defs()[i])
        &&& forall|i: int|
            0 <= i < self.open_decls().len() ==> name_ok(
                self.store(),
                (#[trigger] self.open_decls()[i]).path,
            )
        &&& forall|i: int|
            0 <= i < self.type_defs().len() ==> type_definition_ok(
                self.store(),
                #[trigger] self.type_defs()[i],
            )
    }

    /// The declarations are those of `before`.
    pub open spec fn same_decls(&self, before: &Self) -> bool {
        &&& self.defs() == before.defs()
        &&& self.open_decls() == before.open_decls()
        &&& self.type_defs() == before.type_defs()
    }

    /// What every step of lowering keeps: the module stays well formed, and
    /// holds what it held, at the same positions.
    pub open spec fn follows(&self, before: &Self) -> bool {
        &&& self.wf()
        &&& grows(before.store(), self.store())
        &&& self.same_decls(before)
    }

    proof fn lemma_decls_stable(&self, before: &Self)
        requires
            before.wf(),
            store_wf(self.store()),
            grows(before.store(), self.store()),
            self.same_decls(before),
        ensures
            self.wf(),
    {
        assert forall|i: int| 0 <= i < self.defs().len() implies definition_ok(
            self.store(),
            #[trigger] self.defs()[i],
        ) by {
            lemma_definition_stable(before.store(), self.store(), before.defs()[i]);
        }
        assert forall|i: int| 0 <= i < self.type_defs().len() implies type_definition_ok(
            self.store(),
            #[trigger] self.type_defs()[i],
        ) by {
            lemma_type_definition_stable(before.store(), self.store(), before.type_defs()[i]);
        }
        assert forall|i: int| 0 <= i < self.open_decls().len() implies name_ok(
            self.store(),
            (#[trigger] self.open_decls()[i]).path,
        ) by {
            assert(name_ok(before.store(), before.open_decls()[i].path));
        }
    }

    /// A module without declarations. The position 0 of the arena of
    /// expressions and of that of type expressions holds `Missing`.
    pub fn new() -> (module: Self)
        ensures
            module.wf(),
            module.store().exprs == seq![Expr::Missing],
            module.store().types == seq![TypeExpr::Missing],
            module.store().names == Seq::<Seq<char>>::empty(),
            module.defs().len() == 0,
            module.open_decls().len() == 0,
            module.type_defs().len() == 0,
    {
        let mut expressions = new_exprs();
        let mut type_expressions = new_type_exprs();
        alloc_expr(&mut expressions, Expr::Missing);
        alloc_type_expr(&mut type_expressions, TypeExpr::Missing);
        let module = Module {
            expressions,
            type_expressions,
            definitions: new_definitions(),
            opens: new_opens(),
            type_definitions: new_type_definitions(),
            names: Interner::new(),
        };
        proof {
            assert(module.store().exprs =~= seq![Expr::Missing]);
            assert(module.store().types =~= seq![TypeExpr::Missing]);
        }
        module
    }

    /// The handle of the name spelled `text`; the name is entered into the
    /// table if it is new.
    pub fn name(&mut self, text: &str) -> (handle: Name)
        requires
            old(self).wf(),
        ensures
            final(self).follows(old(self)),
            final(self).store().names == interned(old(self).store().names, text@),
            final(self).store().exprs == old(self).store().exprs,
            final(self).store().types == old(self).store().types,
            name_ok(final(self).store(), handle),
            final(self).store().names.len() <= 0x1_0000_0000 ==> name_text(
                final(self).store().names,
                handle,
            ) == text@,
            put_name(old(self).layout(), text@) == (
                final(self).layout(),
                handle,
            ),
    {
        proof {
            lemma_interned(self.store().names, text@);
        }
        let handle = self.names.intern(String::from_str(text));
        proof {
            self.lemma_names_grown(old(self));
        }
        handle
    }

    proof fn lemma_names_grown(&self, before: &Self)
        requires
            before.wf(),
            self.store().exprs == before.store().exprs,
            self.store().types == before.store().types,
            self.same_decls(before),
            crate::interner::distinct(self.store().names),
            before.store().names.len() <= self.store().names.len(),
            forall|i: int|
                0 <= i < before.store().names.len() ==> self.store().names[i]
                    == before.store().names[i],
        ensures
            self.follows(before),
    {
        let a = before.store();
        let b = self.store();
        assert(grows(a, b));
        assert forall|i: int| 0 <= i < b.exprs.len() implies expr_ok(
            b,
            #[trigger] b.exprs[i],
            i as nat,
        ) by {
            assert(expr_ok(a, a.exprs[i], i as nat));
            match a.exprs[i] {
                Expr::LetExpr(l) => {
                    lemma_params_stable(a, b, l.params@);
                },
                _ => {},
            }
        }
        assert forall|i: int| 0 <= i < b.types.len() implies type_ok(
            b,
            #[trigger] b.types[i],
            i as nat,
        ) by {
            assert(type_ok(a, a.types[i], i as nat));
        }
        self.lemma_decls_stable(before);
    }

    /// The handle of the empty name, which stands for a binding without a
    /// name.
    pub fn empty_name(&mut self) -> (handle: Name)
        requires
            old(self).wf(),
        ensures
            final(self).follows(old(self)),
            final(self).store().names == interned(
                old(self).store().names,
                Seq::<char>::empty(),
            ),
            final(self).store().exprs == old(self).store().exprs,
            final(self).store().types == old(self).store().types,
            name_ok(final(self).store(), handle),
            final(self).store().names.len() <= 0x1_0000_0000 ==> name_text(
                final(self).store().names,
                handle,
            ) == Seq::<char>::empty(),
            put_name(old(self).layout(), Seq::empty()) == (
                final(self).layout(),
                handle,
            ),
    {
        proof {
            lemma_interned(self.store().names, Seq::<char>::empty());
        }
        let handle = self.names.intern(String::new());
        proof {
            self.lemma_names_grown(old(self));
        }
        handle
    }

    /// The spelling of a name; empty for a handle that is not of this module.
    pub fn lookup(&self, name: Name) -> (text: &str)
        ensures
            text@ == name_text(self.store().names, name),
    {
        self.names.lookup(name)
    }

    /// Puts an expression into the arena and returns its position. A missing
    /// expression is not stored again: its position is 0.
    ///
    /// Any other expression goes to the end of the arena. Its position is
    /// the length that the arena had, as a `u32`: that length itself, and what
    /// stands for the tree of `expr`, as long as the length fits into 32 bits.
    pub fn alloc_expr(&mut self, expr: Expr) -> (idx: ExprIdx)
        requires
            old(self).wf(),
            expr_ok(old(self).store(), expr, old(self).store().exprs.len()),
        ensures
            final(self).follows(old(self)),
            final(self).store().exprs == (if expr is Missing {
                old(self).store().exprs
            } else {
                old(self).store().exprs.push(expr)
            }),
            final(self).store().types == old(self).store().types,
            final(self).store().names == old(self).store().names,
            idx.raw < final(self).store().exprs.len(),
            expr is Missing ==> idx.raw == 0,
            !(expr is Missing) ==> idx.raw == old(self).store().exprs.len() as u32,
            !(expr is Missing) && old(self).store().exprs.len() <= u32::MAX ==> idx.raw == old(
                self,
            ).store().exprs.len(),
            expr is Missing || old(self).store().exprs.len() <= u32::MAX ==> expr_term_at(
                final(self).store(),
                idx.raw as nat,
            ) == expr_value_term(old(self).store(), expr),
            put_expr(old(self).layout(), expr@) == (
                final(self).layout(),
                idx,
            ),
    {
        if let Expr::Missing = expr {
            ExprIdx { raw: 0 }
        } else {
            let ghost a = self.store();
            let idx = alloc_expr(&mut self.expressions, expr);
            proof {
                let b = self.store();
                assert(grows(a, b));
                assert forall|i: int| 0 <= i < b.exprs.len() implies expr_ok(
                    b,
                    #[trigger] b.exprs[i],
                    i as nat,
                ) by {
                    if i < a.exprs.len() {
                        assert(expr_ok(a, a.exprs[i], i as nat));
                    }
                }
                assert(store_wf(b));
                self.lemma_decls_stable(old(self));
                lemma_layout_push(a, expr);
                assert(b == Store { exprs: a.exprs.push(expr), ..a });
                if a.exprs.len() <= u32::MAX {
                    crate::store::lemma_expr_at_value(b, idx.raw as nat);
                    lemma_expr_value_stable(a, b, expr);
                }
            }
            idx
        }
    }

    /// Puts a type expression into the arena and returns its position. A
    /// missing type expression is not stored again: its position is 0.
    ///
    /// Any other type expression goes to the end of the arena. Its position
    /// is the length that the arena had, as a `u32`: that length itself, and
    /// what stands for the tree of `type_expr`, as long as the length fits into
    /// 32 bits.
    pub fn alloc_type_expr(&mut self, type_expr: TypeExpr) -> (idx: TypeExprIdx)
        requires
            old(self).wf(),
            type_ok(old(self).store(), type_expr, old(self).store().types.len()),
        ensures
            final(self).follows(old(self)),
            final(self).store().types == (if type_expr is Missing {
                old(self).store().types
            } else {
                old(self).store().types.push(type_expr)
            }),
            final(self).store().exprs == old(self).store().exprs,
            final(self).store().names == old(self).store().names,
            idx.raw < final(self).store().types.len(),
            type_expr is Missing ==> idx.raw == 0,
            !(type_expr is Missing) ==> idx.raw == old(self).store().types.len() as u32,
            !(type_expr is Missing) && old(self).store().types.len() <= u32::MAX ==> idx.raw
                == old(self).store().types.len(),
            type_expr is Missing || old(self).store().types.len() <= u32::MAX ==> type_term_at(
                final(self).store(),
                idx.raw as nat,
            ) == type_value_term(old(self).store(), type_expr),
            put_type(old(self).layout(), type_expr) == (
                final(self).layout(),
                idx,
            ),
    {
        if let TypeExpr::Missing = type_expr {
            TypeExprIdx { raw: 0 }
        } else {
            let ghost a = self.store();
            let idx = alloc_type_expr(&mut self.type_expressions, type_expr);
            proof {
                let b = self.store();
                assert(grows(a, b));
                assert forall|i: int| 0 <= i < b.types.len() implies type_ok(
                    b,
                    #[trigger] b.types[i],
                    i as nat,
                ) by {
                    if i < a.types.len() {
                        assert(type_ok(a, a.types[i], i as nat));
                    }
                }
                assert forall|i: int| 0 <= i < b.exprs.len() implies expr_ok(
                    b,
                    #[trigger] b.exprs[i],
                    i as nat,
                ) by {
                    assert(expr_ok(a, a.exprs[i], i as nat));
                    match a.exprs[i] {
                        Expr::LetExpr(l) => {
                            lemma_params_stable(a, b, l.params@);
                        },
                        _ => {},
                    }
                }
                assert(store_wf(b));
                self.lemma_decls_stable(old(self));
                if a.types.len() <= u32::MAX {
                    crate::store::lemma_type_at_value(b, idx.raw as nat);
                    lemma_type_value_stable(a, b, type_expr);
                }
            }
            idx
        }
    }

    /// The expression at a position; `None` for a position outside the arena.
    pub fn expr(&self, idx: ExprIdx) -> (e: Option<&Expr>)
        ensures
            match e {
                Some(value) => idx.raw < self.store().exprs.len() && *value
                    == self.store().exprs[idx.raw as int],
                None => idx.raw >= self.store().exprs.len(),
            },
    {
        if (idx.raw as usize) < exprs_len(&self.expressions) {
            Some(get_expr(&self.expressions, idx))
        } else {
            None
        }
    }

    /// The type expression at a position; `None` for a position outside the
    /// arena.
    pub fn type_expr(&self, idx: TypeExprIdx) -> (t: Option<&TypeExpr>)
        ensures
            match t {
                Some(value) => idx.raw < self.store().types.len() && *value
                    == self.store().types[idx.raw as int],
                None => idx.raw >= self.store().types.len(),
            },
    {
        if (idx.raw as usize) < type_exprs_len(&self.type_expressions) {
            Some(get_type_expr(&self.type_expressions, idx))
        } else {
            None
        }
    }

    /// The arena of expressions.
    pub fn expressions(&self) -> (arena: &Arena<Expr>)
        ensures
            exprs_of(*arena) == self.store().exprs,
    {
        &self.expressions
    }

    /// The arena of type expressions.
    pub fn type_expressions(&self) -> (arena: &Arena<TypeExpr>)
        ensures
            type_exprs_of(*arena) == self.store().types,
    {
        &self.type_expressions
    }

    /// How many expressions the arena holds, the missing one at 0 included.
    pub fn expr_count(&self) -> (n: usize)
        ensures
            n == self.store().exprs.len(),
    {
        exprs_len(&self.expressions)
    }

    /// How many type expressions the arena holds, the missing one at 0
    /// included.
    pub fn type_expr_count(&self) -> (n: usize)
        ensures
            n == self.store().types.len(),
    {
        type_exprs_len(&self.type_expressions)
    }

    /// How many names the table holds.
    pub fn name_count(&self) -> (n: usize)
        ensures
            n == self.store().names.len(),
    {
        self.names.len()
    }

    /// Whether every position of the arenas and of the table of names is a
    /// value of its index type: what the contracts of lowering say of
    /// positions, they say of a module for which this holds.
    pub fn fits(&self) -> (r: bool)
        ensures
            r == fits(self.store()),
    {
        let bound: u64 = 0x1_0000_0000;
        (self.expr_count() as u64) <= bound && (self.type_expr_count() as u64) <= bound && (
        self.name_count() as u64) <= bound
    }

    /// The definitions, in the order of the source.
    pub fn definitions(&self) -> (values: Vec<&Definition>)
        ensures
            values@.len() == self.defs().len(),
            forall|i: int| 0 <= i < values@.len() ==> *#[trigger] values@[i] == self.defs()[i],
    {
        definition_values(&self.definitions)
    }

    /// The `open` declarations, in the order of the source.
    pub fn opens(&self) -> (values: Vec<&Open>)
        ensures
            values@.len() == self.open_decls().len(),
            forall|i: int| 0 <= i < values@.len() ==> *#[trigger] values@[i] == self.open_decls()[i],
    {
        open_values(&self.opens)
    }

    /// The type definitions, in the order of the source.
    pub fn type_definitions(&self) -> (values: Vec<&TypeDefinition>)
        ensures
            values@.len() == self.type_defs().len(),
            forall|i: int| 0 <= i < values@.len() ==> *#[trigger] values@[i] == self.type_defs()[i],
    {
        type_definition_values(&self.type_definitions)
    }

    /// Appends a definition.
    pub fn add_definition(&mut self, definition: Definition)
        requires
            old(self).wf(),
            definition_ok(old(self).store(), definition),
        ensures
            final(self).wf(),
            final(self).store() == old(self).store(),
            final(self).defs() == old(self).defs().push(definition),
            final(self).open_decls() == old(self).open_decls(),
            final(self).type_defs() == old(self).type_defs(),
    {
        alloc_definition(&mut self.definitions, definition);
        proof {
            assert forall|i: int| 0 <= i < self.open_decls().len() implies name_ok(
                self.store(),
                (#[trigger] self.open_decls()[i]).path,
            ) by {
                assert(name_ok(old(self).store(), old(self).open_decls()[i].path));
            }
            assert forall|i: int| 0 <= i < self.type_defs().len() implies type_definition_ok(
                self.store(),
                #[trigger] self.type_defs()[i],
            ) by {
                assert(type_definition_ok(old(self).store(), old(self).type_defs()[i]));
            }
            assert forall|i: int| 0 <= i < self.defs().len() implies definition_ok(
                self.store(),
                #[trigger] self.defs()[i],
            ) by {
                if i < old(self).defs().len() {
                    assert(definition_ok(old(self).store(), old(self).defs()[i]));
                }
            }
        }
    }

    /// Appends an `open` declaration.
    pub fn add_open(&mut self, open: Open)
        requires
            old(self).wf(),
            name_ok(old(self).store(), open.path),
        ensures
            final(self).wf(),
            final(self).store() == old(self).store(),
            final(self).open_decls() == old(self).open_decls().push(open),
            final(self).defs() == old(self).defs(),
            final(self).type_defs() == old(self).type_defs(),
    {
        alloc_open(&mut self.opens, open);
        proof {
            assert forall|i: int| 0 <= i < self.defs().len() implies definition_ok(
                self.store(),
                #[trigger] self.defs()[i],
            ) by {
                assert(definition_ok(old(self).store(), old(self).defs()[i]));
            }
            assert forall|i: int| 0 <= i < self.type_defs().len() implies type_definition_ok(
                self.store(),
                #[trigger] self.type_defs()[i],
            ) by {
                assert(type_definition_ok(old(self).store(), old(self).type_defs()[i]));
            }
            assert forall|i: int| 0 <= i < self.open_decls().len() implies name_ok(
                self.store(),
                (#[trigger] self.open_decls()[i]).path,
            ) by {
                if i < old(self).open_decls().len() {
                    assert(name_ok(old(self).store(), old(self).open_decls()[i].path));
                }
            }
        }
    }

    /// Appends a type definition.
    pub fn add_type_definition(&mut self, type_definition: TypeDefinition)
        requires
            old(self).wf(),
            type_definition_ok(old(self).store(), type_definition),
        ensures
            final(self).wf(),
            final(self).store() == old(self).store(),
            final(self).type_defs() == old(self).type_defs().push(type_definition),
            final(self).defs() == old(self).defs(),
            final(self).open_decls() == old(self).open_decls(),
    {
        alloc_type_definition(&mut self.type_definitions, type_definition);
        proof {
            assert forall|i: int| 0 <= i < self.defs().len() implies definition_ok(
                self.store(),
                #[trigger] self.defs()[i],
            ) by {
                assert(definition_ok(old(self).store(), old(self).defs()[i]));
            }
            assert forall|i: int| 0 <= i < self.open_decls().len() implies name_ok(
                self.store(),
                (#[trigger] self.open_decls()[i]).path,
            ) by {
                assert(name_ok(old(self).store(), old(self).open_decls()[i].path));
            }
            assert forall|i: int| 0 <= i < self.type_defs().len() implies type_definition_ok(
                self.store(),
                #[trigger] self.type_defs()[i],
            ) by {
                if i < old(self).type_defs().len() {
                    assert(type_definition_ok(old(self).store(), old(self).type_defs()[i]));
                }
            }
        }
    }
}

impl Default for Module {
    fn default() -> (module: Self)
        ensures
            module.wf(),
            module.store().exprs == seq![Expr::Missing],
            module.store().types == seq![TypeExpr::Missing],
            module.store().names == Seq::<Seq<char>>::empty(),
            module.defs().len() == 0,
            module.open_decls().len() == 0,
            module.type_defs().len() == 0,
    {
        Module::new()
    }
}

} // verus!
