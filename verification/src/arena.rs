//! The arenas of the intermediate representation: `la_arena::Arena`, with what
//! each holds as a sequence and the calls that lowering makes on it.

use vstd::prelude::*;
use la_arena::{Arena, Idx, RawIdx};
use crate::hir::{Definition, Expr, ExprIdx, Open, TypeDefinition, TypeExpr, TypeExprIdx};

verus! {

/// `la_arena::Arena`: an append-only array of values that are referred to by
/// their position.
#[verifier::external_type_specification]
#[verifier::external_body]
#[verifier::reject_recursive_types(T)]
pub struct ExArena<T>(Arena<T>);

/// The expressions that an arena holds, in the order in which they were
/// allocated.
pub uninterp spec fn exprs_of(arena: Arena<Expr>) -> Seq<Expr>;

/// The type expressions that an arena holds, in the order in which they were
/// allocated.
pub uninterp spec fn type_exprs_of(arena: Arena<TypeExpr>) -> Seq<TypeExpr>;

/// The definitions that an arena holds, in the order in which they were
/// allocated.
pub uninterp spec fn definitions_of(arena: Arena<Definition>) -> Seq<Definition>;

/// The `open` declarations that an arena holds, in the order in which they
/// were allocated.
pub uninterp spec fn opens_of(arena: Arena<Open>) -> Seq<Open>;

/// The type definitions that an arena holds, in the order in which they were
/// allocated.
pub uninterp spec fn type_definitions_of(arena: Arena<TypeDefinition>) -> Seq<TypeDefinition>;

/// `Arena::new` for expressions: the new arena holds nothing.
#[verifier::external_body]
pub(crate) fn new_exprs() -> (arena: Arena<Expr>)
    ensures
        exprs_of(arena) == Seq::<Expr>::empty(),
{
    Arena::new()
}

/// `Arena::alloc` for expressions: the value is appended. The index returned
/// is the length that the arena had, cast to `u32`: the position of the value,
/// as long as that fits into 32 bits.
#[verifier::external_body]
pub(crate) fn alloc_expr(arena: &mut Arena<Expr>, value: Expr) -> (idx: ExprIdx)
    ensures
        exprs_of(*final(arena)) == exprs_of(*old(arena)).push(value),
        idx.raw == exprs_of(*old(arena)).len() as u32,
{
    ExprIdx { raw: arena.alloc(value).into_raw().into_u32() }
}

/// `Arena::len` for expressions.
#[verifier::external_body]
pub(crate) fn exprs_len(arena: &Arena<Expr>) -> (len: usize)
    ensures
        len == exprs_of(*arena).len(),
{
    arena.len()
}

/// `Arena::index` for expressions: the value at the position `idx`, which
/// has to be inside the arena (the arena panics otherwise).
#[verifier::external_body]
pub(crate) fn get_expr(arena: &Arena<Expr>, idx: ExprIdx) -> (value: &Expr)
    requires
        idx.raw < exprs_of(*arena).len(),
    ensures
        *value == exprs_of(*arena)[idx.raw as int],
{
    &arena[Idx::from_raw(RawIdx::from_u32(idx.raw))]
}

/// `Arena::new` for type expressions: the new arena holds nothing.
#[verifier::external_body]
pub(crate) fn new_type_exprs() -> (arena: Arena<TypeExpr>)
    ensures
        type_exprs_of(arena) == Seq::<TypeExpr>::empty(),
{
    Arena::new()
}

/// `Arena::alloc` for type expressions: the value is appended. The index
/// returned is the length that the arena had, cast to `u32`: the position of the
/// value, as long as that fits into 32 bits.
#[verifier::external_body]
pub(crate) fn alloc_type_expr(arena: &mut Arena<TypeExpr>, value: TypeExpr) -> (idx: TypeExprIdx)
    ensures
        type_exprs_of(*final(arena)) == type_exprs_of(*old(arena)).push(value),
        idx.raw == type_exprs_of(*old(arena)).len() as u32,
{
    TypeExprIdx { raw: arena.alloc(value).into_raw().into_u32() }
}

/// `Arena::len` for type expressions.
#[verifier::external_body]
pub(crate) fn type_exprs_len(arena: &Arena<TypeExpr>) -> (len: usize)
    ensures
        len == type_exprs_of(*arena).len(),
{
    arena.len()
}

/// `Arena::index` for type expressions: the value at the position `idx`,
/// which has to be inside the arena.
#[verifier::external_body]
pub(crate) fn get_type_expr(arena: &Arena<TypeExpr>, idx: TypeExprIdx) -> (value: &TypeExpr)
    requires
        idx.raw < type_exprs_of(*arena).len(),
    ensures
        *value == type_exprs_of(*arena)[idx.raw as int],
{
    &arena[Idx::from_raw(RawIdx::from_u32(idx.raw))]
}

/// `Arena::new` for definitions: the new arena holds nothing.
#[verifier::external_body]
pub(crate) fn new_definitions() -> (arena: Arena<Definition>)
    ensures
        definitions_of(arena) == Seq::<Definition>::empty(),
{
    Arena::new()
}

/// `Arena::alloc` for definitions: the value is appended.
#[verifier::external_body]
pub(crate) fn alloc_definition(arena: &mut Arena<Definition>, value: Definition)
    ensures
        definitions_of(*final(arena)) == definitions_of(*old(arena)).push(value),
{
    arena.alloc(value);
}

/// `Arena::values` for definitions: the values in the order of the arena.
#[verifier::external_body]
pub(crate) fn definition_values(arena: &Arena<Definition>) -> (values: Vec<&Definition>)
    ensures
        values@.len() == definitions_of(*arena).len(),
        forall|i: int| 0 <= i < values@.len() ==> *#[trigger] values@[i] == definitions_of(*arena)[i],
{
    arena.values().collect()
}

/// `Arena::new` for `open` declarations: the new arena holds nothing.
#[verifier::external_body]
pub(crate) fn new_opens() -> (arena: Arena<Open>)
    ensures
        opens_of(arena) == Seq::<Open>::empty(),
{
    Arena::new()
}

/// `Arena::alloc` for `open` declarations: the value is appended.
#[verifier::external_body]
pub(crate) fn alloc_open(arena: &mut Arena<Open>, value: Open)
    ensures
        opens_of(*final(arena)) == opens_of(*old(arena)).push(value),
{
    arena.alloc(value);
}

/// `Arena::values` for `open` declarations: the values in the order of the
/// arena.
#[verifier::external_body]
pub(crate) fn open_values(arena: &Arena<Open>) -> (values: Vec<&Open>)
    ensures
        values@.len() == opens_of(*arena).len(),
        forall|i: int| 0 <= i < values@.len() ==> *#[trigger] values@[i] == opens_of(*arena)[i],
{
    arena.values().collect()
}

/// `Arena::new` for type definitions: the new arena holds nothing.
#[verifier::external_body]
pub(crate) fn new_type_definitions() -> (arena: Arena<TypeDefinition>)
    ensures
        type_definitions_of(arena) == Seq::<TypeDefinition>::empty(),
{
    Arena::new()
}

/// `Arena::alloc` for type definitions: the value is appended.
#[verifier::external_body]
pub(crate) fn alloc_type_definition(arena: &mut Arena<TypeDefinition>, value: TypeDefinition)
    ensures
        type_definitions_of(*final(arena)) == type_definitions_of(*old(arena)).push(value),
{
    arena.alloc(value);
}

/// `Arena::values` for type definitions: the values in the order of the
/// arena.
#[verifier::external_body]
pub(crate) fn type_definition_values(arena: &Arena<TypeDefinition>) -> (values: Vec<
    &TypeDefinition,
>)
    ensures
        values@.len() == type_definitions_of(*arena).len(),
        forall|i: int|
            0 <= i < values@.len() ==> *#[trigger] values@[i] == type_definitions_of(*arena)[i],
{
    arena.values().collect()
}

} // verus!
