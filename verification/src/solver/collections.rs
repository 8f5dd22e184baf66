//! The outside collections of the search: an arena that owns the states and an FNV hash
//! map from every expanded state to the state it was reached from.
use vstd::prelude::*;

use fnv::{FnvHashMap, FnvHasher};
use typed_arena::Arena;

use crate::data::Pos;
use crate::state::State;

verus! {

#[verifier::external_type_specification]
#[verifier::external_body]
pub struct ExFnvHasher(FnvHasher);

#[verifier::external_type_specification]
#[verifier::external_body]
#[verifier::reject_recursive_types(H)]
pub struct ExBuildHasherDefault<H>(std::hash::BuildHasherDefault<H>);

#[verifier::external_type_specification]
#[verifier::external_body]
#[verifier::reject_recursive_types(T)]
pub struct ExArena<T>(Arena<T>);

/// A state by its player position and its boxes.
pub type StateView = (Pos, Seq<Pos>);

/// What the map of previous states holds: for every state (by its player position and
/// boxes) the state it was reached from.
pub uninterp spec fn prev_links(m: FnvHashMap<&State, &State>) -> Map<StateView, StateView>;

/// `Arena::new` of typed_arena: an empty arena.
#[verifier::external_body]
pub(crate) fn arena_new() -> (a: Arena<State>) {
    Arena::new()
}

/// `Arena::alloc` of typed_arena: moves the state into the arena and returns a reference
/// to it that lives as long as the arena.
#[verifier::external_body]
pub(crate) fn arena_alloc<'a>(arena: &'a Arena<State>, s: State) -> (r: &'a State)
    ensures
        r@ == s@,
{
    arena.alloc(s)
}

/// `FnvHashMap::default` of fnv: an empty map.
#[verifier::external_body]
pub(crate) fn prevs_new<'a>() -> (m: FnvHashMap<&'a State, &'a State>)
    ensures
        prev_links(m).dom() == Set::<StateView>::empty(),
{
    FnvHashMap::default()
}

/// `HashMap::contains_key` on the FNV map: whether a state equal to `s` is a key.
#[verifier::external_body]
pub(crate) fn prevs_contains<'a>(m: &FnvHashMap<&'a State, &'a State>, s: &'a State) -> (b: bool)
    ensures
        b == prev_links(*m).contains_key(s@),
{
    m.contains_key(s)
}

/// `HashMap::insert` on the FNV map: afterwards `s` maps to `prev`.
#[verifier::external_body]
pub(crate) fn prevs_insert<'a>(m: &mut FnvHashMap<&'a State, &'a State>, s: &'a State, prev: &'a State)
    ensures
        prev_links(*final(m)) == prev_links(*old(m)).insert(s@, prev@),
{
    m.insert(s, prev);
}

/// `HashMap::get` on the FNV map: the state that `s` maps to, if any.
#[verifier::external_body]
pub(crate) fn prevs_get<'a>(m: &FnvHashMap<&'a State, &'a State>, s: &'a State) -> (r: Option<&'a State>)
    ensures
        match r {
            Some(p) => prev_links(*m).contains_key(s@) && p@ == prev_links(*m)[s@],
            None => !prev_links(*m).contains_key(s@),
        },
{
    m.get(s).copied()
}

} // verus!
