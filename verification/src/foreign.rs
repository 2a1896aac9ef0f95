//! Declarations of the outside types the library holds, and the trusted
//! wrappers through which it calls them.

use vstd::prelude::*;

use ahash::AHashMap;
use lasso::{Key, Rodeo, Spur};

verus! {

#[verifier::external_type_specification]
#[verifier::external_body]
#[verifier::reject_recursive_types(K)]
#[verifier::reject_recursive_types(S)]
pub struct ExRodeo<K, S>(lasso::Rodeo<K, S>);

#[verifier::external_type_specification]
#[verifier::external_body]
pub struct ExSpur(lasso::Spur);

#[verifier::external_type_specification]
#[verifier::external_body]
#[verifier::reject_recursive_types(K)]
#[verifier::reject_recursive_types(V)]
#[verifier::reject_recursive_types(S)]
pub struct ExAHashMap<K, V, S>(ahash::AHashMap<K, V, S>);

#[verifier::external_type_specification]
#[verifier::external_body]
pub struct ExAHashRandomState(ahash::RandomState);

/// The strings a `Rodeo` holds, listed by key: the string of key `k` stands at
/// index `k.into_usize()`.
pub uninterp spec fn rodeo_strings(r: Rodeo) -> Seq<Seq<char>>;

/// `lasso::Rodeo::new`: an interner that holds no string.
#[verifier::external_body]
pub(crate) fn rodeo_new() -> (r: Rodeo)
    ensures
        rodeo_strings(r) == Seq::<Seq<char>>::empty(),
{
    Rodeo::new()
}

/// `lasso::Rodeo::get_or_intern`: when `s` is held, returns its key and leaves
/// the interner as it was; otherwise appends `s` and returns the next index.
/// The key space of `Spur` ends below `u32::MAX`; past it the call panics, so
/// `requires` keeps below it.
#[verifier::external_body]
pub(crate) fn rodeo_get_or_intern(r: &mut Rodeo, s: &str) -> (key: u32)
    requires
        rodeo_strings(*old(r)).len() + 1 < u32::MAX,
    ensures
        rodeo_strings(*old(r)).contains(s@) ==> {
            &&& rodeo_strings(*final(r)) == rodeo_strings(*old(r))
            &&& key < rodeo_strings(*old(r)).len()
            &&& rodeo_strings(*old(r))[key as int] == s@
        },
        !rodeo_strings(*old(r)).contains(s@) ==> {
            &&& rodeo_strings(*final(r)) == rodeo_strings(*old(r)).push(s@)
            &&& key == rodeo_strings(*old(r)).len()
        },
{
    r.get_or_intern(s).into_usize() as u32
}

/// `lasso::Rodeo::len`: the number of strings held.
#[verifier::external_body]
pub(crate) fn rodeo_len(r: &Rodeo) -> (n: usize)
    ensures
        n == rodeo_strings(*r).len(),
{
    r.len()
}

/// `lasso::Rodeo::resolve`: the string held under `key`.
#[verifier::external_body]
pub(crate) fn rodeo_resolve(r: &Rodeo, key: u32) -> (s: &str)
    requires
        key < rodeo_strings(*r).len(),
    ensures
        s@ == rodeo_strings(*r)[key as int],
{
    r.resolve(&Spur::try_from_usize(key as usize).unwrap())
}

/// A hash map from symbols to 16-bit slots.
pub type SlotMap = AHashMap<u32, u16>;

/// The entries of a map from symbols to 16-bit slots.
pub uninterp spec fn slot_map_entries(m: SlotMap) -> Map<u32, u16>;

/// `ahash::AHashMap::new`: an empty map.
#[verifier::external_body]
pub(crate) fn slot_map_new() -> (m: SlotMap)
    ensures
        slot_map_entries(m).is_empty(),
{
    AHashMap::new()
}

/// `AHashMap::get` (through its `HashMap`): the slot stored under `k`, if any.
#[verifier::external_body]
pub(crate) fn slot_map_get(m: &SlotMap, k: u32) -> (res: Option<u16>)
    ensures
        res == (if slot_map_entries(*m).contains_key(k) {
            Some(slot_map_entries(*m)[k])
        } else {
            None
        }),
{
    m.get(&k).copied()
}

/// `AHashMap::insert`: stores `v` under `k`, replacing what was there.
#[verifier::external_body]
pub(crate) fn slot_map_insert(m: &mut SlotMap, k: u32, v: u16)
    ensures
        slot_map_entries(*final(m)) == slot_map_entries(*old(m)).insert(k, v),
{
    m.insert(k, v);
}

} // verus!
