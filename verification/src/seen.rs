//! Sets of strings and of node ids, and maps from names to ids, held in
//! `ahash`'s hash collections.

use vstd::prelude::*;
use ahash::{AHashMap, AHashSet, RandomState};

verus! {

#[verifier::external_type_specification]
#[verifier::external_body]
#[verifier::reject_recursive_types(T)]
#[verifier::reject_recursive_types(S)]
pub struct ExAHashSet<T, S>(AHashSet<T, S>);

#[verifier::external_type_specification]
#[verifier::external_body]
pub struct ExRandomState(RandomState);

/// The strings an `AHashSet<String>` holds, each by its characters.
pub uninterp spec fn string_set_contents(s: AHashSet<String, RandomState>) -> Set<Seq<char>>;

/// `AHashSet::new`: an empty set.
#[verifier::external_body]
pub(crate) fn string_set_new() -> (s: AHashSet<String, RandomState>)
    ensures
        string_set_contents(s) == Set::<Seq<char>>::empty(),
{
    AHashSet::new()
}

/// `HashSet::insert` (reached through `AHashSet`'s `DerefMut`): adds `value`
/// and answers whether it was absent. `String`'s `Eq` and `Hash` agree with
/// equality of the characters, so membership is membership of the characters.
#[verifier::external_body]
pub(crate) fn string_set_insert(s: &mut AHashSet<String, RandomState>, value: String) -> (added: bool)
    ensures
        added == !string_set_contents(*old(s)).contains(value@),
        string_set_contents(*final(s)) == string_set_contents(*old(s)).insert(value@),
{
    s.insert(value)
}

/// The ids an `AHashSet<u32>` holds.
pub uninterp spec fn id_set_contents(s: AHashSet<u32, RandomState>) -> Set<u32>;

/// `AHashSet::new`: an empty set of ids.
#[verifier::external_body]
pub(crate) fn id_set_new() -> (s: AHashSet<u32, RandomState>)
    ensures
        id_set_contents(s) == Set::<u32>::empty(),
{
    AHashSet::new()
}

/// `HashSet::insert` on ids: adds `value`, answers whether it was absent.
#[verifier::external_body]
pub(crate) fn id_set_insert(s: &mut AHashSet<u32, RandomState>, value: u32) -> (added: bool)
    ensures
        added == !id_set_contents(*old(s)).contains(value),
        id_set_contents(*final(s)) == id_set_contents(*old(s)).insert(value),
{
    s.insert(value)
}

/// `HashSet::contains` on ids.
#[verifier::external_body]
pub(crate) fn id_set_contains(s: &AHashSet<u32, RandomState>, value: u32) -> (r: bool)
    ensures
        r == id_set_contents(*s).contains(value),
{
    s.contains(&value)
}

#[verifier::external_type_specification]
#[verifier::external_body]
#[verifier::reject_recursive_types(K)]
#[verifier::reject_recursive_types(V)]
#[verifier::reject_recursive_types(S)]
pub struct ExAHashMap<K, V, S>(AHashMap<K, V, S>);

/// The `name -> id` pairs an `AHashMap<String, u32>` holds, names by their
/// characters.
pub uninterp spec fn name_map_contents(m: AHashMap<String, u32, RandomState>) -> Map<Seq<char>, u32>;

/// `AHashMap::new`: an empty map.
#[verifier::external_body]
pub(crate) fn name_map_new() -> (fresh: AHashMap<String, u32, RandomState>)
    ensures
        name_map_contents(fresh).dom() == Set::<Seq<char>>::empty(),
{
    AHashMap::new()
}

/// `AHashMap::insert`: `name` now maps to `id`, whatever it mapped to.
#[verifier::external_body]
pub(crate) fn name_map_insert(m: &mut AHashMap<String, u32, RandomState>, name: String, id: u32)
    ensures
        name_map_contents(*final(m)) == name_map_contents(*old(m)).insert(name@, id),
{
    m.insert(name, id);
}

/// `AHashMap::get` by a `&str` key.
#[verifier::external_body]
pub(crate) fn name_map_get(m: &AHashMap<String, u32, RandomState>, name: &str) -> (r: Option<u32>)
    ensures
        r == (if name_map_contents(*m).dom().contains(name@) { Some(name_map_contents(*m)[name@]) } else { None }),
{
    m.get(name).copied()
}

/// The `id -> name` pairs an `AHashMap<u32, String>` holds, names by their
/// characters.
pub uninterp spec fn id_map_contents(m: AHashMap<u32, String, RandomState>) -> Map<u32, Seq<char>>;

/// `AHashMap::new`: an empty map from ids to names.
#[verifier::external_body]
pub(crate) fn id_map_new() -> (fresh: AHashMap<u32, String, RandomState>)
    ensures
        id_map_contents(fresh).dom() == Set::<u32>::empty(),
{
    AHashMap::new()
}

/// `AHashMap::insert`: `id` now maps to `name`, whatever it mapped to.
#[verifier::external_body]
pub(crate) fn id_map_insert(m: &mut AHashMap<u32, String, RandomState>, id: u32, name: String)
    ensures
        id_map_contents(*final(m)) == id_map_contents(*old(m)).insert(id, name@),
{
    m.insert(id, name);
}

/// `AHashMap::get`, the name cloned out.
#[verifier::external_body]
pub(crate) fn id_map_get(m: &AHashMap<u32, String, RandomState>, id: u32) -> (r: Option<String>)
    ensures
        match r {
            Some(name) => id_map_contents(*m).dom().contains(id) && name@ == id_map_contents(*m)[id],
            None => !id_map_contents(*m).dom().contains(id),
        },
{
    m.get(&id).cloned()
}

/// `HashSet::contains` on strings.
#[verifier::external_body]
pub(crate) fn string_set_contains(s: &AHashSet<String, RandomState>, value: &str) -> (r: bool)
    ensures
        r == string_set_contents(*s).contains(value@),
{
    s.contains(value)
}

/// The pairs an `AHashSet<u64>` of packed `(target, neighbour)` ids holds.
pub uninterp spec fn pair_set_contents(s: AHashSet<u64, RandomState>) -> Set<u64>;

/// `HashSet::insert` on packed pairs.
#[verifier::external_body]
pub(crate) fn pair_set_insert(s: &mut AHashSet<u64, RandomState>, value: u64) -> (added: bool)
    ensures
        added == !pair_set_contents(*old(s)).contains(value),
        pair_set_contents(*final(s)) == pair_set_contents(*old(s)).insert(value),
{
    s.insert(value)
}

/// The pairs of the set, each once, in the order the set walks them (which
/// depends on its hasher's seed).
#[verifier::external_body]
pub(crate) fn pair_set_items(s: &AHashSet<u64, RandomState>) -> (r: Vec<u64>)
    ensures
        r@.to_set() == pair_set_contents(*s),
        r@.no_duplicates(),
{
    s.iter().copied().collect()
}

/// The `(id, name)` pairs of the map, each once, in the order the map walks
/// them (which depends on its hasher's seed).
#[verifier::external_body]
pub(crate) fn id_map_items(m: &AHashMap<u32, String, RandomState>) -> (r: Vec<(u32, String)>)
    ensures
        r@.len() == id_map_contents(*m).dom().len(),
        forall|k: int| 0 <= k < r@.len() ==> id_map_contents(*m).dom().contains((#[trigger] r@[k]).0)
            && id_map_contents(*m)[r@[k].0] == r@[k].1@,
        forall|j: int, k: int| 0 <= j < k < r@.len() ==> (#[trigger] r@[j]).0 != (#[trigger] r@[k]).0,
        forall|id: u32| #[trigger] id_map_contents(*m).dom().contains(id) ==> exists|k: int| 0 <= k < r@.len() && (#[trigger] r@[k]).0 == id,
{
    m.iter().map(|(id, name)| (*id, name.clone())).collect()
}

/// `HashSet::len` on strings: how many the set holds.
#[verifier::external_body]
pub(crate) fn string_set_len(s: &AHashSet<String, RandomState>) -> (n: usize)
    ensures
        n == string_set_contents(*s).len(),
{
    s.len()
}

/// `HashSet::len` on ids: how many the set holds.
#[verifier::external_body]
pub(crate) fn id_set_len(s: &AHashSet<u32, RandomState>) -> (n: usize)
    ensures
        n == id_set_contents(*s).len(),
{
    s.len()
}

/// `HashMap::len`: how many ids the map holds.
#[verifier::external_body]
pub(crate) fn id_map_len(m: &AHashMap<u32, String, RandomState>) -> (n: usize)
    ensures
        n == id_map_contents(*m).dom().len(),
{
    m.len()
}

/// `HashSet::new` for packed pairs: an empty set.
#[verifier::external_body]
pub(crate) fn pair_set_new() -> (s: AHashSet<u64, RandomState>)
    ensures
        pair_set_contents(s) == Set::<u64>::empty(),
{
    AHashSet::new()
}

} // verus!
