//! The token index: a slab that maps each live token to the arena slot of
//! its task. Tokens are dense small integers; a freed token may be handed
//! out again by a later insertion.

use vstd::prelude::*;

verus! {

#[verifier::external_type_specification]
#[verifier::external_body]
#[verifier::reject_recursive_types(T)]
pub struct ExSlab<T>(slab::Slab<T>);

/// The entries a slab currently holds, as a map from key to stored value.
pub uninterp spec fn slab_entries(s: slab::Slab<usize>) -> Map<usize, usize>;

/// Relies on slab::Slab::new for a starting slab value; nothing is assumed
/// of it until `slab_reset_with` overwrites it.
#[verifier::external_body]
pub(crate) fn slab_alloc() -> slab::Slab<usize> {
    slab::Slab::new()
}

/// Relies on slab::Slab::new and slab::Slab::insert: a fresh slab holds no
/// entries, and its first insertion stores the given value under key 0 and
/// returns that key.
#[verifier::external_body]
pub(crate) fn slab_reset_with(s: &mut slab::Slab<usize>, val: usize) -> (key: usize)
    ensures
        key == 0,
        slab_entries(*final(s)) == Map::<usize, usize>::empty().insert(key, val),
{
    *s = slab::Slab::new();
    s.insert(val)
}

/// Relies on slab::Slab::insert: the value is stored under a key that was
/// vacant, and that key is returned.
#[verifier::external_body]
pub(crate) fn slab_insert(s: &mut slab::Slab<usize>, val: usize) -> (key: usize)
    ensures
        !slab_entries(*old(s)).contains_key(key),
        slab_entries(*final(s)) == slab_entries(*old(s)).insert(key, val),
{
    s.insert(val)
}

/// Relies on slab::Slab::remove: the value stored under an occupied key is
/// taken out and returned, and the key becomes vacant.
#[verifier::external_body]
pub(crate) fn slab_remove(s: &mut slab::Slab<usize>, key: usize) -> (val: usize)
    requires
        slab_entries(*old(s)).contains_key(key),
    ensures
        val == slab_entries(*old(s))[key],
        slab_entries(*final(s)) == slab_entries(*old(s)).remove(key),
{
    s.remove(key)
}

/// Relies on slab::Slab::get: the value stored under an occupied key, or
/// nothing for a vacant one.
#[verifier::external_body]
pub(crate) fn slab_get(s: &slab::Slab<usize>, key: usize) -> (r: Option<usize>)
    ensures
        r == (if slab_entries(*s).contains_key(key) {
            Some(slab_entries(*s)[key])
        } else {
            None::<usize>
        }),
{
    match s.get(key) {
        Some(v) => Some(*v),
        None => None,
    }
}

} // verus!
