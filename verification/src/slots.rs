//! The slab that gives out the handles.
//!
//! `slab::Slab` keeps its slots in a vector and threads a stack through the
//! vacant ones. Nothing in this file is proved: each contract restates, over
//! the two models below, what the slab's source does. The registry's own
//! invariants are proved from these contracts in [`crate::event`].

use slab::Slab;
use vstd::prelude::*;

verus! {

/// `slab::Slab`, whose fields the verifier does not see.
#[verifier::external_type_specification]
#[verifier::external_body]
#[verifier::reject_recursive_types(T)]
pub struct ExSlab<T>(Slab<T>);

/// For each slot of the slab, in index order, whether it is occupied.
pub uninterp spec fn slab_slots(slab: Slab<()>) -> Seq<bool>;

/// The slab's stack of vacant slots, the one that `insert` fills next at the
/// end.
pub uninterp spec fn slab_free(slab: Slab<()>) -> Seq<int>;

/// `Slab::new`: a slab without slots.
#[verifier::external_body]
pub(crate) fn slab_new() -> (slab: Slab<()>)
    ensures
        slab_slots(slab) == Seq::<bool>::empty(),
        slab_free(slab) == Seq::<int>::empty(),
{
    Slab::new()
}

/// `Slab::insert`: occupies the slot on top of the vacant stack and pops it;
/// with no vacant slot, appends an occupied slot. Returns that slot's index.
///
/// Running out of memory while the slot vector grows is outside the model, as
/// it is for `Vec::push`.
#[verifier::external_body]
pub(crate) fn slab_insert(slab: &mut Slab<()>) -> (key: usize)
    ensures
        slab_free(*old(slab)).len() > 0 ==> {
            &&& key == slab_free(*old(slab)).last()
            &&& slab_slots(*final(slab)) == slab_slots(*old(slab)).update(key as int, true)
            &&& slab_free(*final(slab)) == slab_free(*old(slab)).drop_last()
        },
        slab_free(*old(slab)).len() == 0 ==> {
            &&& key == slab_slots(*old(slab)).len()
            &&& slab_slots(*final(slab)) == slab_slots(*old(slab)).push(true)
            &&& slab_free(*final(slab)) == slab_free(*old(slab))
        },
{
    slab.insert(())
}

/// `Slab::try_remove`: if slot `key` exists and is occupied, vacates it,
/// pushes it on the vacant stack and returns `Some`; else changes nothing and
/// returns `None`.
#[verifier::external_body]
pub(crate) fn slab_try_remove(slab: &mut Slab<()>, key: usize) -> (removed: Option<()>)
    ensures
        removed.is_some() == (key < slab_slots(*old(slab)).len() && slab_slots(*old(slab))[key as int]),
        removed.is_some() ==> {
            &&& slab_slots(*final(slab)) == slab_slots(*old(slab)).update(key as int, false)
            &&& slab_free(*final(slab)) == slab_free(*old(slab)).push(key as int)
        },
        removed.is_none() ==> {
            &&& slab_slots(*final(slab)) == slab_slots(*old(slab))
            &&& slab_free(*final(slab)) == slab_free(*old(slab))
        },
{
    slab.try_remove(key)
}

/// `Slab::clear`: drops every slot, occupied or vacant.
#[verifier::external_body]
pub(crate) fn slab_clear(slab: &mut Slab<()>)
    ensures
        slab_slots(*final(slab)) == Seq::<bool>::empty(),
        slab_free(*final(slab)) == Seq::<int>::empty(),
{
    slab.clear()
}

/// `Slab::iter`, keys only: the indices of the occupied slots, each once, in
/// ascending order.
#[verifier::external_body]
pub(crate) fn slab_keys(slab: &Slab<()>) -> (keys: Vec<usize>)
    ensures
        forall|i: int, j: int| 0 <= i < j < keys@.len() ==> keys@[i] < keys@[j],
        forall|i: int|
            0 <= i < keys@.len() ==> {
                &&& (#[trigger] keys@[i]) < slab_slots(*slab).len()
                &&& slab_slots(*slab)[keys@[i] as int]
            },
        forall|k: int|
            0 <= k < slab_slots(*slab).len() && #[trigger] slab_slots(*slab)[k] ==> exists|i: int|
                0 <= i < keys@.len() && keys@[i] == k,
{
    slab.iter().map(|(key, _)| key).collect()
}

} // verus!
