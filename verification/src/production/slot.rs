use vstd::prelude::*;
use slotmap::{Key, KeyData, SlotMap};
use crate::production::Project;
use crate::production::asset::{Asset, AssetPool, Ticket};
use crate::production::cut::Cut;
use crate::production::task::Task;
use crate::production::workflow::WorkflowType;

verus! {

/// A `slotmap::SlotMap` under its default key type, its contents opaque.
/// What a map holds is named below, one name per value type, and each
/// method of `SlotMap` that the library calls has a wrapper below that
/// states its effect on that name.
///
/// A key crosses the boundary as the number `KeyData::as_ffi` gives for it;
/// `KeyData::from_ffi` turns such a number back into the same key.
#[verifier::external_body]
#[verifier::reject_recursive_types(V)]
pub struct SlotPool<V> {
    map: SlotMap<slotmap::DefaultKey, V>,
}

/// The upper half of a key number is the version of its slot, the lower half
/// the slot's index. A slot that holds a value has an odd version, so the
/// number of every key that a map gives out has an odd upper half, and
/// `KeyData::from_ffi` gives back exactly the key of such a number.
pub open spec fn valid_key(k: u64) -> bool {
    (k / 0x1_0000_0000) % 2 == 1
}

/// A slot map panics on an insertion when it holds this many values.
pub open spec fn slot_capacity() -> nat {
    0xffff_fffe
}

// ---------------------------------------------------------------------------
// Cuts

/// What a pool of cuts holds, by key number.
pub uninterp spec fn cut_slots(m: SlotPool<Cut>) -> Map<u64, Cut>;

/// `SlotMap::with_key`: a map that holds nothing.
#[verifier::external_body]
pub(crate) fn cut_pool_new() -> (r: SlotPool<Cut>)
    ensures
        cut_slots(r).dom().is_empty(),
{
    SlotPool { map: SlotMap::with_key() }
}

/// `SlotMap::get`: the value under the key, if the map holds one.
#[verifier::external_body]
pub(crate) fn cut_pool_get(m: &SlotPool<Cut>, k: u64) -> (r: Option<&Cut>)
    requires
        valid_key(k),
    ensures
        r is Some <==> cut_slots(*m).contains_key(k),
        r is Some ==> *r.unwrap() == cut_slots(*m)[k],
{
    m.map.get(KeyData::from_ffi(k).into())
}

/// `SlotMap::get_mut`: the value under the key, to be changed in place.
#[verifier::external_body]
pub(crate) fn cut_pool_get_mut(m: &mut SlotPool<Cut>, k: u64) -> (r: Option<&mut Cut>)
    requires
        valid_key(k),
    ensures
        r is Some <==> cut_slots(*old(m)).contains_key(k),
        r is Some ==> *r.unwrap() == cut_slots(*old(m))[k] && cut_slots(*final(m)) == cut_slots(
            *old(m),
        ).insert(k, *final(r.unwrap())),
        r is None ==> cut_slots(*final(m)) == cut_slots(*old(m)),
{
    m.map.get_mut(KeyData::from_ffi(k).into())
}

/// `SlotMap::insert`: stores the value under a key that the map did not hold.
#[verifier::external_body]
pub(crate) fn cut_pool_insert(m: &mut SlotPool<Cut>, v: Cut) -> (k: u64)
    requires
        cut_slots(*old(m)).dom().finite(),
        cut_slots(*old(m)).len() < slot_capacity(),
    ensures
        valid_key(k),
        !cut_slots(*old(m)).contains_key(k),
        cut_slots(*final(m)) == cut_slots(*old(m)).insert(k, v),
{
    m.map.insert(v).data().as_ffi()
}

/// `SlotMap::remove`: takes the value under the key out of the map.
#[verifier::external_body]
pub(crate) fn cut_pool_remove(m: &mut SlotPool<Cut>, k: u64) -> (r: Option<Cut>)
    requires
        valid_key(k),
    ensures
        r == cut_slots(*old(m)).get(k),
        cut_slots(*final(m)) == cut_slots(*old(m)).remove(k),
{
    m.map.remove(KeyData::from_ffi(k).into())
}

// ---------------------------------------------------------------------------
// Assets, each with the ticket that stands for it while no task holds it

/// What a pool of assets holds, by key number.
pub uninterp spec fn asset_slots(m: SlotPool<(Option<Ticket>, Asset)>) -> Map<
    u64,
    (Option<Ticket>, Asset),
>;

/// `SlotMap::with_key`: a map that holds nothing.
#[verifier::external_body]
pub(crate) fn asset_pool_new() -> (r: SlotPool<(Option<Ticket>, Asset)>)
    ensures
        asset_slots(r).dom().is_empty(),
{
    SlotPool { map: SlotMap::with_key() }
}

/// `SlotMap::get`: the value under the key, if the map holds one.
#[verifier::external_body]
pub(crate) fn asset_pool_get(m: &SlotPool<(Option<Ticket>, Asset)>, k: u64) -> (r: Option<
    &(Option<Ticket>, Asset),
>)
    requires
        valid_key(k),
    ensures
        r is Some <==> asset_slots(*m).contains_key(k),
        r is Some ==> *r.unwrap() == asset_slots(*m)[k],
{
    m.map.get(KeyData::from_ffi(k).into())
}

/// `SlotMap::get_mut`: the value under the key, to be changed in place.
#[verifier::external_body]
pub(crate) fn asset_pool_get_mut(m: &mut SlotPool<(Option<Ticket>, Asset)>, k: u64) -> (r: Option<
    &mut (Option<Ticket>, Asset),
>)
    requires
        valid_key(k),
    ensures
        r is Some <==> asset_slots(*old(m)).contains_key(k),
        r is Some ==> *r.unwrap() == asset_slots(*old(m))[k] && asset_slots(*final(m))
            == asset_slots(*old(m)).insert(k, *final(r.unwrap())),
        r is None ==> asset_slots(*final(m)) == asset_slots(*old(m)),
{
    m.map.get_mut(KeyData::from_ffi(k).into())
}

/// `SlotMap::insert_with_key`: stores, under a key that the map did not
/// hold, the value that `AssetPool::entry` makes for that key.
#[verifier::external_body]
pub(crate) fn asset_pool_insert_with_key(
    m: &mut SlotPool<(Option<Ticket>, Asset)>,
    workflow_type: WorkflowType,
    name: String,
) -> (k: u64)
    requires
        asset_slots(*old(m)).dom().finite(),
        asset_slots(*old(m)).len() < slot_capacity(),
    ensures
        valid_key(k),
        !asset_slots(*old(m)).contains_key(k),
        asset_slots(*final(m)) == asset_slots(*old(m)).insert(
            k,
            AssetPool::entry_of(k, workflow_type, name),
        ),
{
    m.map.insert_with_key(|key| AssetPool::entry(key.data().as_ffi(), workflow_type, name)).data().as_ffi()
}

/// `SlotMap::remove`: takes the value under the key out of the map.
#[verifier::external_body]
pub(crate) fn asset_pool_remove(m: &mut SlotPool<(Option<Ticket>, Asset)>, k: u64) -> (r: Option<
    (Option<Ticket>, Asset),
>)
    requires
        valid_key(k),
    ensures
        r == asset_slots(*old(m)).get(k),
        asset_slots(*final(m)) == asset_slots(*old(m)).remove(k),
{
    m.map.remove(KeyData::from_ffi(k).into())
}

// ---------------------------------------------------------------------------
// Tasks

/// What a pool of tasks holds, by key number.
pub uninterp spec fn task_slots(m: SlotPool<Task>) -> Map<u64, Task>;

/// `SlotMap::with_key`: a map that holds nothing.
#[verifier::external_body]
pub(crate) fn task_pool_new() -> (r: SlotPool<Task>)
    ensures
        task_slots(r).dom().is_empty(),
{
    SlotPool { map: SlotMap::with_key() }
}

/// `SlotMap::get`: the value under the key, if the map holds one.
#[verifier::external_body]
pub(crate) fn task_pool_get(m: &SlotPool<Task>, k: u64) -> (r: Option<&Task>)
    requires
        valid_key(k),
    ensures
        r is Some <==> task_slots(*m).contains_key(k),
        r is Some ==> *r.unwrap() == task_slots(*m)[k],
{
    m.map.get(KeyData::from_ffi(k).into())
}

/// `SlotMap::get_mut`: the value under the key, to be changed in place.
#[verifier::external_body]
pub(crate) fn task_pool_get_mut(m: &mut SlotPool<Task>, k: u64) -> (r: Option<&mut Task>)
    requires
        valid_key(k),
    ensures
        r is Some <==> task_slots(*old(m)).contains_key(k),
        r is Some ==> *r.unwrap() == task_slots(*old(m))[k] && task_slots(*final(m)) == task_slots(
            *old(m),
        ).insert(k, *final(r.unwrap())),
        r is None ==> task_slots(*final(m)) == task_slots(*old(m)),
{
    m.map.get_mut(KeyData::from_ffi(k).into())
}

/// `SlotMap::insert`: stores the value under a key that the map did not hold.
#[verifier::external_body]
pub(crate) fn task_pool_insert(m: &mut SlotPool<Task>, v: Task) -> (k: u64)
    requires
        task_slots(*old(m)).dom().finite(),
        task_slots(*old(m)).len() < slot_capacity(),
    ensures
        valid_key(k),
        !task_slots(*old(m)).contains_key(k),
        task_slots(*final(m)) == task_slots(*old(m)).insert(k, v),
{
    m.map.insert(v).data().as_ffi()
}

/// `SlotMap::remove`: takes the value under the key out of the map.
#[verifier::external_body]
pub(crate) fn task_pool_remove(m: &mut SlotPool<Task>, k: u64) -> (r: Option<Task>)
    requires
        valid_key(k),
    ensures
        r == task_slots(*old(m)).get(k),
        task_slots(*final(m)) == task_slots(*old(m)).remove(k),
{
    m.map.remove(KeyData::from_ffi(k).into())
}

// ---------------------------------------------------------------------------
// Projects

/// What a pool of projects holds, by key number.
pub uninterp spec fn project_slots(m: SlotPool<Project>) -> Map<u64, Project>;

/// `SlotMap::with_key`: a map that holds nothing.
#[verifier::external_body]
pub(crate) fn project_pool_new() -> (r: SlotPool<Project>)
    ensures
        project_slots(r).dom().is_empty(),
{
    SlotPool { map: SlotMap::with_key() }
}

/// `SlotMap::get`: the value under the key, if the map holds one.
#[verifier::external_body]
pub(crate) fn project_pool_get(m: &SlotPool<Project>, k: u64) -> (r: Option<&Project>)
    requires
        valid_key(k),
    ensures
        r is Some <==> project_slots(*m).contains_key(k),
        r is Some ==> *r.unwrap() == project_slots(*m)[k],
{
    m.map.get(KeyData::from_ffi(k).into())
}

/// `SlotMap::get_mut`: the value under the key, to be changed in place.
#[verifier::external_body]
pub(crate) fn project_pool_get_mut(m: &mut SlotPool<Project>, k: u64) -> (r: Option<&mut Project>)
    requires
        valid_key(k),
    ensures
        r is Some <==> project_slots(*old(m)).contains_key(k),
        r is Some ==> *r.unwrap() == project_slots(*old(m))[k] && project_slots(*final(m))
            == project_slots(*old(m)).insert(k, *final(r.unwrap())),
        r is None ==> project_slots(*final(m)) == project_slots(*old(m)),
{
    m.map.get_mut(KeyData::from_ffi(k).into())
}

/// `SlotMap::insert`: stores the value under a key that the map did not hold.
#[verifier::external_body]
pub(crate) fn project_pool_insert(m: &mut SlotPool<Project>, v: Project) -> (k: u64)
    requires
        project_slots(*old(m)).dom().finite(),
        project_slots(*old(m)).len() < slot_capacity(),
    ensures
        valid_key(k),
        !project_slots(*old(m)).contains_key(k),
        project_slots(*final(m)) == project_slots(*old(m)).insert(k, v),
{
    m.map.insert(v).data().as_ffi()
}

/// `SlotMap::remove`: takes the value under the key out of the map.
#[verifier::external_body]
pub(crate) fn project_pool_remove(m: &mut SlotPool<Project>, k: u64) -> (r: Option<Project>)
    requires
        valid_key(k),
    ensures
        r == project_slots(*old(m)).get(k),
        project_slots(*final(m)) == project_slots(*old(m)).remove(k),
{
    m.map.remove(KeyData::from_ffi(k).into())
}

} // verus!
