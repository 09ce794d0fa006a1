use vstd::prelude::*;
use crate::production::slot::{
    SlotPool, asset_pool_get, asset_pool_get_mut, asset_pool_insert_with_key, asset_pool_new,
    asset_pool_remove, asset_slots, slot_capacity, valid_key,
};
use crate::production::workflow::WorkflowType;

verus! {

/// The errors of the asset pool.
#[derive(Clone, Copy, Debug, PartialEq, Eq, Structural)]
pub enum AssetError {
    NotFound,
    InUse,
}

pub type AssetResult<T> = Result<T, AssetError>;

impl AssetError {
    /// The message that describes the error.
    pub fn message(&self) -> (r: &'static str)
        ensures
            r@ == self.message_spec(),
    {
        match self {
            AssetError::NotFound => "asset not found",
            AssetError::InUse => "asset is in use",
        }
    }

    pub open spec fn message_spec(&self) -> Seq<char> {
        match self {
            AssetError::NotFound => "asset not found"@,
            AssetError::InUse => "asset is in use"@,
        }
    }
}

/// The key of an asset in its pool.
#[derive(Clone, Copy, Debug, PartialEq, Eq, Structural, PartialOrd, Ord, Hash)]
pub struct AssetKey(u64);

impl AssetKey {
    #[verifier::type_invariant]
    spec fn inv(self) -> bool {
        valid_key(self.0)
    }

    /// The number that identifies the key.
    pub closed spec fn id(self) -> u64 {
        self.0
    }

    /// Keys with the same number are the same key.
    pub proof fn lemma_id_determines(self, other: Self)
        requires
            self.id() == other.id(),
        ensures
            self == other,
    {
    }

    pub(crate) fn from_id(k: u64) -> (r: Self)
        requires
            valid_key(k),
        ensures
            r.id() == k,
    {
        AssetKey(k)
    }

    pub(crate) fn raw(self) -> (r: u64)
        ensures
            r == self.id(),
            valid_key(r),
    {
        proof {
            use_type_invariant(&self);
        }
        self.0
    }
}

/// A piece of material that a task works on.
pub struct Asset {
    workflow_type: WorkflowType,
    name: String,
}

impl Asset {
    /// The workflow type that the asset belongs to.
    pub closed spec fn type_of(self) -> WorkflowType {
        self.workflow_type
    }

    /// The asset's name.
    pub closed spec fn name_of(self) -> Seq<char> {
        self.name@
    }

    pub fn workflow_type(&self) -> (r: WorkflowType)
        ensures
            r == self.type_of(),
    {
        self.workflow_type
    }

    pub fn name(&self) -> (r: &str)
        ensures
            r@ == self.name_of(),
    {
        self.name.as_str()
    }

    /// Renames the asset.
    pub fn set_name(&mut self, name: &str)
        ensures
            final(self).name_of() == name@,
            final(self).type_of() == old(self).type_of(),
    {
        self.name = name.to_owned();
    }
}

/// The right to work on an asset. A pool holds the ticket of each of its
/// assets until a task takes it; nothing but the pool makes one.
pub struct Ticket(AssetKey);

impl Ticket {
    /// The key of the asset that the ticket stands for.
    pub closed spec fn asset(self) -> AssetKey {
        self.0
    }

    pub fn key(&self) -> (r: AssetKey)
        ensures
            r == self.asset(),
    {
        self.0
    }
}

/// The assets of a project, each with its ticket while no task holds it.
pub struct AssetPool(SlotPool<(Option<Ticket>, Asset)>);

impl AssetPool {
    /// The assets, by key number.
    pub closed spec fn assets(self) -> Map<u64, Asset> {
        asset_slots(self.0).map_values(|e: (Option<Ticket>, Asset)| e.1)
    }

    /// Whether the pool holds the ticket of the asset under `k`.
    pub closed spec fn available(self, k: u64) -> bool {
        asset_slots(self.0)[k].0 is Some
    }

    /// Whether two pools hold the same assets with the same tickets home.
    pub open spec fn same_as(self, other: Self) -> bool {
        &&& self.assets() == other.assets()
        &&& forall|k: u64| #[trigger] self.available(k) == other.available(k)
    }

    /// The pool's invariant: finitely many assets, and each ticket in the
    /// pool is the ticket of the asset it sits with.
    pub closed spec fn wf(self) -> bool {
        &&& asset_slots(self.0).dom().finite()
        &&& forall|k: u64|
            #![trigger asset_slots(self.0)[k]]
            asset_slots(self.0).contains_key(k) ==> valid_key(k) && match asset_slots(self.0)[k].0 {
                Some(t) => t.asset().id() == k,
                None => true,
            }
    }

    /// The entry that the pool stores for a new asset under `k`.
    pub(crate) closed spec fn entry_of(k: u64, workflow_type: WorkflowType, name: String) -> (
        Option<Ticket>,
        Asset,
    ) {
        (Some(Ticket(AssetKey(k))), Asset { workflow_type, name })
    }

    /// Makes the entry for a new asset under `k`.
    pub(crate) fn entry(k: u64, workflow_type: WorkflowType, name: String) -> (r: (
        Option<Ticket>,
        Asset,
    ))
        requires
            valid_key(k),
        ensures
            r == Self::entry_of(k, workflow_type, name),
    {
        (Some(Ticket(AssetKey(k))), Asset { workflow_type, name })
    }

    /// What a successful `add_asset` leaves: a new asset under the key
    /// number `k`, of type `ty` and named `name`, with its ticket in the
    /// pool; nothing else changes.
    pub open spec fn asset_added(self, after: Self, k: u64, ty: WorkflowType, name: Seq<char>) -> bool {
        &&& !self.assets().contains_key(k)
        &&& after.assets() == self.assets().insert(k, after.assets()[k])
        &&& after.assets()[k].type_of() == ty
        &&& after.assets()[k].name_of() == name
        &&& after.available(k)
        &&& forall|j: u64| j != k ==> #[trigger] after.available(j) == self.available(j)
    }

    /// What a successful `delete_asset` leaves: the asset under the key
    /// number `k` is gone; nothing else changes.
    pub open spec fn asset_deleted(self, after: Self, k: u64) -> bool {
        &&& after.assets() == self.assets().remove(k)
        &&& forall|j: u64| j != k ==> #[trigger] after.available(j) == self.available(j)
    }

    /// An empty pool.
    pub fn new() -> (r: Self)
        ensures
            r.wf(),
            r.assets() == Map::<u64, Asset>::empty(),
    {
        let r = AssetPool(asset_pool_new());
        assert(r.assets() =~= Map::<u64, Asset>::empty());
        r
    }

    /// The asset under `key`.
    pub fn asset(&self, key: AssetKey) -> (r: AssetResult<&Asset>)
        ensures
            self.assets().contains_key(key.id()) ==> (r matches Ok(a) && *a == self.assets()[key.id()]),
            !self.assets().contains_key(key.id()) ==> r == Err::<&Asset, AssetError>(
                AssetError::NotFound,
            ),
    {
        match asset_pool_get(&self.0, key.raw()) {
            Some(entry) => Ok(&entry.1),
            None => Err(AssetError::NotFound),
        }
    }

    /// The asset under `key`, to be changed in place; its ticket stays where it is.
    pub fn asset_mut(&mut self, key: AssetKey) -> (r: AssetResult<&mut Asset>)
        requires
            old(self).wf(),
        ensures
            old(self).assets().contains_key(key.id()) ==> r is Ok,
            !old(self).assets().contains_key(key.id()) ==> r is Err && r->Err_0
                == AssetError::NotFound,
            r is Ok ==> {
                &&& *r.unwrap() == old(self).assets()[key.id()]
                &&& final(self).assets() == old(self).assets().insert(key.id(), *final(r.unwrap()))
                &&& forall|k: u64| #[trigger]
                    final(self).available(k) == old(self).available(k)
                &&& final(self).wf()
            },
            r is Err ==> final(self).same_as(*old(self)),
    {
        let k = key.raw();
        match asset_pool_get_mut(&mut self.0, k) {
            Some(entry) => Ok(&mut entry.1),
            None => Err(AssetError::NotFound),
        }
    }

    /// Adds an asset, with its ticket, under a new key.
    pub fn add_asset(&mut self, workflow_type: WorkflowType, name: String) -> (r: AssetKey)
        requires
            old(self).wf(),
            old(self).assets().len() < slot_capacity(),
        ensures
            final(self).wf(),
            old(self).asset_added(*final(self), r.id(), workflow_type, name@),
    {
        proof {
            assert(asset_slots(self.0).dom() =~= self.assets().dom());
        }
        let k = asset_pool_insert_with_key(&mut self.0, workflow_type, name);
        proof {
            assert(self.assets() =~= old(self).assets().insert(k, Asset { workflow_type, name }));
        }
        AssetKey::from_id(k)
    }

    /// Deletes the asset under `key`; an asset whose ticket a task holds stays.
    pub fn delete_asset(&mut self, key: AssetKey) -> (r: AssetResult<()>)
        requires
            old(self).wf(),
        ensures
            final(self).wf(),
            !old(self).assets().contains_key(key.id()) ==> r == Err::<(), AssetError>(
                AssetError::NotFound,
            ),
            old(self).assets().contains_key(key.id()) && !old(self).available(key.id()) ==> r
                == Err::<(), AssetError>(AssetError::InUse),
            old(self).assets().contains_key(key.id()) && old(self).available(key.id()) ==> r
                == Ok::<(), AssetError>(()),
            r is Ok ==> old(self).asset_deleted(*final(self), key.id()),
            r is Err ==> final(self).same_as(*old(self)),
    {
        let k = key.raw();
        let present = match asset_pool_get(&self.0, k) {
            None => 0u8,
            Some(entry) => match &entry.0 {
                None => 1u8,
                Some(_) => 2u8,
            },
        };
        if present == 0 {
            Err(AssetError::NotFound)
        } else if present == 1 {
            Err(AssetError::InUse)
        } else {
            let _ = asset_pool_remove(&mut self.0, k);
            proof {
                assert(self.assets() =~= old(self).assets().remove(k));
            }
            Ok(())
        }
    }

    /// Takes the ticket of the asset under `key` out of the pool.
    pub(crate) fn take_ticket(&mut self, key: AssetKey) -> (r: AssetResult<Ticket>)
        requires
            old(self).wf(),
        ensures
            final(self).wf(),
            final(self).assets() == old(self).assets(),
            !old(self).assets().contains_key(key.id()) ==> r == Err::<Ticket, AssetError>(
                AssetError::NotFound,
            ),
            old(self).assets().contains_key(key.id()) && !old(self).available(key.id()) ==> r
                == Err::<Ticket, AssetError>(AssetError::InUse),
            old(self).assets().contains_key(key.id()) && old(self).available(key.id()) ==> (
            r matches Ok(t) && t.asset() == key),
            r is Ok ==> !final(self).available(key.id()),
            forall|k: u64| k != key.id() ==> #[trigger] final(self).available(k) == old(self).available(k),
            r is Err ==> final(self).same_as(*old(self)),
    {
        let k = key.raw();
        match asset_pool_get_mut(&mut self.0, k) {
            None => Err(AssetError::NotFound),
            Some(entry) => match entry.0.take() {
                Some(ticket) => {
                    proof {
                        assert(self.assets() =~= old(self).assets());
                        use_type_invariant(&ticket.0);
                        use_type_invariant(&key);
                    }
                    Ok(ticket)
                },
                None => {
                    proof {
                        assert(asset_slots(self.0) =~= asset_slots(old(self).0));
                    }
                    Err(AssetError::InUse)
                },
            },
        }
    }

    /// Puts a ticket that a task held back into the pool.
    pub(crate) fn return_ticket(&mut self, ticket: Ticket)
        requires
            old(self).wf(),
            old(self).assets().contains_key(ticket.asset().id()),
            !old(self).available(ticket.asset().id()),
        ensures
            final(self).wf(),
            final(self).assets() == old(self).assets(),
            final(self).available(ticket.asset().id()),
            forall|k: u64|
                k != ticket.asset().id() ==> #[trigger] final(self).available(k) == old(
                    self,
                ).available(k),
    {
        let k = ticket.0.raw();
        match asset_pool_get_mut(&mut self.0, k) {
            Some(entry) => {
                entry.0 = Some(ticket);
                proof {
                    assert(self.assets() =~= old(self).assets());
                }
            },
            None => {},
        }
    }
}

/// Deleting an asset that was just added succeeds, and gives back the pool
/// as it was before the addition.
pub proof fn lemma_delete_undoes_add_asset(
    p0: AssetPool,
    p1: AssetPool,
    p2: AssetPool,
    k: u64,
    ty: WorkflowType,
    name: Seq<char>,
)
    requires
        p0.asset_added(p1, k, ty, name),
        p1.asset_deleted(p2, k),
    ensures
        p1.assets().contains_key(k) && p1.available(k),
        !p2.assets().contains_key(k),
        p2.assets() == p0.assets(),
        forall|j: u64| j != k ==> #[trigger] p2.available(j) == p0.available(j),
{
    assert(p2.assets() =~= p0.assets());
}

impl Default for AssetPool {
    fn default() -> (r: Self)
        ensures
            r.wf(),
            r.assets() == Map::<u64, Asset>::empty(),
    {
        AssetPool::new()
    }
}

} // verus!
