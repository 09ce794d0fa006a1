pub mod asset;
pub mod cut;
pub mod task;
pub mod workflow;
mod slot;

use vstd::prelude::*;
use bimap::BiBTreeMap;
use std::collections::BTreeMap;
use crate::production::asset::{AssetError, AssetKey, AssetPool};
use crate::production::cut::{CutError, CutSequence};
use crate::production::slot::{
    SlotPool, project_pool_get, project_pool_get_mut, project_pool_insert, project_pool_new,
    project_pool_remove, project_slots, slot_capacity, valid_key,
};
use crate::production::task::{TaskError, TaskKey, TaskList};
use crate::production::workflow::WorkflowError;
use vstd::std_specs::cmp::PartialEqSpecImpl;

verus! {

// ---------------------------------------------------------------------------
// Errors

/// The errors of the participants of a project.
#[derive(Clone, Copy, Debug, PartialEq, Eq, Structural)]
pub enum ParticipantError {
    NotFound,
}

pub type ParticipantResult<T> = Result<T, ParticipantError>;

impl ParticipantError {
    /// The message that describes the error.
    pub fn message(&self) -> (r: &'static str)
        ensures
            r@ == self.message_spec(),
    {
        match self {
            ParticipantError::NotFound => "participant not found",
        }
    }

    pub open spec fn message_spec(&self) -> Seq<char> {
        match self {
            ParticipantError::NotFound => "participant not found"@,
        }
    }
}

/// The errors of projects: those of their parts, passed through, and the
/// registry's own.
#[derive(Clone, Copy, Debug, PartialEq, Eq, Structural)]
pub enum ProjectError {
    Asset(AssetError),
    Cut(CutError),
    Task(TaskError),
    Workflow(WorkflowError),
    Participant(ParticipantError),
    IdDuplicated,
    NotFound,
}

pub type ProjectResult<T> = Result<T, ProjectError>;

impl ProjectError {
    /// The message that describes the error; a passed-through error keeps its own.
    pub fn message(&self) -> (r: &'static str)
        ensures
            r@ == self.message_spec(),
    {
        match self {
            ProjectError::Asset(e) => e.message(),
            ProjectError::Cut(e) => e.message(),
            ProjectError::Task(e) => e.message(),
            ProjectError::Workflow(e) => e.message(),
            ProjectError::Participant(e) => e.message(),
            ProjectError::IdDuplicated => "id duplicated",
            ProjectError::NotFound => "project not found",
        }
    }

    pub open spec fn message_spec(&self) -> Seq<char> {
        match self {
            ProjectError::Asset(e) => e.message_spec(),
            ProjectError::Cut(e) => e.message_spec(),
            ProjectError::Task(e) => e.message_spec(),
            ProjectError::Workflow(e) => e.message_spec(),
            ProjectError::Participant(e) => e.message_spec(),
            ProjectError::IdDuplicated => "id duplicated"@,
            ProjectError::NotFound => "project not found"@,
        }
    }
}

// ---------------------------------------------------------------------------
// Identifiers

/// The identifier of a project on the server.
#[derive(Clone, Copy, Debug, PartialEq, Eq, Structural, PartialOrd, Ord, Hash)]
pub struct ServerId(u64);

impl ServerId {
    pub closed spec fn value(self) -> u64 {
        self.0
    }

    /// Server identifiers with the same number are the same identifier.
    pub proof fn lemma_value_determines(self, other: Self)
        requires
            self.value() == other.value(),
        ensures
            self == other,
    {
    }

    pub fn new(raw: u64) -> (r: Self)
        ensures
            r.value() == raw,
    {
        ServerId(raw)
    }

    pub fn inner(&self) -> (r: u64)
        ensures
            r == self.value(),
    {
        self.0
    }
}

/// `internment::Intern::new`, then `Intern::as_ref`: a copy of the text
/// that lives as long as the program, shared by every string with that text.
#[verifier::external_body]
fn intern(raw: String) -> (r: &'static str)
    ensures
        r@ == raw@,
{
    internment::Intern::new(raw).as_ref().as_str()
}

/// `<str as PartialEq>::eq`: two strings are equal exactly when they hold
/// the same characters.
#[verifier::external_body]
fn same_text(a: &str, b: &str) -> (r: bool)
    ensures
        r == (a@ == b@),
{
    a == b
}

/// The identifier of a project's drive: an interned name.
#[derive(Clone, Copy, Debug, Eq, PartialOrd, Ord, Hash)]
pub struct DriveId(&'static str);

impl PartialEq for DriveId {
    /// Drive identifiers are equal when their names are.
    fn eq(&self, other: &Self) -> (r: bool) {
        same_text(self.0, other.0)
    }
}

impl PartialEqSpecImpl for DriveId {
    open spec fn obeys_eq_spec() -> bool {
        true
    }

    open spec fn eq_spec(&self, other: &Self) -> bool {
        self.value() == other.value()
    }
}

impl DriveId {
    pub closed spec fn value(self) -> Seq<char> {
        self.0@
    }

    pub fn new(raw: String) -> (r: Self)
        ensures
            r.value() == raw@,
    {
        DriveId(intern(raw))
    }

    pub fn inner(&self) -> (r: &'static str)
        ensures
            r@ == self.value(),
    {
        self.0
    }
}

/// The identifier of a participant.
#[derive(Clone, Copy, Debug, PartialEq, Eq, Structural, PartialOrd, Ord, Hash)]
pub struct ParticipantId(u64);

impl ParticipantId {
    pub closed spec fn value(self) -> u64 {
        self.0
    }

    /// Participant identifiers with the same number are the same identifier.
    pub proof fn lemma_value_determines(self, other: Self)
        requires
            self.value() == other.value(),
        ensures
            self == other,
    {
    }

    pub fn new(raw: u64) -> (r: Self)
        ensures
            r.value() == raw,
    {
        ParticipantId(raw)
    }

    pub fn inner(&self) -> (r: u64)
        ensures
            r == self.value(),
    {
        self.0
    }
}

/// Someone who works on a project.
pub struct Participant {
    name: String,
}

impl Participant {
    pub closed spec fn name_of(self) -> Seq<char> {
        self.name@
    }

    pub fn new(name: String) -> (r: Self)
        ensures
            r.name_of() == name@,
    {
        Participant { name }
    }

    pub fn name(&self) -> (r: &str)
        ensures
            r@ == self.name_of(),
    {
        self.name.as_str()
    }
}

// ---------------------------------------------------------------------------
// The bidirectional maps between outside identifiers and project keys

#[verifier::external_type_specification]
#[verifier::external_body]
#[verifier::reject_recursive_types(L)]
#[verifier::reject_recursive_types(R)]
pub struct ExBiBTreeMap<L, R>(bimap::BiBTreeMap<L, R>);

/// The pairs of the server map, from server identifier to project key number.
pub uninterp spec fn server_pairs(m: BiBTreeMap<u64, u64>) -> Map<u64, u64>;

/// The pairs of the drive map, from drive name to project key number.
pub uninterp spec fn drive_pairs(m: BiBTreeMap<&'static str, u64>) -> Map<Seq<char>, u64>;

/// The pairs of `m` without those whose right side is `r`.
pub open spec fn without_right<L>(m: Map<L, u64>, r: u64) -> Map<L, u64> {
    m.remove_keys(m.dom().filter(|l: L| m[l] == r))
}

/// What `BiBTreeMap::insert` leaves: every pair with the left side `l` or
/// the right side `r` gives way to the pair `(l, r)`.
pub open spec fn with_pair<L>(m: Map<L, u64>, l: L, r: u64) -> Map<L, u64> {
    without_right(m, r).insert(l, r)
}

/// `BiBTreeMap::new`: a map with no pairs.
#[verifier::external_body]
fn server_map_new() -> (r: BiBTreeMap<u64, u64>)
    ensures
        server_pairs(r).dom().is_empty(),
{
    BiBTreeMap::new()
}

/// `BiBTreeMap::contains_left`: whether a pair has the left side `l`.
#[verifier::external_body]
fn server_contains_left(m: &BiBTreeMap<u64, u64>, l: u64) -> (r: bool)
    ensures
        r == server_pairs(*m).contains_key(l),
{
    m.contains_left(&l)
}

/// `BiBTreeMap::insert`: adds the pair `(l, r)`, dropping any pair with the
/// same left or the same right side.
#[verifier::external_body]
fn server_insert(m: &mut BiBTreeMap<u64, u64>, l: u64, r: u64)
    ensures
        server_pairs(*final(m)) == with_pair(server_pairs(*old(m)), l, r),
{
    m.insert(l, r);
}

/// `BiBTreeMap::remove_by_right`: removes and gives the pair whose right side is `r`.
#[verifier::external_body]
fn server_remove_by_right(m: &mut BiBTreeMap<u64, u64>, r: u64) -> (res: Option<(u64, u64)>)
    ensures
        res is Some <==> server_pairs(*old(m)).values().contains(r),
        res matches Some(p) ==> server_pairs(*old(m)).contains_key(p.0) && server_pairs(*old(m))[p.0]
            == r && p.1 == r,
        server_pairs(*final(m)) == without_right(server_pairs(*old(m)), r),
{
    m.remove_by_right(&r)
}

/// `BiBTreeMap::get_by_right`: the left side of the pair whose right side is `r`.
#[verifier::external_body]
fn server_get_by_right(m: &BiBTreeMap<u64, u64>, r: u64) -> (res: Option<u64>)
    ensures
        res is Some <==> server_pairs(*m).values().contains(r),
        res matches Some(l) ==> server_pairs(*m).contains_key(l) && server_pairs(*m)[l] == r,
{
    m.get_by_right(&r).copied()
}

/// `BiBTreeMap::get_by_left`: the right side of the pair whose left side is `l`.
#[verifier::external_body]
fn server_get_by_left(m: &BiBTreeMap<u64, u64>, l: u64) -> (res: Option<u64>)
    ensures
        res is Some <==> server_pairs(*m).contains_key(l),
        res matches Some(r) ==> r == server_pairs(*m)[l],
{
    m.get_by_left(&l).copied()
}

/// `BiBTreeMap::new`: a map with no pairs.
#[verifier::external_body]
fn drive_map_new() -> (r: BiBTreeMap<&'static str, u64>)
    ensures
        drive_pairs(r).dom().is_empty(),
{
    BiBTreeMap::new()
}

/// `BiBTreeMap::contains_left`: whether a pair has the left side `l`
/// (strings compare by their text).
#[verifier::external_body]
fn drive_contains_left(m: &BiBTreeMap<&'static str, u64>, l: &str) -> (r: bool)
    ensures
        r == drive_pairs(*m).contains_key(l@),
{
    m.contains_left(l)
}

/// `BiBTreeMap::insert`: adds the pair `(l, r)`, dropping any pair with the
/// same left or the same right side.
#[verifier::external_body]
fn drive_insert(m: &mut BiBTreeMap<&'static str, u64>, l: &'static str, r: u64)
    ensures
        drive_pairs(*final(m)) == with_pair(drive_pairs(*old(m)), l@, r),
{
    m.insert(l, r);
}

/// `BiBTreeMap::remove_by_right`: removes and gives the pair whose right side is `r`.
#[verifier::external_body]
fn drive_remove_by_right(m: &mut BiBTreeMap<&'static str, u64>, r: u64) -> (res: Option<
    (&'static str, u64),
>)
    ensures
        res is Some <==> drive_pairs(*old(m)).values().contains(r),
        res matches Some(p) ==> drive_pairs(*old(m)).contains_key(p.0@) && drive_pairs(*old(m))[p.0@]
            == r && p.1 == r,
        drive_pairs(*final(m)) == without_right(drive_pairs(*old(m)), r),
{
    m.remove_by_right(&r)
}

/// `BiBTreeMap::get_by_right`: the left side of the pair whose right side is `r`.
#[verifier::external_body]
fn drive_get_by_right(m: &BiBTreeMap<&'static str, u64>, r: u64) -> (res: Option<&'static str>)
    ensures
        res is Some <==> drive_pairs(*m).values().contains(r),
        res matches Some(l) ==> drive_pairs(*m).contains_key(l@) && drive_pairs(*m)[l@] == r,
{
    m.get_by_right(&r).copied()
}

/// `BiBTreeMap::get_by_left`: the right side of the pair whose left side is `l`.
#[verifier::external_body]
fn drive_get_by_left(m: &BiBTreeMap<&'static str, u64>, l: &str) -> (res: Option<u64>)
    ensures
        res is Some <==> drive_pairs(*m).contains_key(l@),
        res matches Some(r) ==> r == drive_pairs(*m)[l@],
{
    m.get_by_left(l).copied()
}

proof fn lemma_with_fresh_pair<L>(m: Map<L, u64>, l: L, r: u64)
    requires
        !m.values().contains(r),
    ensures
        with_pair(m, l, r) == m.insert(l, r),
{
    lemma_without_absent_right(m, r);
}

proof fn lemma_with_pair_injective<L>(m: Map<L, u64>, l: L, r: u64)
    requires
        m.is_injective(),
    ensures
        with_pair(m, l, r).is_injective(),
{
    let w = with_pair(m, l, r);
    assert forall|a: L, b: L| #[trigger] w.dom().contains(a) && #[trigger] w.dom().contains(b) && a != b
        implies w[a] != w[b] by {
        if a != l && b != l {
            assert(m[a] != m[b]);
        }
    }
}

proof fn lemma_without_absent_right<L>(m: Map<L, u64>, r: u64)
    requires
        !m.values().contains(r),
    ensures
        without_right(m, r) == m,
{
    let gone = m.dom().filter(|x: L| m[x] == r);
    assert forall|x: L| !(#[trigger] gone.contains(x)) by {
        if m.dom().contains(x) && m[x] == r {
            assert(m.values().contains(r));
        }
    }
    assert(gone =~= Set::<L>::empty());
    assert(without_right(m, r) =~= m);
}

proof fn lemma_without_right_values<L>(m: Map<L, u64>, r: u64)
    requires
        m.is_injective(),
    ensures
        without_right(m, r).is_injective(),
        without_right(m, r).values() == m.values().remove(r),
{
    let w = without_right(m, r);
    assert forall|v: u64| #[trigger] w.values().contains(v) == m.values().remove(r).contains(v) by {
        if m.values().remove(r).contains(v) {
            let a = choose|a: L| #[trigger] m.dom().contains(a) && m[a] == v;
            assert(w.dom().contains(a));
        }
        if w.values().contains(v) {
            let a = choose|a: L| #[trigger] w.dom().contains(a) && w[a] == v;
            assert(m.dom().contains(a));
        }
    }
    assert(w.values() =~= m.values().remove(r));
}

// ---------------------------------------------------------------------------
// Projects

/// The key of a project in the registry.
#[derive(Clone, Copy, Debug, PartialEq, Eq, Structural, PartialOrd, Ord, Hash)]
pub struct ProjectKey(u64);

impl ProjectKey {
    #[verifier::type_invariant]
    spec fn inv(self) -> bool {
        valid_key(self.0)
    }

    /// The number that identifies the key.
    pub closed spec fn id(self) -> u64 {
        self.0
    }

    /// Keys with the same number are the same key.
    pub proof fn lemma_id_determines(self, other: Self)
        requires
            self.id() == other.id(),
        ensures
            self == other,
    {
    }

    fn raw(self) -> (r: u64)
        ensures
            r == self.id(),
            valid_key(r),
    {
        proof {
            use_type_invariant(&self);
        }
        self.0
    }
}

/// A production: its cuts, the people who work on it, its assets and tasks.
pub struct Project {
    cuts: CutSequence,
    participants: BTreeMap<u64, Participant>,
    assets: AssetPool,
    tasks: TaskList,
}

impl Project {
    pub closed spec fn cuts_of(self) -> CutSequence {
        self.cuts
    }

    /// The participants, by identifier.
    pub closed spec fn participants_of(self) -> Map<u64, Participant> {
        self.participants@
    }

    pub closed spec fn assets_of(self) -> AssetPool {
        self.assets
    }

    pub closed spec fn tasks_of(self) -> TaskList {
        self.tasks
    }

    /// The asset number of the `i`-th ticket of the task under `t`.
    pub open spec fn ticket_at(self, t: u64, i: int) -> u64 {
        self.tasks_of().tasks()[t].tickets_of()[i].asset().id()
    }

    /// Whether `(t, i)` names a ticket: the task under `t` holds at least
    /// `i + 1` tickets.
    pub open spec fn holds(self, t: u64, i: int) -> bool {
        self.tasks_of().tasks().contains_key(t) && 0 <= i < self.tasks_of().tasks()[t].tickets_of().len()
    }

    /// Every ticket that a task holds is the ticket of an asset of the
    /// project that is out of the pool, no two held tickets are for the
    /// same asset, and the ticket of every asset out of the pool is held by
    /// a task: each asset's ticket is in exactly one place.
    pub open spec fn tickets_accounted(self) -> bool {
        &&& forall|t: u64, i: int| #![trigger self.ticket_at(t, i)]
            self.holds(t, i) ==> self.assets_of().assets().contains_key(self.ticket_at(t, i))
                && !self.assets_of().available(self.ticket_at(t, i))
        &&& forall|t1: u64, i1: int, t2: u64, i2: int|
            #![trigger self.ticket_at(t1, i1), self.ticket_at(t2, i2)]
            self.holds(t1, i1) && self.holds(t2, i2) && (t1 != t2 || i1 != i2) ==> self.ticket_at(
                t1,
                i1,
            ) != self.ticket_at(t2, i2)
        &&& forall|a: u64| #![trigger self.assets_of().available(a)]
            self.assets_of().assets().contains_key(a) && !self.assets_of().available(a) ==> exists|
                t: u64,
                i: int,
            | self.holds(t, i) && #[trigger] self.ticket_at(t, i) == a
    }

    /// Whether the tickets of the task under `t` can all go back to the
    /// pool: each is the ticket of an asset of the project that is out of
    /// the pool, and no two are for the same asset.
    pub open spec fn returnable(self, t: u64) -> bool {
        &&& forall|i: int| #![trigger self.ticket_at(t, i)]
            self.holds(t, i) ==> self.assets_of().assets().contains_key(self.ticket_at(t, i))
                && !self.assets_of().available(self.ticket_at(t, i))
        &&& forall|i: int, j: int| #![trigger self.ticket_at(t, i), self.ticket_at(t, j)]
            self.holds(t, i) && self.holds(t, j) && i != j ==> self.ticket_at(t, i) != self.ticket_at(t, j)
    }

    /// The project's invariant: its parts are well formed and the tickets
    /// are accounted for.
    pub open spec fn wf(self) -> bool {
        &&& self.cuts_of().wf()
        &&& self.assets_of().wf()
        &&& self.tasks_of().wf()
        &&& self.tickets_accounted()
    }

    /// A new project: no cuts, participants, assets or tasks.
    pub open spec fn is_empty(self) -> bool {
        &&& self.cuts_of().cuts().len() == 0
        &&& self.cuts_of().order().len() == 0
        &&& self.participants_of().len() == 0
        &&& self.assets_of().assets().len() == 0
        &&& self.tasks_of().tasks().len() == 0
        &&& self.tasks_of().order().len() == 0
    }

    /// Whether two projects hold the same things.
    pub open spec fn same_as(self, other: Project) -> bool {
        &&& self.cuts_of() == other.cuts_of()
        &&& self.participants_of() == other.participants_of()
        &&& self.assets_of().same_as(other.assets_of())
        &&& self.tasks_of().tasks() == other.tasks_of().tasks()
        &&& self.tasks_of().order() == other.tasks_of().order()
    }

    /// What a successful `stack_asset` leaves: the ticket of the asset
    /// under `asset_key` is out of the pool and last among the tickets of
    /// the task under `task_key`; nothing else changes.
    pub open spec fn stacked(self, after: Project, asset_key: AssetKey, task_key: TaskKey) -> bool {
        let a = asset_key.id();
        let t = task_key.id();
        let before = self.tasks_of().tasks()[t];
        let task = after.tasks_of().tasks()[t];
        &&& self.assets_of().assets().contains_key(a)
        &&& self.assets_of().available(a)
        &&& self.tasks_of().tasks().contains_key(t)
        &&& after.tasks_of().tasks() == self.tasks_of().tasks().insert(t, task)
        &&& task.tickets_of().len() == before.tickets_of().len() + 1
        &&& task.tickets_of().drop_last() == before.tickets_of()
        &&& task.tickets_of().last().asset() == asset_key
        &&& task.workflow_of() == before.workflow_of()
        &&& task.deadline_of() == before.deadline_of()
        &&& task.participant_of() == before.participant_of()
        &&& after.tasks_of().order() == self.tasks_of().order()
        &&& after.assets_of().assets() == self.assets_of().assets()
        &&& !after.assets_of().available(a)
        &&& forall|k: u64| k != a ==> #[trigger] after.assets_of().available(k)
            == self.assets_of().available(k)
        &&& after.cuts_of() == self.cuts_of()
        &&& after.participants_of() == self.participants_of()
    }

    /// What a successful `discard_task` leaves: the task under `key` is gone
    /// and every ticket it held is back in the pool; nothing else changes.
    pub open spec fn discarded(self, after: Project, key: TaskKey) -> bool {
        let gone = self.tasks_of().tasks()[key.id()].tickets_of();
        &&& after.tasks_of().tasks() == self.tasks_of().tasks().remove(key.id())
        &&& forall|i: int|
            0 <= i < self.tasks_of().order().len() && #[trigger] self.tasks_of().order()[i] == key
                ==> after.tasks_of().order() == self.tasks_of().order().remove(i)
        &&& after.assets_of().assets() == self.assets_of().assets()
        &&& forall|k: u64| #[trigger] after.assets_of().available(k) == (self.assets_of().available(k)
            || exists|j: int| 0 <= j < gone.len() && #[trigger] gone[j].asset().id() == k)
        &&& after.cuts_of() == self.cuts_of()
        &&& after.participants_of() == self.participants_of()
    }

    pub fn new() -> (r: Self)
        ensures
            r.wf(),
            r.is_empty(),
    {
        let r = Project {
            cuts: CutSequence::new(),
            participants: BTreeMap::new(),
            assets: AssetPool::new(),
            tasks: TaskList::new(),
        };
        proof {
            assert(r.participants_of().dom() =~= Set::<u64>::empty());
        }
        r
    }

    pub fn tasks(&self) -> (r: &TaskList)
        ensures
            *r == self.tasks_of(),
    {
        &self.tasks
    }

    /// The tasks, to be changed in place; the rest of the project stays.
    pub fn tasks_mut(&mut self) -> (r: &mut TaskList)
        ensures
            *r == old(self).tasks_of(),
            final(self).tasks_of() == *final(r),
            final(self).cuts_of() == old(self).cuts_of(),
            final(self).participants_of() == old(self).participants_of(),
            final(self).assets_of() == old(self).assets_of(),
    {
        &mut self.tasks
    }

    /// The participant under `id`.
    pub fn participant(&self, id: &ParticipantId) -> (r: ProjectResult<&Participant>)
        ensures
            self.participants_of().contains_key(id.value()) ==> (r matches Ok(p) && *p
                == self.participants_of()[id.value()]),
            !self.participants_of().contains_key(id.value()) ==> r == Err::<
                &Participant,
                ProjectError,
            >(ProjectError::Participant(ParticipantError::NotFound)),
    {
        match self.participants.get(&id.0) {
            Some(p) => Ok(p),
            None => Err(ProjectError::Participant(ParticipantError::NotFound)),
        }
    }

    /// Puts `participant` under `id`, replacing whoever was there.
    pub fn set_participant(&mut self, id: ParticipantId, participant: Participant)
        ensures
            final(self).participants_of() == old(self).participants_of().insert(
                id.value(),
                participant,
            ),
            final(self).cuts_of() == old(self).cuts_of(),
            final(self).assets_of() == old(self).assets_of(),
            final(self).tasks_of() == old(self).tasks_of(),
    {
        self.participants.insert(id.0, participant);
    }

    /// Removes the participant under `id`.
    pub fn delete_participant(&mut self, id: ParticipantId) -> (r: ProjectResult<()>)
        ensures
            old(self).participants_of().contains_key(id.value()) ==> r == Ok::<(), ProjectError>(()),
            !old(self).participants_of().contains_key(id.value()) ==> r == Err::<(), ProjectError>(
                ProjectError::Participant(ParticipantError::NotFound),
            ),
            final(self).participants_of() == old(self).participants_of().remove(id.value()),
            final(self).cuts_of() == old(self).cuts_of(),
            final(self).assets_of() == old(self).assets_of(),
            final(self).tasks_of() == old(self).tasks_of(),
    {
        match self.participants.remove(&id.0) {
            Some(_) => Ok(()),
            None => {
                proof {
                    assert(self.participants_of() =~= old(self).participants_of().remove(id.value()));
                }
                Err(ProjectError::Participant(ParticipantError::NotFound))
            },
        }
    }

    /// Hands the ticket of the asset under `asset_key` to the task under
    /// `task_key`, when both exist, share a workflow type, and the ticket is
    /// in the pool.
    pub fn stack_asset(&mut self, asset_key: AssetKey, task_key: TaskKey) -> (r: ProjectResult<()>)
        requires
            old(self).assets_of().wf(),
        ensures
            final(self).assets_of().wf(),
            old(self).wf() ==> final(self).wf(),
            ({
                let assets = old(self).assets_of();
                let tasks = old(self).tasks_of().tasks();
                let a = asset_key.id();
                let t = task_key.id();
                if !assets.assets().contains_key(a) {
                    r == Err::<(), ProjectError>(ProjectError::Asset(AssetError::NotFound))
                } else if !tasks.contains_key(t) {
                    r == Err::<(), ProjectError>(ProjectError::Task(TaskError::NotFound))
                } else if assets.assets()[a].type_of() != tasks[t].workflow_of().type_of() {
                    r == Err::<(), ProjectError>(ProjectError::Workflow(WorkflowError::TypeMismatch))
                } else if !assets.available(a) {
                    r == Err::<(), ProjectError>(ProjectError::Asset(AssetError::InUse))
                } else {
                    r == Ok::<(), ProjectError>(())
                }
            }),
            r is Err ==> final(self).same_as(*old(self)),
            r is Ok ==> old(self).stacked(*final(self), asset_key, task_key),
    {
        let asset_type = match self.assets.asset(asset_key) {
            Ok(a) => a.workflow_type(),
            Err(e) => {
                return Err(ProjectError::Asset(e));
            },
        };
        let task_type = match self.tasks.task(task_key) {
            Ok(t) => t.workflow_type(),
            Err(e) => {
                return Err(ProjectError::Task(e));
            },
        };
        if asset_type == task_type {
            let ticket = match self.assets.take_ticket(asset_key) {
                Ok(t) => t,
                Err(e) => {
                    proof {
                        if old(self).wf() {
                            lemma_same_parts_wf(*old(self), *self);
                        }
                    }
                    return Err(ProjectError::Asset(e));
                },
            };
            let ghost t = task_key.id();
            proof {
                assert(ticket.asset().id() == asset_key.id());
            }
            match self.tasks.task_mut(task_key) {
                Ok(task) => {
                    task.tickets_mut().push(ticket);
                },
                Err(_) => {
                    proof {
                        assert(false);
                    }
                },
            }
            proof {
                let before = old(self).tasks_of().tasks()[t];
                let after = self.tasks_of().tasks()[t];
                assert(after.tickets_of().drop_last() =~= before.tickets_of());
                if old(self).wf() {
                    lemma_stack_keeps_wf(*old(self), *self, asset_key, task_key);
                }
            }
            Ok(())
        } else {
            Err(ProjectError::Workflow(WorkflowError::TypeMismatch))
        }
    }

    /// Discards the task under `key` when it has a participant or a
    /// deadline; the tickets it held go back to the pool.
    pub fn discard_task(&mut self, key: TaskKey) -> (r: ProjectResult<()>)
        requires
            old(self).assets_of().wf(),
            old(self).tasks_of().wf(),
            old(self).tasks_of().tasks().contains_key(key.id()) && old(self).tasks_of().tasks()[key.id()].discardable()
                ==> old(self).returnable(key.id()),
        ensures
            final(self).assets_of().wf(),
            final(self).tasks_of().wf(),
            old(self).wf() ==> final(self).wf(),
            ({
                let tasks = old(self).tasks_of().tasks();
                if !tasks.contains_key(key.id()) {
                    r == Err::<(), ProjectError>(ProjectError::Task(TaskError::NotFound))
                } else if !tasks[key.id()].discardable() {
                    r == Err::<(), ProjectError>(ProjectError::Task(TaskError::NoAuthority))
                } else {
                    r == Ok::<(), ProjectError>(())
                }
            }),
            r is Err ==> final(self).same_as(*old(self)),
            r is Ok ==> old(self).discarded(*final(self), key),
    {
        let can = match self.tasks.task(key) {
            Ok(t) => t.can_discard(),
            Err(e) => {
                return Err(ProjectError::Task(e));
            },
        };
        if !can {
            return Err(ProjectError::Task(TaskError::NoAuthority));
        }
        let ghost k = key.id();
        proof {
            assert(self.tasks_of().tasks().contains_key(k));
            let i = choose|i: int| 0 <= i < self.tasks_of().order().len() && #[trigger] self.tasks_of().order()[i].id() == k;
            self.tasks_of().order()[i].lemma_id_determines(key);
        }
        let task = match self.tasks.remove_task(key) {
            Ok(t) => t,
            Err(e) => {
                return Err(ProjectError::Task(e));
            },
        };
        let ghost gone = old(self).tasks_of().tasks()[k].tickets_of();
        let mut tickets = task.discard_unchecked();
        proof {
            assert(tickets@ == gone);
        }
        while tickets.len() > 0
            invariant
                tickets@ == gone.take(tickets@.len() as int),
                tickets@.len() <= gone.len(),
                self.assets_of().wf(),
                self.assets_of().assets() == old(self).assets_of().assets(),
                self.tasks_of().tasks() == old(self).tasks_of().tasks().remove(k),
                self.tasks_of().wf(),
                forall|i: int|
                    0 <= i < old(self).tasks_of().order().len() && #[trigger] old(self).tasks_of().order()[i] == key
                        ==> self.tasks_of().order() == old(self).tasks_of().order().remove(i),
                self.cuts_of() == old(self).cuts_of(),
                self.participants_of() == old(self).participants_of(),
                old(self).returnable(k),
                old(self).tasks_of().tasks().contains_key(k),
                gone == old(self).tasks_of().tasks()[k].tickets_of(),
                forall|a: u64| #[trigger] self.assets_of().available(a) == (old(self).assets_of().available(a)
                    || exists|j: int| tickets@.len() <= j < gone.len() && #[trigger] gone[j].asset().id() == a),
            decreases tickets@.len(),
        {
            let ghost n = tickets@.len();
            let ticket = tickets.pop().unwrap();
            proof {
                assert(ticket == gone[n - 1]);
                assert(gone.take(n - 1) =~= tickets@);
                assert(old(self).holds(k, n - 1));
                assert(old(self).ticket_at(k, n - 1) == ticket.asset().id());
                let a = ticket.asset().id();
                assert forall|j: int| n <= j < gone.len() implies #[trigger] gone[j].asset().id() != a by {
                    assert(old(self).holds(k, j));
                    assert(old(self).ticket_at(k, j) == gone[j].asset().id());
                }
            }
            self.assets.return_ticket(ticket);
        }
        proof {
            if old(self).wf() {
                lemma_discard_keeps_wf(*old(self), *self, key);
            }
        }
        Ok(())
    }
}

/// A ticket that a task takes goes back to the pool when the task is
/// discarded, together with every ticket the task held before: stacking
/// an asset and then discarding the task leaves the assets and the pool as
/// discarding alone would have.
pub proof fn lemma_discard_returns_stacked(
    p0: Project,
    p1: Project,
    p2: Project,
    asset_key: AssetKey,
    task_key: TaskKey,
)
    requires
        p0.stacked(p1, asset_key, task_key),
        p1.discarded(p2, task_key),
    ensures
        p2.assets_of().assets() == p0.assets_of().assets(),
        p2.assets_of().available(asset_key.id()),
        forall|k: u64| #[trigger] p2.assets_of().available(k) == (p0.assets_of().available(k) || exists|j: int|
            0 <= j < p0.tasks_of().tasks()[task_key.id()].tickets_of().len()
                && #[trigger] p0.tasks_of().tasks()[task_key.id()].tickets_of()[j].asset().id() == k),
        p2.tasks_of().tasks() == p0.tasks_of().tasks().remove(task_key.id()),
{
    let t = task_key.id();
    let a = asset_key.id();
    let held = p0.tasks_of().tasks()[t].tickets_of();
    let gone = p1.tasks_of().tasks()[t].tickets_of();
    assert(p1.tasks_of().tasks().contains_key(t));
    assert(gone[gone.len() - 1].asset().id() == a);
    assert forall|j: int| 0 <= j < held.len() implies #[trigger] held[j] == gone[j] by {
        assert(gone.drop_last()[j] == gone[j]);
    }
    assert forall|k: u64| #[trigger] p2.assets_of().available(k) == (p0.assets_of().available(k) || exists|j: int|
        0 <= j < held.len() && #[trigger] held[j].asset().id() == k) by {
        if k == a {
            assert(p2.assets_of().available(k));
        } else {
            if exists|j: int| 0 <= j < gone.len() && #[trigger] gone[j].asset().id() == k {
                let j = choose|j: int| 0 <= j < gone.len() && #[trigger] gone[j].asset().id() == k;
                assert(j < held.len());
                assert(held[j].asset().id() == k);
            }
            if exists|j: int| 0 <= j < held.len() && #[trigger] held[j].asset().id() == k {
                let j = choose|j: int| 0 <= j < held.len() && #[trigger] held[j].asset().id() == k;
                assert(gone[j].asset().id() == k);
            }
        }
    }
    assert(p2.tasks_of().tasks() =~= p0.tasks_of().tasks().remove(t));
}

/// In a well-formed project the ticket of each asset is in exactly one
/// place: in the pool, or with exactly one task at exactly one position.
/// `stack_asset` and `discard_task` keep the project well formed, so this
/// holds across any run of them.
pub proof fn lemma_ticket_in_one_place(p: Project, a: u64)
    requires
        p.wf(),
        p.assets_of().assets().contains_key(a),
    ensures
        p.assets_of().available(a) ==> forall|t: u64, i: int|
            p.holds(t, i) ==> #[trigger] p.ticket_at(t, i) != a,
        !p.assets_of().available(a) ==> exists|t: u64, i: int|
            #![trigger p.ticket_at(t, i)]
            p.holds(t, i) && p.ticket_at(t, i) == a && forall|t2: u64, i2: int|
                p.holds(t2, i2) && #[trigger] p.ticket_at(t2, i2) == a ==> t2 == t && i2 == i,
{
    if !p.assets_of().available(a) {
        let (t, i) = choose|t: u64, i: int| p.holds(t, i) && #[trigger] p.ticket_at(t, i) == a;
        assert forall|t2: u64, i2: int| p.holds(t2, i2) && #[trigger] p.ticket_at(t2, i2) == a implies t2 == t
            && i2 == i by {
            if t2 != t || i2 != i {
                assert(p.ticket_at(t, i) != p.ticket_at(t2, i2));
            }
        }
    }
}

/// A successful `stack_asset` keeps the project's invariant.
proof fn lemma_stack_keeps_wf(p0: Project, p1: Project, asset_key: AssetKey, task_key: TaskKey)
    requires
        p0.wf(),
        p0.stacked(p1, asset_key, task_key),
        p1.assets_of().wf(),
        p1.tasks_of().wf(),
    ensures
        p1.wf(),
{
    let t = task_key.id();
    let a = asset_key.id();
    let before = p0.tasks_of().tasks()[t];
    let after = p1.tasks_of().tasks()[t];
    assert forall|t1: u64, i1: int| #![trigger p1.ticket_at(t1, i1)]
        p1.holds(t1, i1) && !(t1 == t && i1 == before.tickets_of().len()) implies p0.holds(t1, i1)
            && p1.ticket_at(t1, i1) == p0.ticket_at(t1, i1) by {
        if t1 == t {
            assert(after.tickets_of().drop_last()[i1] == after.tickets_of()[i1]);
        }
    }
    assert(p1.ticket_at(t, before.tickets_of().len() as int) == a) by {
        assert(after.tickets_of().last() == after.tickets_of()[before.tickets_of().len() as int]);
    }
    assert forall|t1: u64, i1: int| #![trigger p1.ticket_at(t1, i1)]
        p1.holds(t1, i1) implies p1.assets_of().assets().contains_key(p1.ticket_at(t1, i1))
            && !p1.assets_of().available(p1.ticket_at(t1, i1)) by {
        if !(t1 == t && i1 == before.tickets_of().len()) {
            assert(p0.holds(t1, i1));
            assert(p0.ticket_at(t1, i1) != a);
        }
    }
    assert forall|t1: u64, i1: int, t2: u64, i2: int|
        #![trigger p1.ticket_at(t1, i1), p1.ticket_at(t2, i2)]
        p1.holds(t1, i1) && p1.holds(t2, i2) && (t1 != t2 || i1 != i2) implies p1.ticket_at(t1, i1)
            != p1.ticket_at(t2, i2) by {
        let new1 = t1 == t && i1 == before.tickets_of().len();
        let new2 = t2 == t && i2 == before.tickets_of().len();
        if !new1 {
            assert(p0.holds(t1, i1));
            assert(!p0.assets_of().available(p0.ticket_at(t1, i1)));
        }
        if !new2 {
            assert(p0.holds(t2, i2));
            assert(!p0.assets_of().available(p0.ticket_at(t2, i2)));
        }
    }
    assert forall|x: u64| #![trigger p1.assets_of().available(x)]
        p1.assets_of().assets().contains_key(x) && !p1.assets_of().available(x) implies exists|t1: u64, i1: int|
        p1.holds(t1, i1) && #[trigger] p1.ticket_at(t1, i1) == x by {
        if x == a {
            assert(p1.holds(t, before.tickets_of().len() as int));
        } else {
            assert(!p0.assets_of().available(x));
            let (t1, i1) = choose|t1: u64, i1: int| p0.holds(t1, i1) && #[trigger] p0.ticket_at(t1, i1) == x;
            if t1 == t {
                assert(after.tickets_of().drop_last()[i1] == after.tickets_of()[i1]);
            }
            assert(p1.holds(t1, i1) && p1.ticket_at(t1, i1) == x);
        }
    }
}

/// A successful `discard_task` keeps the project's invariant.
proof fn lemma_discard_keeps_wf(p0: Project, p1: Project, key: TaskKey)
    requires
        p0.wf(),
        p0.tasks_of().tasks().contains_key(key.id()),
        p0.discarded(p1, key),
        p1.assets_of().wf(),
        p1.tasks_of().wf(),
    ensures
        p1.wf(),
{
    let k = key.id();
    let gone = p0.tasks_of().tasks()[k].tickets_of();
    assert forall|t1: u64, i1: int| #![trigger p1.ticket_at(t1, i1)]
        p1.holds(t1, i1) implies p1.assets_of().assets().contains_key(p1.ticket_at(t1, i1))
            && !p1.assets_of().available(p1.ticket_at(t1, i1)) by {
        assert(p0.holds(t1, i1));
        assert(p1.ticket_at(t1, i1) == p0.ticket_at(t1, i1));
        if exists|j: int| 0 <= j < gone.len() && #[trigger] gone[j].asset().id() == p1.ticket_at(t1, i1) {
            let j = choose|j: int| 0 <= j < gone.len() && #[trigger] gone[j].asset().id() == p1.ticket_at(t1, i1);
            assert(p0.holds(k, j));
            assert(p0.ticket_at(k, j) == gone[j].asset().id());
        }
    }
    assert forall|t1: u64, i1: int, t2: u64, i2: int|
        #![trigger p1.ticket_at(t1, i1), p1.ticket_at(t2, i2)]
        p1.holds(t1, i1) && p1.holds(t2, i2) && (t1 != t2 || i1 != i2) implies p1.ticket_at(t1, i1)
            != p1.ticket_at(t2, i2) by {
        assert(p1.ticket_at(t1, i1) == p0.ticket_at(t1, i1));
        assert(p1.ticket_at(t2, i2) == p0.ticket_at(t2, i2));
        assert(p0.holds(t1, i1) && p0.holds(t2, i2));
    }
    assert forall|x: u64| #![trigger p1.assets_of().available(x)]
        p1.assets_of().assets().contains_key(x) && !p1.assets_of().available(x) implies exists|t1: u64, i1: int|
        p1.holds(t1, i1) && #[trigger] p1.ticket_at(t1, i1) == x by {
        assert(!p0.assets_of().available(x));
        let (t1, i1) = choose|t1: u64, i1: int| p0.holds(t1, i1) && #[trigger] p0.ticket_at(t1, i1) == x;
        if t1 == k {
            assert(gone[i1].asset().id() == x);
        }
        assert(p1.holds(t1, i1) && p1.ticket_at(t1, i1) == x);
    }
}

/// A project whose parts hold what those of a well-formed project hold is
/// well formed.
proof fn lemma_same_parts_wf(p: Project, q: Project)
    requires
        p.wf(),
        q.assets_of().wf(),
        q.tasks_of() == p.tasks_of(),
        q.cuts_of() == p.cuts_of(),
        q.assets_of().same_as(p.assets_of()),
    ensures
        q.wf(),
{
    assert forall|t: u64, i: int| #![trigger q.ticket_at(t, i)]
        q.holds(t, i) implies q.assets_of().assets().contains_key(q.ticket_at(t, i))
            && !q.assets_of().available(q.ticket_at(t, i)) by {
        assert(p.holds(t, i));
        assert(p.ticket_at(t, i) == q.ticket_at(t, i));
    }
    assert forall|t1: u64, i1: int, t2: u64, i2: int|
        #![trigger q.ticket_at(t1, i1), q.ticket_at(t2, i2)]
        q.holds(t1, i1) && q.holds(t2, i2) && (t1 != t2 || i1 != i2) implies q.ticket_at(t1, i1)
            != q.ticket_at(t2, i2) by {
        assert(p.ticket_at(t1, i1) == q.ticket_at(t1, i1));
        assert(p.ticket_at(t2, i2) == q.ticket_at(t2, i2));
    }
    assert forall|x: u64| #![trigger q.assets_of().available(x)]
        q.assets_of().assets().contains_key(x) && !q.assets_of().available(x) implies exists|t1: u64, i1: int|
        q.holds(t1, i1) && #[trigger] q.ticket_at(t1, i1) == x by {
        assert(!p.assets_of().available(x));
        let (t1, i1) = choose|t1: u64, i1: int| p.holds(t1, i1) && #[trigger] p.ticket_at(t1, i1) == x;
        assert(q.holds(t1, i1) && q.ticket_at(t1, i1) == x);
    }
}

impl Default for Project {
    fn default() -> (r: Self)
        ensures
            r.wf(),
            r.is_empty(),
    {
        Project::new()
    }
}

// ---------------------------------------------------------------------------
// The registry

/// All projects, each reachable by its key, its server identifier and its
/// drive identifier.
pub struct ProjectRegistry {
    projects: SlotPool<Project>,
    server_map: BiBTreeMap<u64, u64>,
    drive_map: BiBTreeMap<&'static str, u64>,
}

impl ProjectRegistry {
    /// The projects, by key number.
    pub closed spec fn projects(self) -> Map<u64, Project> {
        project_slots(self.projects)
    }

    /// The key number of each project, by server identifier.
    pub closed spec fn servers(self) -> Map<u64, u64> {
        server_pairs(self.server_map)
    }

    /// The key number of each project, by drive identifier.
    pub closed spec fn drives(self) -> Map<Seq<char>, u64> {
        drive_pairs(self.drive_map)
    }

    /// Whether two registries hold the same projects under the same identifiers.
    pub open spec fn same_as(self, other: Self) -> bool {
        &&& self.projects() == other.projects()
        &&& self.servers() == other.servers()
        &&& self.drives() == other.drives()
    }

    /// The registry's invariant: each project has exactly one server
    /// identifier and one drive identifier, and each identifier one project.
    pub open spec fn wf(self) -> bool {
        &&& self.projects().dom().finite()
        &&& forall|k: u64| #[trigger] self.projects().contains_key(k) ==> valid_key(k)
        &&& self.servers().is_injective()
        &&& self.drives().is_injective()
        &&& self.servers().values() == self.projects().dom()
        &&& self.drives().values() == self.projects().dom()
    }

    /// What a successful `add_project` leaves: a new, empty project under
    /// the key number `k`, found under both identifiers.
    pub open spec fn added(self, after: Self, server: u64, drive: Seq<char>, k: u64) -> bool {
        &&& !self.servers().contains_key(server)
        &&& !self.drives().contains_key(drive)
        &&& !self.projects().contains_key(k)
        &&& after.projects() == self.projects().insert(k, after.projects()[k])
        &&& after.projects()[k].wf()
        &&& after.projects()[k].is_empty()
        &&& after.servers() == self.servers().insert(server, k)
        &&& after.drives() == self.drives().insert(drive, k)
    }

    /// What a successful `delete_project` leaves: the project under the key
    /// number `k` is gone, and so are its two identifiers.
    pub open spec fn deleted(self, after: Self, k: u64) -> bool {
        &&& after.projects() == self.projects().remove(k)
        &&& after.servers() == without_right(self.servers(), k)
        &&& after.drives() == without_right(self.drives(), k)
    }

    /// An empty registry.
    pub fn new() -> (r: Self)
        ensures
            r.wf(),
            r.projects() == Map::<u64, Project>::empty(),
            r.servers() == Map::<u64, u64>::empty(),
            r.drives() == Map::<Seq<char>, u64>::empty(),
    {
        let r = ProjectRegistry {
            projects: project_pool_new(),
            server_map: server_map_new(),
            drive_map: drive_map_new(),
        };
        proof {
            assert(r.projects() =~= Map::<u64, Project>::empty());
            assert(r.servers() =~= Map::<u64, u64>::empty());
            assert(r.drives() =~= Map::<Seq<char>, u64>::empty());
            assert(r.servers().values() =~= Set::<u64>::empty());
            assert(r.drives().values() =~= Set::<u64>::empty());
        }
        r
    }

    /// Adds a new, empty project under the two identifiers, unless either
    /// is taken.
    pub fn add_project(&mut self, server_id: ServerId, drive_id: DriveId) -> (r: ProjectResult<
        ProjectKey,
    >)
        requires
            old(self).wf(),
            !(old(self).servers().contains_key(server_id.value()) || old(self).drives().contains_key(
                drive_id.value(),
            )) ==> old(self).projects().len() < slot_capacity(),
        ensures
            final(self).wf(),
            old(self).servers().contains_key(server_id.value()) || old(self).drives().contains_key(
                drive_id.value(),
            ) ==> r == Err::<ProjectKey, ProjectError>(ProjectError::IdDuplicated)
                && final(self).same_as(*old(self)),
            !(old(self).servers().contains_key(server_id.value()) || old(self).drives().contains_key(
                drive_id.value(),
            )) ==> (r matches Ok(key) && old(self).added(
                *final(self),
                server_id.value(),
                drive_id.value(),
                key.id(),
            )),
    {
        if server_contains_left(&self.server_map, server_id.0) || drive_contains_left(
            &self.drive_map,
            drive_id.0,
        ) {
            return Err(ProjectError::IdDuplicated);
        }
        let k = project_pool_insert(&mut self.projects, Project::new());
        proof {
            lemma_with_fresh_pair(old(self).servers(), server_id.value(), k);
            lemma_with_fresh_pair(old(self).drives(), drive_id.value(), k);
        }
        server_insert(&mut self.server_map, server_id.0, k);
        drive_insert(&mut self.drive_map, drive_id.0, k);
        proof {
            assert(self.servers().values() =~= self.projects().dom()) by {
                assert forall|v: u64| #[trigger] self.servers().values().contains(v) implies self.projects().dom().contains(v) by {
                    let s = choose|s: u64| #[trigger] self.servers().contains_key(s) && self.servers()[s] == v;
                    if s != server_id.value() {
                        assert(old(self).servers().values().contains(v));
                    }
                }
                assert forall|v: u64| #[trigger] self.projects().dom().contains(v) implies self.servers().values().contains(v) by {
                    if v == k {
                        assert(self.servers().contains_key(server_id.value()));
                        assert(self.servers()[server_id.value()] == v);
                    } else {
                        assert(old(self).servers().values().contains(v));
                        let s = choose|s: u64| #[trigger] old(self).servers().contains_key(s) && old(self).servers()[s] == v;
                        assert(self.servers().contains_key(s));
                        assert(self.servers()[s] == v);
                    }
                }
            }
            assert(self.drives().values() =~= self.projects().dom()) by {
                assert forall|v: u64| #[trigger] self.drives().values().contains(v) implies self.projects().dom().contains(v) by {
                    let s = choose|s: Seq<char>| #[trigger] self.drives().contains_key(s) && self.drives()[s] == v;
                    if s != drive_id.value() {
                        assert(old(self).drives().values().contains(v));
                    }
                }
                assert forall|v: u64| #[trigger] self.projects().dom().contains(v) implies self.drives().values().contains(v) by {
                    if v == k {
                        assert(self.drives().contains_key(drive_id.value()));
                        assert(self.drives()[drive_id.value()] == v);
                    } else {
                        assert(old(self).drives().values().contains(v));
                        let s = choose|s: Seq<char>| #[trigger] old(self).drives().contains_key(s) && old(self).drives()[s] == v;
                        assert(self.drives().contains_key(s));
                        assert(self.drives()[s] == v);
                    }
                }
            }
            lemma_with_pair_injective(old(self).servers(), server_id.value(), k);
            lemma_with_pair_injective(old(self).drives(), drive_id.value(), k);
        }
        Ok(ProjectKey(k))
    }

    /// Deletes the project under `key` together with its two identifiers.
    pub fn delete_project(&mut self, key: ProjectKey) -> (r: ProjectResult<()>)
        requires
            old(self).wf(),
        ensures
            final(self).wf(),
            !old(self).projects().contains_key(key.id()) ==> r == Err::<(), ProjectError>(
                ProjectError::NotFound,
            ) && final(self).same_as(*old(self)),
            old(self).projects().contains_key(key.id()) ==> r == Ok::<(), ProjectError>(())
                && old(self).deleted(*final(self), key.id()),
    {
        let k = key.raw();
        match server_remove_by_right(&mut self.server_map, k) {
            Some(_) => {},
            None => {
                proof {
                    lemma_without_absent_right(old(self).servers(), k);
                }
                return Err(ProjectError::NotFound);
            },
        }
        match drive_remove_by_right(&mut self.drive_map, k) {
            Some(_) => {},
            None => {
                proof {
                    assert(false);
                }
                return Err(ProjectError::NotFound);
            },
        }
        let removed = project_pool_remove(&mut self.projects, k);
        proof {
            lemma_without_right_values(old(self).servers(), k);
            lemma_without_right_values(old(self).drives(), k);
            assert(self.projects().dom() =~= old(self).projects().dom().remove(k));
        }
        match removed {
            Some(_) => Ok(()),
            None => {
                proof {
                    assert(false);
                }
                Err(ProjectError::NotFound)
            },
        }
    }

    /// The project under `key`.
    pub fn project(&self, key: ProjectKey) -> (r: ProjectResult<&Project>)
        ensures
            self.projects().contains_key(key.id()) ==> (r matches Ok(p) && *p == self.projects()[key.id()]),
            !self.projects().contains_key(key.id()) ==> r == Err::<&Project, ProjectError>(
                ProjectError::NotFound,
            ),
    {
        match project_pool_get(&self.projects, key.raw()) {
            Some(p) => Ok(p),
            None => Err(ProjectError::NotFound),
        }
    }

    /// The project under `key`, to be changed in place.
    pub fn project_mut(&mut self, key: ProjectKey) -> (r: ProjectResult<&mut Project>)
        ensures
            old(self).projects().contains_key(key.id()) ==> r is Ok,
            !old(self).projects().contains_key(key.id()) ==> r is Err && r->Err_0
                == ProjectError::NotFound,
            r is Ok ==> *r.unwrap() == old(self).projects()[key.id()] && final(self).projects()
                == old(self).projects().insert(key.id(), *final(r.unwrap())),
            r is Err ==> final(self).projects() == old(self).projects(),
            final(self).servers() == old(self).servers(),
            final(self).drives() == old(self).drives(),
            old(self).wf() ==> final(self).wf(),
    {
        let k = key.raw();
        proof {
            assert forall|v: Project| #[trigger] old(self).projects().insert(k, v).dom() == old(
                self,
            ).projects().dom().insert(k) by {}
            if old(self).projects().contains_key(k) {
                assert(old(self).projects().dom().insert(k) =~= old(self).projects().dom());
            }
        }
        match project_pool_get_mut(&mut self.projects, k) {
            Some(p) => Ok(p),
            None => Err(ProjectError::NotFound),
        }
    }

    /// The server identifier of the project under `key`.
    pub fn server_id(&self, key: ProjectKey) -> (r: ProjectResult<ServerId>)
        ensures
            self.servers().values().contains(key.id()) ==> (r matches Ok(s) && self.servers().contains_key(
                s.value(),
            ) && self.servers()[s.value()] == key.id()),
            !self.servers().values().contains(key.id()) ==> r == Err::<ServerId, ProjectError>(
                ProjectError::NotFound,
            ),
    {
        match server_get_by_right(&self.server_map, key.raw()) {
            Some(s) => Ok(ServerId(s)),
            None => Err(ProjectError::NotFound),
        }
    }

    /// The key of the project with the server identifier `server_id`.
    pub fn key_from_server(&self, server_id: &ServerId) -> (r: ProjectResult<ProjectKey>)
        requires
            self.wf(),
        ensures
            self.servers().contains_key(server_id.value()) ==> (r matches Ok(k) && k.id()
                == self.servers()[server_id.value()]),
            !self.servers().contains_key(server_id.value()) ==> r == Err::<ProjectKey, ProjectError>(
                ProjectError::NotFound,
            ),
    {
        match server_get_by_left(&self.server_map, server_id.0) {
            Some(k) => {
                proof {
                    assert(self.servers().values().contains(k));
                    assert(self.projects().contains_key(k));
                }
                Ok(ProjectKey(k))
            },
            None => Err(ProjectError::NotFound),
        }
    }

    /// The drive identifier of the project under `key`.
    pub fn drive_id(&self, key: ProjectKey) -> (r: ProjectResult<DriveId>)
        ensures
            self.drives().values().contains(key.id()) ==> (r matches Ok(d) && self.drives().contains_key(
                d.value(),
            ) && self.drives()[d.value()] == key.id()),
            !self.drives().values().contains(key.id()) ==> r == Err::<DriveId, ProjectError>(
                ProjectError::NotFound,
            ),
    {
        match drive_get_by_right(&self.drive_map, key.raw()) {
            Some(d) => Ok(DriveId(d)),
            None => Err(ProjectError::NotFound),
        }
    }

    /// The key of the project with the drive identifier `drive_id`.
    pub fn key_from_drive(&self, drive_id: &DriveId) -> (r: ProjectResult<ProjectKey>)
        requires
            self.wf(),
        ensures
            self.drives().contains_key(drive_id.value()) ==> (r matches Ok(k) && k.id()
                == self.drives()[drive_id.value()]),
            !self.drives().contains_key(drive_id.value()) ==> r == Err::<ProjectKey, ProjectError>(
                ProjectError::NotFound,
            ),
    {
        match drive_get_by_left(&self.drive_map, drive_id.0) {
            Some(k) => {
                proof {
                    assert(self.drives().values().contains(k));
                    assert(self.projects().contains_key(k));
                }
                Ok(ProjectKey(k))
            },
            None => Err(ProjectError::NotFound),
        }
    }
}

/// After a project is added, its key is found under each of the two
/// identifiers, each identifier read back from the key is the one it was
/// added with, and the project is new and empty.
pub proof fn lemma_added_reads_back(
    before: ProjectRegistry,
    after: ProjectRegistry,
    server: u64,
    drive: Seq<char>,
    k: u64,
)
    requires
        before.wf(),
        before.added(after, server, drive, k),
    ensures
        after.projects().contains_key(k),
        after.projects()[k].is_empty(),
        after.servers().contains_key(server) && after.servers()[server] == k,
        after.drives().contains_key(drive) && after.drives()[drive] == k,
        forall|s: u64| #[trigger] after.servers().contains_key(s) && after.servers()[s] == k ==> s == server,
        forall|d: Seq<char>| #[trigger] after.drives().contains_key(d) && after.drives()[d] == k ==> d
            == drive,
{
    assert forall|s: u64| #[trigger] after.servers().contains_key(s) && after.servers()[s] == k implies s
        == server by {
        if s != server {
            assert(before.servers().values().contains(k));
        }
    }
    assert forall|d: Seq<char>| #[trigger] after.drives().contains_key(d) && after.drives()[d] == k implies d
        == drive by {
        if d != drive {
            assert(before.drives().values().contains(k));
        }
    }
}

/// Deleting a project that was just added gives back the registry as it
/// was before the addition.
pub proof fn lemma_delete_undoes_add(
    before: ProjectRegistry,
    mid: ProjectRegistry,
    after: ProjectRegistry,
    server: u64,
    drive: Seq<char>,
    k: u64,
)
    requires
        before.wf(),
        before.added(mid, server, drive, k),
        mid.deleted(after, k),
    ensures
        after.same_as(before),
{
    assert(after.projects() =~= before.projects());
    assert(!before.servers().values().contains(k));
    assert(!before.drives().values().contains(k));
    lemma_without_right_of_insert(before.servers(), server, k);
    lemma_without_right_of_insert(before.drives(), drive, k);
}

/// In a registry a key has a project exactly when it has a server
/// identifier and exactly when it has a drive identifier, and each key has
/// one identifier of each kind: `server_id(k)` gives `s` exactly when
/// `key_from_server(s)` gives `k`, and the same for drives. `add_project`
/// and `delete_project` keep the registry well formed, whatever they return.
pub proof fn lemma_lookups_agree(reg: ProjectRegistry, k: u64)
    requires
        reg.wf(),
    ensures
        reg.projects().contains_key(k) == reg.servers().values().contains(k),
        reg.projects().contains_key(k) == reg.drives().values().contains(k),
        forall|s1: u64, s2: u64|
            #![trigger reg.servers()[s1], reg.servers()[s2]]
            reg.servers().contains_key(s1) && reg.servers().contains_key(s2) && reg.servers()[s1] == k
                && reg.servers()[s2] == k ==> s1 == s2,
        forall|d1: Seq<char>, d2: Seq<char>|
            #![trigger reg.drives()[d1], reg.drives()[d2]]
            reg.drives().contains_key(d1) && reg.drives().contains_key(d2) && reg.drives()[d1] == k
                && reg.drives()[d2] == k ==> d1 == d2,
{
}

/// Once a project is deleted, neither its key nor any identifier leads to it.
pub proof fn lemma_deleted_leaves_nothing(before: ProjectRegistry, after: ProjectRegistry, k: u64)
    requires
        before.deleted(after, k),
    ensures
        !after.projects().contains_key(k),
        !after.servers().values().contains(k),
        !after.drives().values().contains(k),
{
}

/// Adding a fresh pair `(l, r)` and then dropping the pairs with the right
/// side `r` gives back the map.
proof fn lemma_without_right_of_insert<L>(m: Map<L, u64>, l: L, r: u64)
    requires
        !m.contains_key(l),
        !m.values().contains(r),
    ensures
        without_right(m.insert(l, r), r) == m,
{
    let n = m.insert(l, r);
    let gone = n.dom().filter(|x: L| n[x] == r);
    assert forall|x: L| #[trigger] gone.contains(x) == (x == l) by {
        if x != l && n.dom().contains(x) && n[x] == r {
            assert(m.values().contains(r));
        }
    }
    assert(without_right(n, r) =~= m);
}

impl Default for ProjectRegistry {
    fn default() -> (r: Self)
        ensures
            r.wf(),
            r.projects() == Map::<u64, Project>::empty(),
            r.servers() == Map::<u64, u64>::empty(),
            r.drives() == Map::<Seq<char>, u64>::empty(),
    {
        ProjectRegistry::new()
    }
}

} // verus!
