use vstd::prelude::*;
use chrono::NaiveDate;
use std::collections::BTreeSet;
use vstd::std_specs::iter::IteratorSpec;
use vstd::std_specs::cmp::OrdSpec;
use vstd::multiset::Multiset;
use crate::production::ParticipantId;
use crate::production::asset::Ticket;
use crate::production::slot::{
    SlotPool, slot_capacity, task_pool_get, task_pool_get_mut, task_pool_insert, task_pool_new,
    task_pool_remove, task_slots, valid_key,
};
use crate::production::workflow::{Workflow, WorkflowType};

verus! {

/// The errors of task operations.
#[derive(Clone, Copy, Debug, PartialEq, Eq, Structural)]
pub enum TaskError {
    NotFound,
    NoAuthority,
}

pub type TaskResult<T> = Result<T, TaskError>;

impl TaskError {
    /// The message that describes the error.
    pub fn message(&self) -> (r: &'static str)
        ensures
            r@ == self.message_spec(),
    {
        match self {
            TaskError::NotFound => "task not found",
            TaskError::NoAuthority => "",
        }
    }

    pub open spec fn message_spec(&self) -> Seq<char> {
        match self {
            TaskError::NotFound => "task not found"@,
            TaskError::NoAuthority => ""@,
        }
    }
}

#[verifier::external_type_specification]
#[verifier::external_body]
pub struct ExNaiveDate(chrono::NaiveDate);

/// `<NaiveDate as PartialEq>::eq`. `NaiveDate` derives `PartialEq` over its
/// one field, so two dates compare equal exactly when they are the same value.
#[verifier::external_body]
fn same_date(a: &NaiveDate, b: &NaiveDate) -> (r: bool)
    ensures
        r == (*a == *b),
{
    a == b
}

/// Whether two optional deadlines are the same.
fn same_deadline(a: Option<NaiveDate>, b: Option<NaiveDate>) -> (r: bool)
    ensures
        r == (a == b),
{
    match (a, b) {
        (None, None) => true,
        (Some(x), Some(y)) => same_date(&x, &y),
        _ => false,
    }
}

/// The key of a task in its list.
#[derive(Clone, Copy, Debug, PartialEq, Eq, Structural, PartialOrd, Ord, Hash)]
pub struct TaskKey(u64);

impl TaskKey {
    #[verifier::type_invariant]
    spec fn inv(self) -> bool {
        valid_key(self.0)
    }

    /// The number that identifies the key.
    pub closed spec fn id(self) -> u64 {
        self.0
    }

    /// Keys with the same number are the same key.
    pub proof fn lemma_id_determines(self, other: Self)
        requires
            self.id() == other.id(),
        ensures
            self == other,
    {
    }

    fn raw(self) -> (r: u64)
        ensures
            r == self.id(),
            valid_key(r),
    {
        proof {
            use_type_invariant(&self);
        }
        self.0
    }
}

/// Strictly increasing.
pub open spec fn ascending(v: Seq<usize>) -> bool {
    forall|i: int, j: int| 0 <= i < j < v.len() ==> v[i] < v[j]
}

/// The items of a set of positions, smallest first.
pub open spec fn sorted_positions(s: Set<usize>) -> Seq<usize> {
    choose|v: Seq<usize>| ascending(v) && v.to_set() == s
}

/// Removes the items at `positions` one after another, each position counted
/// in what is left at its turn: the removed items in turn, and what is left.
pub open spec fn remove_in_turn<A>(s: Seq<A>, positions: Seq<usize>) -> (Seq<A>, Seq<A>)
    decreases positions.len(),
{
    if positions.len() == 0 {
        (seq![], s)
    } else {
        let p = positions[0] as int;
        let rest = remove_in_turn(s.remove(p), positions.drop_first());
        (seq![s[p]] + rest.0, rest.1)
    }
}

/// The positions of `s` below `n`, smallest first.
spec fn positions_below(s: Set<usize>, n: nat) -> Seq<usize>
    decreases n,
{
    if n == 0 {
        seq![]
    } else {
        let rest = positions_below(s, (n - 1) as nat);
        if s.contains((n - 1) as usize) {
            rest.push((n - 1) as usize)
        } else {
            rest
        }
    }
}

proof fn lemma_positions_below(s: Set<usize>, n: nat)
    requires
        n <= usize::MAX + 1,
    ensures
        ascending(positions_below(s, n)),
        forall|i: int| 0 <= i < positions_below(s, n).len() ==> positions_below(s, n)[i] < n,
        positions_below(s, n).to_set() == s.filter(|x: usize| x < n),
    decreases n,
{
    let v = positions_below(s, n);
    if n == 0 {
        assert(v.to_set() =~= s.filter(|x: usize| x < n));
    } else {
        let m = (n - 1) as nat;
        lemma_positions_below(s, m);
        let rest = positions_below(s, m);
        assert forall|x: usize| #[trigger] v.to_set().contains(x) == s.filter(|x: usize| x < n).contains(x) by {
            if v.to_set().contains(x) {
                let i = choose|i: int| 0 <= i < v.len() && v[i] == x;
                if i < rest.len() {
                    assert(rest[i] == x);
                    assert(rest.to_set().contains(x));
                }
            }
            if s.filter(|x: usize| x < n).contains(x) {
                if x == m {
                    assert(v[v.len() - 1] == x);
                } else {
                    assert(s.filter(|x: usize| x < m).contains(x));
                    assert(rest.to_set().contains(x));
                    let i = choose|i: int| 0 <= i < rest.len() && rest[i] == x;
                    assert(v[i] == x);
                }
            }
        }
        assert(v.to_set() =~= s.filter(|x: usize| x < n));
    }
}

/// The positions of a set, smallest first, rise strictly and are exactly
/// the set's items.
pub proof fn lemma_sorted_positions(s: Set<usize>)
    ensures
        ascending(sorted_positions(s)),
        sorted_positions(s).to_set() == s,
{
    let n: nat = usize::MAX as nat + 1;
    lemma_positions_below(s, n);
    assert(s.filter(|x: usize| x < n) =~= s);
    let v = positions_below(s, n);
    assert(ascending(v) && v.to_set() == s);
}

/// Removing items one after another, each position valid at its turn,
/// loses no item and makes none up: the removed items and those left are,
/// together, the items there were.
pub proof fn lemma_remove_in_turn_keeps_items<A>(s: Seq<A>, positions: Seq<usize>)
    requires
        forall|j: int| 0 <= j < positions.len() ==> #[trigger] positions[j] + j < s.len(),
    ensures
        remove_in_turn(s, positions).0.len() == positions.len(),
        remove_in_turn(s, positions).0.len() + remove_in_turn(s, positions).1.len() == s.len(),
        remove_in_turn(s, positions).0.to_multiset().add(remove_in_turn(s, positions).1.to_multiset())
            == s.to_multiset(),
    decreases positions.len(),
{
    broadcast use vstd::multiset::group_multiset_axioms;
    broadcast use vstd::seq_lib::group_to_multiset_ensures;

    if positions.len() == 0 {
        assert(Seq::<A>::empty().to_multiset().add(s.to_multiset()) =~= s.to_multiset());
    } else {
        let p = positions[0] as int;
        assert(positions[0] + 0 < s.len());
        let rest_positions = positions.drop_first();
        assert forall|j: int| 0 <= j < rest_positions.len() implies #[trigger] rest_positions[j] + j
            < s.remove(p).len() by {
            assert(rest_positions[j] == positions[j + 1]);
            assert(positions[j + 1] + (j + 1) < s.len());
        }
        lemma_remove_in_turn_keeps_items(s.remove(p), rest_positions);
        let rest = remove_in_turn(s.remove(p), rest_positions);
        vstd::seq_lib::lemma_multiset_commutative(seq![s[p]], rest.0);
        vstd::seq_lib::to_multiset_remove(s, p);
        assert(seq![s[p]].to_multiset() =~= Multiset::singleton(s[p])) by {
            assert(seq![s[p]] =~= Seq::<A>::empty().push(s[p]));
        }
        assert(s.to_multiset().count(s[p]) > 0) by {
            vstd::seq_lib::to_multiset_contains(s, s[p]);
        }
        let whole = s.to_multiset();
        assert(rest.0.to_multiset().add(rest.1.to_multiset()) == whole.remove(s[p]));
        assert forall|v: A| #[trigger] Multiset::singleton(s[p]).add(rest.0.to_multiset()).add(
            rest.1.to_multiset(),
        ).count(v) == whole.count(v) by {
            assert(rest.0.to_multiset().add(rest.1.to_multiset()).count(v) == whole.remove(s[p]).count(
                v,
            ));
        }
        assert(Multiset::singleton(s[p]).add(rest.0.to_multiset()).add(rest.1.to_multiset())
            =~= whole);
    }
}

proof fn lemma_ascending_unique(v: Seq<usize>, w: Seq<usize>)
    requires
        ascending(v),
        ascending(w),
        v.to_set() == w.to_set(),
    ensures
        v == w,
    decreases v.len(),
{
    if v.len() == 0 {
        if w.len() > 0 {
            assert(w.to_set().contains(w[0]));
        }
        assert(v =~= w);
    } else {
        assert(v.to_set().contains(v[0]));
        assert(w.len() > 0);
        assert(w.to_set().contains(w[0]));
        let i = choose|i: int| 0 <= i < w.len() && w[i] == v[0];
        let j = choose|j: int| 0 <= j < v.len() && v[j] == w[0];
        assert(v[0] <= v[j]);
        assert(w[0] <= w[i]);
        assert(v[0] == w[0]);
        let v1 = v.drop_first();
        let w1 = w.drop_first();
        assert forall|x: usize| v1.to_set().contains(x) implies w1.to_set().contains(x) by {
            let a = choose|a: int| 0 <= a < v1.len() && v1[a] == x;
            assert(v.to_set().contains(x));
            assert(v[a + 1] == x);
            let b = choose|b: int| 0 <= b < w.len() && w[b] == x;
            assert(b != 0);
            assert(w1[b - 1] == x);
        }
        assert forall|x: usize| w1.to_set().contains(x) implies v1.to_set().contains(x) by {
            let a = choose|a: int| 0 <= a < w1.len() && w1[a] == x;
            assert(w.to_set().contains(x));
            assert(w[a + 1] == x);
            let b = choose|b: int| 0 <= b < v.len() && v[b] == x;
            assert(b != 0);
            assert(v1[b - 1] == x);
        }
        assert(v1.to_set() =~= w1.to_set());
        lemma_ascending_unique(v1, w1);
        assert(v =~= seq![v[0]] + v1);
        assert(w =~= seq![w[0]] + w1);
    }
}

/// The positions that a set of positions gives out in increasing order
/// come smallest first.
proof fn lemma_increasing_positions(rem: Seq<&usize>)
    requires
        vstd::std_specs::btree::increasing_seq(rem),
    ensures
        ascending(rem.map_values(|r: &usize| *r)),
{
    broadcast use vstd::laws_cmp::lemma_ref_obeys_cmp_spec;

    assert(vstd::laws_cmp::obeys_cmp::<usize>());
    assert(vstd::laws_cmp::obeys_cmp::<&usize>());
    vstd::std_specs::btree::axiom_increasing_seq_meaning(rem);
    assert forall|i: int, j: int| 0 <= i < j < rem.len() implies *rem[i] < *rem[j] by {
        assert(OrdSpec::cmp_spec(&rem[i], &rem[j]) is Less);
    }
}

/// A piece of work on a workflow: who does it, by when, and on which assets.
pub struct Task {
    workflow: Workflow,
    deadline: Option<NaiveDate>,
    participant: Option<ParticipantId>,
    tickets: Vec<Ticket>,
}

impl Task {
    pub closed spec fn workflow_of(self) -> Workflow {
        self.workflow
    }

    pub closed spec fn deadline_of(self) -> Option<NaiveDate> {
        self.deadline
    }

    pub closed spec fn participant_of(self) -> Option<ParticipantId> {
        self.participant
    }

    /// The tickets that the task holds, in order.
    pub closed spec fn tickets_of(self) -> Seq<Ticket> {
        self.tickets@
    }

    /// A new task of type `ty`: not started, with no deadline, no
    /// participant and no tickets.
    pub open spec fn is_fresh(self, ty: WorkflowType) -> bool {
        &&& self.workflow_of() == Workflow::fresh(ty)
        &&& self.deadline_of() is None
        &&& self.participant_of() is None
        &&& self.tickets_of().len() == 0
    }

    /// Whether the task may be discarded: it has a participant or a deadline.
    pub open spec fn discardable(self) -> bool {
        self.participant_of() is Some || self.deadline_of() is Some
    }

    /// Whether the two tasks differ in deadline, participant or workflow.
    pub open spec fn differs(self, other: Task) -> bool {
        ||| self.deadline_of() != other.deadline_of()
        ||| self.participant_of() != other.participant_of()
        ||| self.workflow_of() != other.workflow_of()
    }

    /// What a split at `indices` leaves: `part` holds the tickets taken out,
    /// in the order taken, `rest` those left, and both keep the workflow,
    /// deadline and participant of `self`.
    pub open spec fn split_into(self, rest: Task, part: Task, indices: Set<usize>) -> bool {
        let moved = remove_in_turn(self.tickets_of(), sorted_positions(indices));
        &&& part.tickets_of() == moved.0
        &&& part.workflow_of() == self.workflow_of()
        &&& part.deadline_of() == self.deadline_of()
        &&& part.participant_of() == self.participant_of()
        &&& rest.tickets_of() == moved.1
        &&& rest.workflow_of() == self.workflow_of()
        &&& rest.deadline_of() == self.deadline_of()
        &&& rest.participant_of() == self.participant_of()
    }

    pub fn new(ty: WorkflowType) -> (r: Self)
        ensures
            r.is_fresh(ty),
    {
        Task { workflow: Workflow::new(ty), deadline: None, participant: None, tickets: Vec::new() }
    }

    pub fn workflow(&self) -> (r: &Workflow)
        ensures
            *r == self.workflow_of(),
    {
        &self.workflow
    }

    /// The workflow, to be changed in place.
    pub fn workflow_mut(&mut self) -> (r: &mut Workflow)
        ensures
            *r == old(self).workflow_of(),
            final(self).workflow_of() == *final(r),
            final(self).deadline_of() == old(self).deadline_of(),
            final(self).participant_of() == old(self).participant_of(),
            final(self).tickets_of() == old(self).tickets_of(),
    {
        &mut self.workflow
    }

    pub fn workflow_type(&self) -> (r: WorkflowType)
        ensures
            r == self.workflow_of().type_of(),
    {
        self.workflow.get_type()
    }

    pub fn participant(&self) -> (r: Option<ParticipantId>)
        ensures
            r == self.participant_of(),
    {
        self.participant
    }

    pub fn reset_participant(&mut self)
        ensures
            final(self).participant_of() is None,
            final(self).workflow_of() == old(self).workflow_of(),
            final(self).deadline_of() == old(self).deadline_of(),
            final(self).tickets_of() == old(self).tickets_of(),
    {
        self.participant = None;
    }

    pub fn set_participant(&mut self, participant: ParticipantId)
        ensures
            final(self).participant_of() == Some(participant),
            final(self).workflow_of() == old(self).workflow_of(),
            final(self).deadline_of() == old(self).deadline_of(),
            final(self).tickets_of() == old(self).tickets_of(),
    {
        self.participant = Some(participant);
    }

    pub fn deadline(&self) -> (r: Option<NaiveDate>)
        ensures
            r == self.deadline_of(),
    {
        self.deadline
    }

    pub fn reset_deadline(&mut self)
        ensures
            final(self).deadline_of() is None,
            final(self).workflow_of() == old(self).workflow_of(),
            final(self).participant_of() == old(self).participant_of(),
            final(self).tickets_of() == old(self).tickets_of(),
    {
        self.deadline = None;
    }

    pub fn set_deadline(&mut self, date: NaiveDate)
        ensures
            final(self).deadline_of() == Some(date),
            final(self).workflow_of() == old(self).workflow_of(),
            final(self).participant_of() == old(self).participant_of(),
            final(self).tickets_of() == old(self).tickets_of(),
    {
        self.deadline = Some(date);
    }

    pub(crate) fn tickets(&self) -> (r: &Vec<Ticket>)
        ensures
            r@ == self.tickets_of(),
    {
        &self.tickets
    }

    /// The tickets, to be changed in place.
    pub(crate) fn tickets_mut(&mut self) -> (r: &mut Vec<Ticket>)
        ensures
            r@ == old(self).tickets_of(),
            final(self).tickets_of() == final(r)@,
            final(self).workflow_of() == old(self).workflow_of(),
            final(self).deadline_of() == old(self).deadline_of(),
            final(self).participant_of() == old(self).participant_of(),
    {
        &mut self.tickets
    }

    /// Moves the tickets at `indices` into a new task with the same workflow,
    /// deadline and participant. The tickets are removed one after another
    /// from the smallest index up, each index counted in what is left at its
    /// turn; an index past the end of the original tickets fails the split
    /// with nothing moved.
    pub fn split(&mut self, indices: BTreeSet<usize>) -> (r: TaskResult<Self>)
        requires
            (forall|i: usize| #[trigger] indices@.contains(i) ==> i < old(self).tickets_of().len())
                ==> forall|i: usize| #[trigger]
                indices@.contains(i) ==> i + indices@.len() <= old(self).tickets_of().len(),
        ensures
            (exists|i: usize| #[trigger]
                indices@.contains(i) && i >= old(self).tickets_of().len()) ==> r
                == Err::<Task, TaskError>(TaskError::NotFound) && *final(self) == *old(self),
            (forall|i: usize| #[trigger] indices@.contains(i) ==> i < old(self).tickets_of().len())
                ==> (r matches Ok(t) && old(self).split_into(*final(self), t, indices@)),
    {
        let ghost set = indices@;
        let ghost len = self.tickets@.len();
        let mut positions: Vec<usize> = Vec::new();
        let ghost all = vstd::std_specs::btree::spec_btree_keys_iter(&indices).remaining().map_values(
            |r: &usize| *r,
        );
        for x in it: indices.iter()
            invariant
                all == it.seq().map_values(|r: &usize| *r),
                positions@ == it.seq().take(it.index() as int).map_values(|r: &usize| *r),
        {
            assert(it.seq().take(it.index() + 1).map_values(|r: &usize| *r) =~= positions@.push(
                *x,
            ));
            positions.push(*x);
        }
        assert(positions@ =~= all);
        proof {
            broadcast use vstd::std_specs::btree::group_btree_axioms;

            let rem = vstd::std_specs::btree::spec_btree_keys_iter(&indices).remaining();
            lemma_increasing_positions(rem);
            assert(rem.unref().to_set() == indices@);
            assert(positions@.to_set() =~= set) by {
                assert(rem.unref() =~= positions@);
            }
            assert(positions@.len() == set.len());
            lemma_ascending_unique(positions@, sorted_positions(set));
        }
        let ghost v = positions@;
        let n = self.tickets.len();
        let m = positions.len();
        if m > 0 && positions[m - 1] >= n {
            proof {
                assert(v.to_set().contains(v[m - 1]));
            }
            return Err(TaskError::NotFound);
        }
        proof {
            assert forall|i: usize| #[trigger] set.contains(i) implies i < n by {
                assert(v.to_set().contains(i));
                let k = choose|k: int| 0 <= k < v.len() && v[k] == i;
                assert(v[k] <= v[m - 1]);
            }
            assert(v.skip(0) =~= v);
        }
        let mut taken: Vec<Ticket> = Vec::new();
        let mut j: usize = 0;
        while j < m
            invariant
                positions@ == v,
                v.len() == m,
                v.to_set() == set,
                forall|i: usize| #[trigger] set.contains(i) ==> i + m <= n,
                j <= m,
                self.tickets@.len() == n - j,
                remove_in_turn(old(self).tickets@, v) == (
                    taken@ + remove_in_turn(self.tickets@, v.skip(j as int)).0,
                    remove_in_turn(self.tickets@, v.skip(j as int)).1,
                ),
                self.workflow == old(self).workflow,
                self.deadline == old(self).deadline,
                self.participant == old(self).participant,
            decreases m - j,
        {
            let p = positions[j];
            proof {
                assert(v.to_set().contains(v[j as int]));
                let rest = v.skip(j as int);
                assert(rest.drop_first() =~= v.skip(j + 1));
                assert(rest[0] == p);
            }
            let ghost cur = self.tickets@;
            let t = self.tickets.remove(p);
            proof {
                assert(taken@.push(t) + remove_in_turn(self.tickets@, v.skip(j + 1)).0 =~= taken@
                    + remove_in_turn(cur, v.skip(j as int)).0);
            }
            taken.push(t);
            j = j + 1;
        }
        proof {
            assert(v.skip(m as int) =~= Seq::<usize>::empty());
            assert(taken@ + Seq::<Ticket>::empty() =~= taken@);
        }
        Ok(Task {
            workflow: self.workflow,
            deadline: self.deadline,
            participant: self.participant,
            tickets: taken,
        })
    }

    /// Whether the two tasks differ in deadline, participant or workflow;
    /// `merge` refuses exactly such a pair.
    pub fn can_marge(&self, other: &Self) -> (r: bool)
        ensures
            r == self.differs(*other),
    {
        !same_deadline(self.deadline, other.deadline) || self.participant != other.participant
            || self.workflow != other.workflow
    }

    /// Takes over the tickets of `other`, appended after its own, when the
    /// two tasks agree in deadline, participant and workflow; otherwise gives
    /// `other` back.
    pub fn merge(&mut self, other: Self) -> (r: Result<(), Self>)
        ensures
            old(self).differs(other) ==> (r matches Err(o) && o == other && *final(self) == *old(self)),
            !old(self).differs(other) ==> {
                &&& r is Ok
                &&& final(self).tickets_of() == old(self).tickets_of() + other.tickets_of()
                &&& final(self).workflow_of() == old(self).workflow_of()
                &&& final(self).deadline_of() == old(self).deadline_of()
                &&& final(self).participant_of() == old(self).participant_of()
            },
    {
        if self.can_marge(&other) {
            Err(other)
        } else {
            let mut other = other;
            self.tickets.append(&mut other.tickets);
            Ok(())
        }
    }

    /// Whether the task may be discarded: it has a participant or a deadline.
    pub fn can_discard(&self) -> (r: bool)
        ensures
            r == self.discardable(),
    {
        self.participant.is_some() || self.deadline.is_some()
    }

    /// The task's tickets, the task itself given up.
    pub(crate) fn discard_unchecked(self) -> (r: Vec<Ticket>)
        ensures
            r@ == self.tickets_of(),
    {
        self.tickets
    }
}

/// A part split off a task merges back into what is left of it, and the
/// tickets of the two, taken together, are the tickets the task held: a
/// split loses no ticket and makes none up.
pub proof fn lemma_split_merges_back(before: Task, rest: Task, part: Task, indices: Set<usize>)
    requires
        before.split_into(rest, part, indices),
        forall|i: usize| #[trigger] indices.contains(i) ==> i < before.tickets_of().len(),
        (forall|i: usize| #[trigger] indices.contains(i) ==> i < before.tickets_of().len()) ==> forall|
            i: usize,
        | #[trigger] indices.contains(i) ==> i + indices.len() <= before.tickets_of().len(),
    ensures
        !rest.differs(part),
        part.tickets_of().len() == indices.len(),
        (rest.tickets_of() + part.tickets_of()).to_multiset() == before.tickets_of().to_multiset(),
{
    let v = sorted_positions(indices);
    lemma_sorted_positions(indices);
    assert(v.no_duplicates()) by {
        assert forall|i: int, j: int| 0 <= i < v.len() && 0 <= j < v.len() && i != j implies v[i] != v[j] by {
            if i < j {
                assert(v[i] < v[j]);
            } else {
                assert(v[j] < v[i]);
            }
        }
    }
    v.unique_seq_to_set();
    assert forall|j: int| 0 <= j < v.len() implies #[trigger] v[j] + j < before.tickets_of().len() by {
        assert(v.to_set().contains(v[j]));
    }
    lemma_remove_in_turn_keeps_items(before.tickets_of(), v);
    let moved = remove_in_turn(before.tickets_of(), v);
    vstd::seq_lib::lemma_multiset_commutative(moved.1, moved.0);
    vstd::seq_lib::lemma_multiset_commutative(moved.0, moved.1);
    assert(moved.1.to_multiset().add(moved.0.to_multiset()) =~= moved.0.to_multiset().add(
        moved.1.to_multiset(),
    )) by {
        broadcast use vstd::multiset::group_multiset_axioms;
    }
}

/// A split at the tail of the tickets, merged back, keeps the tickets in
/// their order. (Taking the indices one after another from the smallest
/// up, a tail of more than one index runs past the end, which `split`
/// refuses by its precondition; so the tail holds at most one index.)
pub proof fn lemma_split_tail_keeps_order(
    before: Task,
    rest: Task,
    part: Task,
    indices: Set<usize>,
    m: int,
)
    requires
        before.split_into(rest, part, indices),
        forall|i: usize| #[trigger] indices.contains(i) <==> m <= i < before.tickets_of().len(),
        (forall|i: usize| #[trigger] indices.contains(i) ==> i < before.tickets_of().len()) ==> forall|
            i: usize,
        | #[trigger] indices.contains(i) ==> i + indices.len() <= before.tickets_of().len(),
    ensures
        rest.tickets_of() + part.tickets_of() == before.tickets_of(),
{
    let s = before.tickets_of();
    let v = sorted_positions(indices);
    lemma_sorted_positions(indices);
    assert(v.no_duplicates()) by {
        assert forall|i: int, j: int| 0 <= i < v.len() && 0 <= j < v.len() && i != j implies v[i] != v[j] by {
            if i < j {
                assert(v[i] < v[j]);
            } else {
                assert(v[j] < v[i]);
            }
        }
    }
    v.unique_seq_to_set();
    if s.len() > 0 && m < s.len() {
        assert(s.len() == before.tickets.len());
        let last = (s.len() - 1) as usize;
        assert(m <= last < s.len());
        assert(indices.contains(last));
        assert(v.len() <= 1);
        assert(v.to_set().contains(last));
        assert(v =~= seq![last]);
        assert(v.drop_first() =~= Seq::<usize>::empty());
        let inner = remove_in_turn(s.remove(last as int), v.drop_first());
        assert(inner == (Seq::<Ticket>::empty(), s.remove(last as int)));
        assert(part.tickets_of() =~= seq![s[last as int]]);
        assert(rest.tickets_of() == s.remove(last as int));
        assert(s.remove(last as int) + seq![s[last as int]] =~= s);
    } else {
        assert(v.len() == 0) by {
            if v.len() > 0 {
                assert(v.to_set().contains(v[0]));
            }
        }
        assert(s + Seq::<Ticket>::empty() =~= s);
    }
}

/// `merge` takes over `other` exactly when the two tasks have the same
/// deadline (as dates, not only both set or both unset), the same
/// participant and the same workflow; otherwise it gives `other` back and
/// leaves the task as it was. `can_marge` answers `true` exactly on the
/// pairs that `merge` refuses.
pub proof fn lemma_merge_needs_same_fields(a: Task, b: Task)
    ensures
        a.differs(b) <==> (a.deadline_of() != b.deadline_of() || a.participant_of() != b.participant_of()
            || a.workflow_of() != b.workflow_of()),
        forall|d1: NaiveDate, d2: NaiveDate|
            a.deadline_of() == Some(d1) && b.deadline_of() == Some(d2) && d1 != d2 ==> a.differs(b),
{
}

/// A task with a participant may be discarded, whatever its deadline; so
/// may a task with a deadline, whatever its participant; a task with
/// neither may not.
pub proof fn lemma_discardable_fields(t: Task)
    ensures
        t.participant_of() is Some ==> t.discardable(),
        t.deadline_of() is Some ==> t.discardable(),
        t.participant_of() is None && t.deadline_of() is None ==> !t.discardable(),
{
}

/// Whether two tasks differ does not depend on which is asked about the other.
pub proof fn lemma_differs_symmetric(a: Task, b: Task)
    ensures
        a.differs(b) == b.differs(a),
{
}

/// The tasks of a project, in the order in which they were added.
pub struct TaskList {
    pool: SlotPool<Task>,
    keys: Vec<TaskKey>,
}

impl TaskList {
    /// The tasks, by key number.
    pub closed spec fn tasks(self) -> Map<u64, Task> {
        task_slots(self.pool)
    }

    /// The keys of the tasks, in order.
    pub closed spec fn order(self) -> Seq<TaskKey> {
        self.keys@
    }

    /// The list's invariant: the order names each task exactly once.
    pub open spec fn wf(self) -> bool {
        &&& self.tasks().dom().finite()
        &&& self.order().no_duplicates()
        &&& self.order().len() == self.tasks().len()
        &&& forall|i: int|
            0 <= i < self.order().len() ==> self.tasks().contains_key(#[trigger] self.order()[i].id())
        &&& forall|k: u64|
            #![trigger self.tasks().contains_key(k)]
            self.tasks().contains_key(k) ==> valid_key(k) && exists|i: int|
                0 <= i < self.order().len() && #[trigger] self.order()[i].id() == k
    }

    /// An empty list.
    pub fn new() -> (r: Self)
        ensures
            r.wf(),
            r.tasks() == Map::<u64, Task>::empty(),
            r.order().len() == 0,
    {
        let r = TaskList { pool: task_pool_new(), keys: Vec::new() };
        proof {
            assert(r.tasks() =~= Map::<u64, Task>::empty());
        }
        r
    }

    /// The task under `key`.
    pub fn task(&self, key: TaskKey) -> (r: TaskResult<&Task>)
        ensures
            self.tasks().contains_key(key.id()) ==> (r matches Ok(t) && *t == self.tasks()[key.id()]),
            !self.tasks().contains_key(key.id()) ==> r == Err::<&Task, TaskError>(TaskError::NotFound),
    {
        match task_pool_get(&self.pool, key.raw()) {
            Some(t) => Ok(t),
            None => Err(TaskError::NotFound),
        }
    }

    /// The task under `key`, to be changed in place.
    pub fn task_mut(&mut self, key: TaskKey) -> (r: TaskResult<&mut Task>)
        ensures
            old(self).tasks().contains_key(key.id()) ==> r is Ok,
            !old(self).tasks().contains_key(key.id()) ==> r is Err && r->Err_0
                == TaskError::NotFound,
            r is Ok ==> *r.unwrap() == old(self).tasks()[key.id()] && final(self).tasks() == old(
                self,
            ).tasks().insert(key.id(), *final(r.unwrap())),
            r is Err ==> final(self).tasks() == old(self).tasks(),
            final(self).order() == old(self).order(),
            old(self).wf() ==> final(self).wf(),
    {
        let k = key.raw();
        proof {
            assert forall|v: Task| #[trigger] old(self).tasks().insert(k, v).dom() == old(
                self,
            ).tasks().dom().insert(k) by {}
            if old(self).tasks().contains_key(k) {
                assert(old(self).tasks().dom().insert(k) =~= old(self).tasks().dom());
            }
        }
        match task_pool_get_mut(&mut self.pool, k) {
            Some(t) => Ok(t),
            None => Err(TaskError::NotFound),
        }
    }

    /// Adds a new task of type `ty` at the end of the list.
    pub fn add_task(&mut self, ty: WorkflowType)
        requires
            old(self).wf(),
            old(self).tasks().len() < slot_capacity(),
        ensures
            final(self).wf(),
            final(self).order().len() == old(self).order().len() + 1,
            final(self).order().drop_last() == old(self).order(),
            ({
                let k = final(self).order().last().id();
                &&& !old(self).tasks().contains_key(k)
                &&& final(self).tasks() == old(self).tasks().insert(k, final(self).tasks()[k])
                &&& final(self).tasks()[k].is_fresh(ty)
            }),
    {
        let k = task_pool_insert(&mut self.pool, Task::new(ty));
        let key = TaskKey(k);
        proof {
            assert forall|i: int| 0 <= i < old(self).keys@.len() implies old(self).keys@[i].id() != k by {
                assert(old(self).tasks().contains_key(old(self).keys@[i].id()));
            }
        }
        self.keys.push(key);
        proof {
            assert(self.keys@.drop_last() =~= old(self).keys@);
            assert forall|x: u64| #[trigger] self.tasks().contains_key(x) implies valid_key(x)
                && exists|i: int| 0 <= i < self.keys@.len() && #[trigger] self.keys@[i].id() == x by {
                if x == k {
                    assert(self.keys@[self.keys@.len() - 1].id() == x);
                } else {
                    assert(old(self).tasks().contains_key(x));
                    let i = choose|i: int| 0 <= i < old(self).keys@.len() && #[trigger] old(self).keys@[i].id() == x;
                    assert(self.keys@[i].id() == x);
                }
            }
            assert forall|i: int| 0 <= i < self.keys@.len() implies self.tasks().contains_key(#[trigger] self.keys@[i].id()) by {
                if i < old(self).keys@.len() {
                    assert(self.keys@[i] == old(self).keys@[i]);
                }
            }
            assert forall|i: int, j: int| 0 <= i < j < self.keys@.len() implies self.keys@[i] != self.keys@[j] by {
                if j == self.keys@.len() - 1 {
                    assert(self.keys@[i].id() != k);
                } else {
                    assert(self.keys@[i] == old(self).keys@[i]);
                    assert(self.keys@[j] == old(self).keys@[j]);
                }
            }
        }
    }

    /// The keys of the tasks, in order.
    pub fn keys_iter(&self) -> (r: &[TaskKey])
        ensures
            r@ == self.order(),
    {
        self.keys.as_slice()
    }

    /// The key of the `index`-th task.
    pub fn key(&self, index: usize) -> (r: TaskResult<TaskKey>)
        ensures
            index < self.order().len() ==> r == Ok::<TaskKey, TaskError>(self.order()[index as int]),
            index >= self.order().len() ==> r == Err::<TaskKey, TaskError>(TaskError::NotFound),
    {
        if index < self.keys.len() {
            Ok(self.keys[index])
        } else {
            Err(TaskError::NotFound)
        }
    }

    /// Takes the task under `key` out of the list.
    pub fn remove_task(&mut self, key: TaskKey) -> (r: TaskResult<Task>)
        requires
            old(self).wf(),
            old(self).order().contains(key),
        ensures
            final(self).wf(),
            r == Ok::<Task, TaskError>(old(self).tasks()[key.id()]),
            final(self).tasks() == old(self).tasks().remove(key.id()),
            forall|i: int|
                0 <= i < old(self).order().len() && #[trigger] old(self).order()[i] == key
                    ==> final(self).order() == old(self).order().remove(i),
    {
        let mut i: usize = 0;
        while i < self.keys.len() && self.keys[i] != key
            invariant
                i <= self.keys@.len(),
                self.keys@ == old(self).keys@,
                forall|j: int| 0 <= j < i ==> self.keys@[j] != key,
            decreases self.keys@.len() - i,
        {
            i = i + 1;
        }
        proof {
            if i == self.keys@.len() {
                let w = choose|w: int| 0 <= w < self.keys@.len() && self.keys@[w] == key;
                assert(self.keys@[w] != key);
            }
            assert forall|w: int| 0 <= w < old(self).keys@.len() && #[trigger] old(self).keys@[w] == key implies w == i by {
                if w != i {
                    assert(old(self).keys@[w] == old(self).keys@[i as int]);
                }
            }
        }
        self.keys.remove(i);
        let removed = task_pool_remove(&mut self.pool, key.raw());
        proof {
            let old_keys = old(self).keys@;
            assert(old_keys[i as int] == key);
            assert forall|a: int, b: int| 0 <= a < b < self.keys@.len() implies self.keys@[a] != self.keys@[b] by {
                let a2 = if a < i { a } else { a + 1 };
                let b2 = if b < i { b } else { b + 1 };
                assert(self.keys@[a] == old_keys[a2]);
                assert(self.keys@[b] == old_keys[b2]);
            }
            assert forall|j: int| 0 <= j < self.keys@.len() implies self.tasks().contains_key(#[trigger] self.keys@[j].id()) by {
                let j2 = if j < i { j } else { j + 1 };
                assert(self.keys@[j] == old_keys[j2]);
                assert(old(self).tasks().contains_key(old_keys[j2].id()));
                assert(old_keys[j2] != key);
                assert(old_keys[j2].id() != key.id());
            }
            assert forall|x: u64| #[trigger] self.tasks().contains_key(x) implies valid_key(x)
                && exists|j: int| 0 <= j < self.keys@.len() && #[trigger] self.keys@[j].id() == x by {
                assert(old(self).tasks().contains_key(x));
                let j = choose|j: int| 0 <= j < old_keys.len() && #[trigger] old_keys[j].id() == x;
                assert(j != i);
                if j < i {
                    assert(self.keys@[j].id() == x);
                } else {
                    assert(self.keys@[j - 1].id() == x);
                }
            }
        }
        match removed {
            Some(t) => Ok(t),
            None => Err(TaskError::NotFound),
        }
    }
}

impl Default for TaskList {
    fn default() -> (r: Self)
        ensures
            r.wf(),
            r.tasks().len() == 0,
            r.order().len() == 0,
    {
        TaskList::new()
    }
}

} // verus!
