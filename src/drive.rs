use vstd::prelude::*;

use crate::err::Error;

verus! {

/// A unit of periodic work, run once per tick against a context `X`. It
/// answers whether it wants to run again.
pub trait Drive<X> {
    fn drive(&mut self, ctx: &mut X) -> Result<bool, Error>;
}

/// A message to a scheduler.
pub enum VehicleEvent<T> {
    Register(T),
    Stop,
}

/// The life of a scheduler: idle until started, running until stopped.
#[derive(PartialEq, Eq, Structural, Clone, Copy, Debug)]
pub enum VehicleState {
    Idle,
    Running,
    Stopped,
}

/// A task's outcome keeps it: it answered that it wants to run again.
pub open spec fn keeps(outcome: Result<bool, Error>) -> bool {
    outcome matches Ok(true)
}

/// The ids of the tasks that stay after a tick with these outcomes, in order.
pub open spec fn kept_ids(ids: Seq<nat>, outcomes: Seq<Result<bool, Error>>) -> Seq<nat>
    decreases ids.len(),
{
    if ids.len() == 0 {
        Seq::empty()
    } else {
        let prev = kept_ids(ids.drop_last(), outcomes);
        if keeps(outcomes[ids.len() - 1]) {
            prev.push(ids.last())
        } else {
            prev
        }
    }
}

proof fn lemma_kept_ids_prefix(
    ids: Seq<nat>,
    a: Seq<Result<bool, Error>>,
    b: Seq<Result<bool, Error>>,
)
    requires
        ids.len() <= a.len(),
        ids.len() <= b.len(),
        forall|i: int| 0 <= i < ids.len() ==> a[i] == b[i],
    ensures
        kept_ids(ids, a) == kept_ids(ids, b),
    decreases ids.len(),
{
    if ids.len() > 0 {
        lemma_kept_ids_prefix(ids.drop_last(), a, b);
    }
}

/// The ids that `kept_ids` keeps are among `ids`, in the same order.
pub proof fn lemma_kept_ids_subset(ids: Seq<nat>, outcomes: Seq<Result<bool, Error>>)
    ensures
        forall|k: nat| #[trigger] kept_ids(ids, outcomes).contains(k) ==> ids.contains(k),
        kept_ids(ids, outcomes).len() <= ids.len(),
    decreases ids.len(),
{
    if ids.len() > 0 {
        lemma_kept_ids_subset(ids.drop_last(), outcomes);
        let prev = kept_ids(ids.drop_last(), outcomes);
        assert forall|k: nat| kept_ids(ids, outcomes).contains(k) implies ids.contains(k) by {
            if prev.contains(k) {
                assert(ids.drop_last().contains(k));
                let j = choose|j: int| 0 <= j < ids.drop_last().len() && ids.drop_last()[j] == k;
                assert(ids[j] == k);
            } else {
                assert(ids[ids.len() - 1] == k);
            }
        }
    }
}

/// A cooperative scheduler. Tasks and a stop request arrive through an
/// inbox; each tick runs every task in registration order, keeps those that
/// want to run again, then takes one message from the inbox.
pub struct Vehicle<T> {
    rate: u64,
    state: VehicleState,
    inbox: Vec<VehicleEvent<T>>,
    tasks: Vec<Slot<T>>,
    registered: Ghost<nat>,
}

/// A registered task and its id.
struct Slot<T> {
    task: T,
    id: Ghost<nat>,
}

impl<T> Vehicle<T> {
    #[verifier::type_invariant]
    spec fn inv(&self) -> bool {
        ascending_below(self.task_ids(), self.registered@)
    }

    /// The tasks that will run at the next tick, in order.
    pub closed spec fn tasks(&self) -> Seq<T> {
        self.tasks@.map_values(|s: Slot<T>| s.task)
    }

    /// The id of each task that will run at the next tick, in order. A task's
    /// id is the number of tasks registered before it.
    pub closed spec fn task_ids(&self) -> Seq<nat> {
        self.tasks@.map_values(|s: Slot<T>| s.id@)
    }

    /// How many tasks have been registered so far.
    pub closed spec fn registered(&self) -> nat {
        self.registered@
    }

    /// The messages waiting, oldest first.
    pub closed spec fn pending(&self) -> Seq<VehicleEvent<T>> {
        self.inbox@
    }

    pub closed spec fn state_spec(&self) -> VehicleState {
        self.state
    }

    pub closed spec fn rate_spec(&self) -> u64 {
        self.rate
    }

    /// A scheduler that will tick every `rate` milliseconds once started.
    pub fn new(rate: u64) -> (r: Vehicle<T>)
        ensures
            r.state() == VehicleState::Idle,
            r.rate() == rate,
            r.task_ids() == Seq::<nat>::empty(),
            r.tasks() == Seq::<T>::empty(),
            r.pending() == Seq::<VehicleEvent<T>>::empty(),
            r.registered() == 0,
    {
        let r = Vehicle {
            rate,
            state: VehicleState::Idle,
            inbox: Vec::new(),
            tasks: Vec::new(),
            registered: Ghost(0),
        };
        assert(r.task_ids() =~= Seq::<nat>::empty());
        assert(r.tasks() =~= Seq::<T>::empty());
        r
    }

    #[verifier::when_used_as_spec(rate_spec)]
    pub fn rate(&self) -> (r: u64)
        ensures
            r == self.rate_spec(),
    {
        self.rate
    }

    #[verifier::when_used_as_spec(state_spec)]
    pub fn state(&self) -> (r: VehicleState)
        ensures
            r == self.state_spec(),
    {
        self.state
    }

    /// Asks for `drive` to be run from the tick after the one that takes
    /// this message.
    pub fn register(&mut self, drive: T)
        ensures
            final(self).pending() == old(self).pending().push(VehicleEvent::Register(drive)),
            final(self).task_ids() == old(self).task_ids(),
            final(self).tasks() == old(self).tasks(),
            final(self).registered() == old(self).registered(),
            final(self).state() == old(self).state(),
            final(self).rate() == old(self).rate(),
    {
        proof {
            use_type_invariant(&*self);
        }
        let mut inbox: Vec<VehicleEvent<T>> = Vec::new();
        std::mem::swap(&mut inbox, &mut self.inbox);
        inbox.push(VehicleEvent::Register(drive));
        self.inbox = inbox;
    }

    /// Asks the scheduler to stop once it takes this message.
    pub fn stop(&mut self)
        ensures
            final(self).pending() == old(self).pending().push(VehicleEvent::Stop),
            final(self).task_ids() == old(self).task_ids(),
            final(self).tasks() == old(self).tasks(),
            final(self).registered() == old(self).registered(),
            final(self).state() == old(self).state(),
            final(self).rate() == old(self).rate(),
    {
        proof {
            use_type_invariant(&*self);
        }
        let mut inbox: Vec<VehicleEvent<T>> = Vec::new();
        std::mem::swap(&mut inbox, &mut self.inbox);
        inbox.push(VehicleEvent::Stop);
        self.inbox = inbox;
    }

    /// Starts the scheduler; a scheduler is started once.
    pub fn start(&mut self)
        requires
            old(self).state() == VehicleState::Idle,
        ensures
            final(self).state() == VehicleState::Running,
            final(self).pending() == old(self).pending(),
            final(self).task_ids() == old(self).task_ids(),
            final(self).tasks() == old(self).tasks(),
            final(self).registered() == old(self).registered(),
            final(self).rate() == old(self).rate(),
    {
        proof {
            use_type_invariant(&*self);
        }
        self.state = VehicleState::Running;
    }
}

} // verus!

verus! {

/// Ids that increase strictly and stay below `bound`.
pub open spec fn ascending_below(ids: Seq<nat>, bound: nat) -> bool {
    &&& forall|i: int| 0 <= i < ids.len() ==> ids[i] < bound
    &&& forall|i: int, j: int| 0 <= i < j < ids.len() ==> ids[i] < ids[j]
}

proof fn lemma_kept_ids_ascending(ids: Seq<nat>, outcomes: Seq<Result<bool, Error>>, bound: nat)
    requires
        ascending_below(ids, bound),
    ensures
        ascending_below(kept_ids(ids, outcomes), bound),
    decreases ids.len(),
{
    if ids.len() > 0 {
        let front = ids.drop_last();
        assert(ascending_below(front, bound));
        lemma_kept_ids_ascending(front, outcomes, bound);
        lemma_kept_ids_subset(front, outcomes);
        let prev = kept_ids(front, outcomes);
        assert forall|i: int| 0 <= i < prev.len() implies prev[i] < ids.last() by {
            assert(prev.contains(prev[i]));
            assert(front.contains(prev[i]));
            let j = choose|j: int| 0 <= j < front.len() && front[j] == prev[i];
            assert(ids[j] < ids[ids.len() - 1]);
        }
    }
}

/// What one tick does: `outcomes` holds each task's answer in order; the
/// tasks that answered yes stay in order; the oldest message, if any, is
/// taken, a registration appending its task under the next id and a stop
/// stopping the scheduler.
pub open spec fn tick_result<T>(
    before: Vehicle<T>,
    after: Vehicle<T>,
    outcomes: Seq<Result<bool, Error>>,
) -> bool {
    &&& outcomes.len() == before.task_ids().len()
    &&& after.rate() == before.rate()
    &&& ascending_below(before.task_ids(), before.registered())
    &&& ascending_below(after.task_ids(), after.registered())
    &&& after.tasks().len() == after.task_ids().len()
    &&& if before.pending().len() == 0 {
        &&& after.task_ids() == kept_ids(before.task_ids(), outcomes)
        &&& after.pending() == before.pending()
        &&& after.registered() == before.registered()
        &&& after.state() == VehicleState::Running
    } else {
        &&& after.pending() == before.pending().drop_first()
        &&& match before.pending()[0] {
            VehicleEvent::Stop => {
                &&& after.task_ids() == kept_ids(before.task_ids(), outcomes)
                &&& after.registered() == before.registered()
                &&& after.state() == VehicleState::Stopped
            },
            VehicleEvent::Register(t) => {
                &&& after.task_ids() == kept_ids(before.task_ids(), outcomes).push(
                    before.registered(),
                )
                &&& after.tasks().last() == t
                &&& after.registered() == before.registered() + 1
                &&& after.state() == VehicleState::Running
            },
        }
    }
}

impl<T> Vehicle<T> {
    /// One tick of a running scheduler. Every task runs once, in order, and
    /// stays only if it answered that it wants to run again; a task that
    /// fails is dropped as one that answered no. Then the oldest message is
    /// taken: a registration appends its task, a stop stops the scheduler.
    /// Returns what each task answered, in order.
    pub fn tick<X>(&mut self, ctx: &mut X) -> (r: Vec<Result<bool, Error>>) where T: Drive<X>
        requires
            old(self).state() == VehicleState::Running,
        ensures
            tick_result(*old(self), *final(self), r@),
    {
        proof {
            use_type_invariant(&*self);
        }
        let ghost ids = self.task_ids();
        let mut pending: Vec<Slot<T>> = Vec::new();
        std::mem::swap(&mut self.tasks, &mut pending);
        let mut kept: Vec<Slot<T>> = Vec::new();
        let mut outcomes: Vec<Result<bool, Error>> = Vec::new();
        let n = pending.len();
        let mut i: usize = 0;
        while i < n
            invariant
                0 <= i <= n,
                n == ids.len(),
                pending@.len() == n - i,
                forall|j: int| 0 <= j < pending@.len() ==> #[trigger] pending@[j].id@ == ids[i + j],
                outcomes@.len() == i,
                kept@.map_values(|s: Slot<T>| s.id@) == kept_ids(ids.take(i as int), outcomes@),
            decreases n - i,
        {
            let ghost rest = pending@;
            let mut slot = pending.remove(0);
            assert(slot.id@ == ids[i as int]);
            assert forall|j: int| 0 <= j < pending@.len() implies #[trigger] pending@[j].id@ == ids[i
                + 1 + j] by {
                assert(pending@[j] == rest[j + 1]);
            }
            let out = slot.task.drive(ctx);
            let keep = match &out {
                Ok(b) => *b,
                Err(_) => false,
            };
            let ghost before = outcomes@;
            let ghost kept_before = kept@;
            outcomes.push(out);
            proof {
                lemma_kept_ids_prefix(ids.take(i as int), before, outcomes@);
                assert(ids.take(i + 1).drop_last() =~= ids.take(i as int));
                assert(keep == keeps(outcomes@[i as int]));
            }
            if keep {
                kept.push(slot);
                assert(kept@.map_values(|s: Slot<T>| s.id@) =~= kept_before.map_values(
                    |s: Slot<T>| s.id@,
                ).push(ids[i as int]));
            }
            i += 1;
        }
        assert(ids.take(n as int) =~= ids);
        proof {
            lemma_kept_ids_ascending(ids, outcomes@, self.registered@);
        }
        let mut inbox: Vec<VehicleEvent<T>> = Vec::new();
        std::mem::swap(&mut inbox, &mut self.inbox);
        let next = if inbox.len() > 0 {
            Some(inbox.remove(0))
        } else {
            None
        };
        match next {
            Some(VehicleEvent::Register(t)) => {
                let ghost before = kept@.map_values(|s: Slot<T>| s.id@);
                let ghost before_tasks = kept@.map_values(|s: Slot<T>| s.task);
                let id = Ghost(self.registered@);
                kept.push(Slot { task: t, id });
                assert(kept@.map_values(|s: Slot<T>| s.id@) =~= before.push(id@));
                assert(kept@.map_values(|s: Slot<T>| s.task) =~= before_tasks.push(t));
                self.registered = Ghost(self.registered@ + 1);
                self.tasks = kept;
            },
            Some(VehicleEvent::Stop) => {
                self.tasks = kept;
                self.state = VehicleState::Stopped;
            },
            None => {
                self.tasks = kept;
            },
        }
        self.inbox = inbox;
        outcomes
    }
}

} // verus!

verus! {

proof fn lemma_kept_ids_member(ids: Seq<nat>, outcomes: Seq<Result<bool, Error>>, i: int, bound: nat)
    requires
        ascending_below(ids, bound),
        0 <= i < ids.len(),
    ensures
        kept_ids(ids, outcomes).contains(ids[i]) <==> keeps(outcomes[i]),
    decreases ids.len(),
{
    let front = ids.drop_last();
    let prev = kept_ids(front, outcomes);
    assert(ascending_below(front, bound));
    lemma_kept_ids_subset(front, outcomes);
    if i == ids.len() - 1 {
        if prev.contains(ids[i]) {
            assert(front.contains(ids[i]));
            let j = choose|j: int| 0 <= j < front.len() && front[j] == ids[i];
            assert(ids[j] < ids[i]);
        }
        if keeps(outcomes[i]) {
            assert(kept_ids(ids, outcomes)[prev.len() as int] == ids[i]);
        }
    } else {
        lemma_kept_ids_member(front, outcomes, i, bound);
        assert(front[i] == ids[i]);
        assert(ids[i] < ids[ids.len() - 1]);
        if keeps(outcomes[ids.len() - 1]) {
            if kept_ids(ids, outcomes).contains(ids[i]) {
                let j = choose|j: int|
                    0 <= j < kept_ids(ids, outcomes).len() && kept_ids(ids, outcomes)[j] == ids[i];
                if j < prev.len() {
                    assert(prev[j] == ids[i]);
                }
            }
            if prev.contains(ids[i]) {
                let j = choose|j: int| 0 <= j < prev.len() && prev[j] == ids[i];
                assert(kept_ids(ids, outcomes)[j] == ids[i]);
            }
        }
    }
}

/// At a tick, a task that answers that it does not want to run again, or
/// that fails, leaves the scheduler and can never come back: every task
/// registered later gets a larger id. Every task that answers yes stays,
/// whatever the others answered.
pub proof fn law_dropped_task_stays_gone<T>(
    before: Vehicle<T>,
    after: Vehicle<T>,
    outcomes: Seq<Result<bool, Error>>,
    i: int,
)
    requires
        tick_result(before, after, outcomes),
        0 <= i < before.task_ids().len(),
    ensures
        !keeps(outcomes[i]) ==> !after.task_ids().contains(before.task_ids()[i]),
        keeps(outcomes[i]) ==> after.task_ids().contains(before.task_ids()[i]),
        before.task_ids()[i] < after.registered(),
{
    let ids = before.task_ids();
    lemma_kept_ids_member(ids, outcomes, i, before.registered());
    let kept = kept_ids(ids, outcomes);
    if before.pending().len() > 0 && before.pending()[0] is Register {
        let k = ids[i];
        assert(after.task_ids() == kept.push(before.registered()));
        if after.task_ids().contains(k) {
            let j = choose|j: int| 0 <= j < after.task_ids().len() && after.task_ids()[j] == k;
            if j < kept.len() {
                assert(kept[j] == k);
            }
        }
        if kept.contains(k) {
            let j = choose|j: int| 0 <= j < kept.len() && kept[j] == k;
            assert(after.task_ids()[j] == k);
        }
    }
}

/// Once a tick takes the stop message, the scheduler is stopped: only a
/// running scheduler ticks and nothing starts a stopped one again, so no task
/// runs after that tick, and registrations still waiting are never taken.
pub proof fn law_stop_ends_ticks<T>(
    before: Vehicle<T>,
    after: Vehicle<T>,
    outcomes: Seq<Result<bool, Error>>,
)
    requires
        tick_result(before, after, outcomes),
        before.pending().len() > 0,
        before.pending()[0] is Stop,
    ensures
        after.state() == VehicleState::Stopped,
        after.registered() == before.registered(),
        after.pending() == before.pending().drop_first(),
{
}

} // verus!
