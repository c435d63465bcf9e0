use vstd::prelude::*;

use crate::command::{drain_commands, lemma_parse_step_shrinks, Command, CommandModel, CommandParser};
use crate::device::{count_of, release_hold, release_step, DeviceChannel, DevicePool, DeviceRef};
use crate::drive::Drive;
use crate::err::{Error, ErrorKind};

verus! {

/// What the adapter of a device reports to the interface.
#[derive(Debug)]
pub enum DeviceEvent {
    /// Bytes read from the device.
    RecRaw(Vec<u8>),
    /// A command parsed from the device's output.
    RecCommand(Command),
    /// The device is closed for this adapter.
    Close,
}

/// `e` reports the bytes `bytes`.
pub open spec fn is_raw(e: DeviceEvent, bytes: Seq<u8>) -> bool {
    e matches DeviceEvent::RecRaw(b) && b@ == bytes
}

/// `es` reports the commands `cs`, one event each, in order.
pub open spec fn command_events(es: Seq<DeviceEvent>, cs: Seq<CommandModel>) -> bool {
    &&& es.len() == cs.len()
    &&& forall|i: int|
        0 <= i < es.len() ==> (#[trigger] es[i] matches DeviceEvent::RecCommand(c) && c@ == cs[i])
}

/// The task that pumps one device: it waits until a second holder has the
/// device, then each tick reads what the device has, reports the bytes and
/// the commands they complete, and stops when it is the last holder left.
pub struct DeviceDrive {
    parser: CommandParser,
    device: DeviceRef,
    drive: bool,
    events: Vec<DeviceEvent>,
}

/// `after` is `before` once `bytes` were fed: the raw bytes are reported,
/// then every command that the parser can now yield, in order.
pub open spec fn absorbed(before: DeviceDrive, after: DeviceDrive, bytes: Seq<u8>) -> bool {
    let drained = drain_commands(before.pending_bytes() + bytes);
    let n = before.events().len() as int;
    &&& after.pending_bytes() == drained.0
    &&& after.events().len() == n + 1 + drained.1.len()
    &&& after.events().take(n) == before.events()
    &&& is_raw(after.events()[n], bytes)
    &&& command_events(after.events().skip(n + 1), drained.1)
    &&& after.device_id() == before.device_id()
    &&& after.holds_device() == before.holds_device()
}

/// What one step of the adapter does, given the holders of its device
/// before and after. It starts driving once a second holder appears. If it
/// is driving and is the last holder, it releases its hold and reports the
/// close. If it is not driving, nothing happens. Otherwise it reads: if the
/// device is gone it reports the close; if the read fails it reports the
/// close and releases its hold; else it feeds what it read. It answers
/// whether it wants to run again.
pub open spec fn step_result(
    before: DeviceDrive,
    after: DeviceDrive,
    pool_before: Map<u64, nat>,
    pool_after: Map<u64, nat>,
    again: bool,
) -> bool {
    let id = before.device_id();
    let c = count_of(pool_before, id);
    let driving = before.driving() || c > 1;
    &&& after.device_id() == id
    &&& after.driving() == driving
    &&& after.holds_device() == (before.holds_device() && !(driving && c != 0 && (c == 1
        || pool_after != pool_before)))
    &&& if driving && c == 1 {
        &&& pool_after == release_hold(pool_before, before.device_ref())
        &&& after.events() == before.events().push(DeviceEvent::Close)
        &&& after.pending_bytes() == before.pending_bytes()
        &&& !again
    } else if !driving {
        &&& pool_after == pool_before
        &&& after.events() == before.events()
        &&& after.pending_bytes() == before.pending_bytes()
        &&& again
    } else if c == 0 {
        &&& pool_after == pool_before
        &&& after.events() == before.events().push(DeviceEvent::Close)
        &&& after.pending_bytes() == before.pending_bytes()
        &&& !again
    } else {
        ||| {
            &&& pool_after == release_hold(pool_before, before.device_ref())
            &&& after.events() == before.events().push(DeviceEvent::Close)
            &&& after.pending_bytes() == before.pending_bytes()
            &&& !again
        }
        ||| {
            &&& pool_after == pool_before
            &&& exists|bytes: Seq<u8>| absorbed(before, after, bytes)
            &&& again
        }
    }
}

impl DeviceDrive {
    /// Whether the adapter has started reading its device.
    pub closed spec fn driving(&self) -> bool {
        self.drive
    }

    /// The bytes read but not yet parsed.
    pub closed spec fn pending_bytes(&self) -> Seq<u8> {
        self.parser@
    }

    /// The events reported and not yet taken, oldest first.
    pub closed spec fn events(&self) -> Seq<DeviceEvent> {
        self.events@
    }

    /// The id of the device this adapter pumps.
    pub closed spec fn device_id(&self) -> u64 {
        self.device.id()
    }

    /// The adapter's handle on its device.
    pub closed spec fn device_ref(&self) -> DeviceRef {
        self.device
    }

    /// Whether the adapter still holds its device.
    pub closed spec fn holds_device(&self) -> bool {
        self.device.is_held()
    }

    /// An adapter for the device of `device`, not yet driving.
    pub fn new(device: DeviceRef) -> (r: DeviceDrive)
        ensures
            !r.driving(),
            r.pending_bytes() == Seq::<u8>::empty(),
            r.events() == Seq::<DeviceEvent>::empty(),
            r.device_id() == device.id(),
            r.holds_device() == device.is_held(),
            r.device_ref() == device,
    {
        DeviceDrive { parser: CommandParser::new(), device, drive: false, events: Vec::new() }
    }

    pub fn device(&self) -> (r: &DeviceRef)
        ensures
            r.id() == self.device_id(),
    {
        &self.device
    }

    /// Hands out the events reported so far, oldest first.
    pub fn take_events(&mut self) -> (r: Vec<DeviceEvent>)
        ensures
            r@ == old(self).events(),
            final(self).events() == Seq::<DeviceEvent>::empty(),
            final(self).pending_bytes() == old(self).pending_bytes(),
            final(self).driving() == old(self).driving(),
            final(self).device_id() == old(self).device_id(),
            final(self).device_ref() == old(self).device_ref(),
    {
        let mut r: Vec<DeviceEvent> = Vec::new();
        std::mem::swap(&mut r, &mut self.events);
        r
    }

    /// Lets go of the adapter's hold on its device, as when the adapter is
    /// dropped because its events can no longer be delivered. Returns whether
    /// the device was torn down.
    pub fn release<C: DeviceChannel>(&mut self, pool: &mut DevicePool<C>) -> (torn_down: bool)
        ensures
            final(pool)@ == release_hold(old(pool)@, old(self).device_ref()),
            !final(self).holds_device(),
            final(self).device_id() == old(self).device_id(),
            final(self).events() == old(self).events(),
            final(self).pending_bytes() == old(self).pending_bytes(),
            final(self).driving() == old(self).driving(),
    {
        self.device.close(pool)
    }

    /// Feeds bytes read from the device: reports them, then every command
    /// that the parser can now yield.
    pub fn absorb(&mut self, bytes: Vec<u8>)
        ensures
            absorbed(*old(self), *final(self), bytes@),
            final(self).driving() == old(self).driving(),
    {
        let ghost n = self.events@.len() as int;
        let ghost start = self.parser@ + bytes@;
        let ghost raw = bytes@;
        let _ = self.parser.extend(bytes.as_slice());
        self.events.push(DeviceEvent::RecRaw(bytes));
        let ghost mut emitted: Seq<CommandModel> = Seq::empty();
        proof {
            assert(self.events@.skip(n + 1) =~= Seq::<DeviceEvent>::empty());
            assert(self.events@.take(n) =~= old(self).events@);
            assert(emitted + drain_commands(self.parser@).1 =~= drain_commands(self.parser@).1);
        }
        let mut going = true;
        while going
            invariant
                going ==> drain_commands(start) == (
                    drain_commands(self.parser@).0,
                    emitted + drain_commands(self.parser@).1,
                ),
                !going ==> self.parser@ == drain_commands(start).0 && emitted == drain_commands(
                    start,
                ).1,
                n == old(self).events@.len(),
                self.events@.len() == n + 1 + emitted.len(),
                self.events@.take(n) == old(self).events@,
                is_raw(self.events@[n], raw),
                command_events(self.events@.skip(n + 1), emitted),
                self.drive == old(self).drive,
                self.device == old(self).device,
            decreases self.parser@.len() + (if going {
                1int
            } else {
                0int
            }),
        {
            let ghost buf = self.parser@;
            proof {
                lemma_parse_step_shrinks(buf);
            }
            match self.parser.parse() {
                Some(c) => {
                    proof {
                        assert(emitted + drain_commands(buf).1 =~= emitted.push(c@)
                            + drain_commands(self.parser@).1);
                        emitted = emitted.push(c@);
                    }
                    let ghost before = self.events@;
                    self.events.push(DeviceEvent::RecCommand(c));
                    proof {
                        assert(self.events@.skip(n + 1) =~= before.skip(n + 1).push(
                            DeviceEvent::RecCommand(c),
                        ));
                        assert(self.events@.take(n) =~= before.take(n));
                        assert(self.events@[n] == before[n]);
                    }
                },
                None => {
                    proof {
                        assert(emitted + drain_commands(buf).1 =~= emitted);
                    }
                    going = false;
                },
            }
        }
    }

    /// One tick of the adapter against the pool that holds its device.
    /// Returns whether it wants to run again.
    pub fn step<C: DeviceChannel>(&mut self, pool: &mut DevicePool<C>) -> (again: bool)
        ensures
            step_result(*old(self), *final(self), old(pool)@, final(pool)@, again),
    {
        let c = self.device.rc(pool);
        if c > 1 && !self.drive {
            self.drive = true;
        }
        if c == 1 && self.drive {
            self.device.close(pool);
            self.events.push(DeviceEvent::Close);
            return false;
        }
        if !self.drive {
            return true;
        }
        match self.device.read_available(pool) {
            None => {
                self.events.push(DeviceEvent::Close);
                false
            },
            Some(Err(_)) => {
                self.events.push(DeviceEvent::Close);
                self.device.close(pool);
                false
            },
            Some(Ok(bytes)) => {
                let ghost b = bytes@;
                self.absorb(bytes);
                assert(absorbed(*old(self), *self, b));
                true
            },
        }
    }
}

impl<C: DeviceChannel> Drive<DevicePool<C>> for DeviceDrive {
    /// One step; it never fails.
    fn drive(&mut self, pool: &mut DevicePool<C>) -> (r: Result<bool, Error>)
        ensures
            r is Ok,
            step_result(*old(self), *final(self), old(pool)@, final(pool)@, r->Ok_0),
    {
        Ok(self.step(pool))
    }
}

} // verus!

verus! {

/// When the adapter is driving and the other holders have gone, so that the
/// count of its device has fallen to one, its step reports exactly one close,
/// releases the last hold on the device, and answers that it does not want
/// to run again, so the scheduler drops it and it never reads the device
/// again.
pub proof fn law_last_holder_closes(
    before: DeviceDrive,
    after: DeviceDrive,
    pool_before: Map<u64, nat>,
    pool_after: Map<u64, nat>,
    again: bool,
)
    requires
        step_result(before, after, pool_before, pool_after, again),
        before.holds_device(),
        before.driving(),
        count_of(pool_before, before.device_id()) == 1,
    ensures
        after.events() == before.events().push(DeviceEvent::Close),
        !again,
        count_of(pool_after, before.device_id()) == 0,
{
}

} // verus!

verus! {

/// An open project: a workspace and, possibly, the device it works with.
#[derive(Debug)]
pub struct Project {
    id: u64,
    workspace: String,
    device: Option<DeviceRef>,
}

/// The id of the device a project holds, if any.
pub open spec fn held_device(device: Option<DeviceRef>) -> Option<u64> {
    match device {
        Some(d) => if d.is_held() {
            Some(d.id())
        } else {
            None
        },
        None => None,
    }
}

/// The holders left after the hold of `device`, if any, is released.
pub open spec fn release_held(m: Map<u64, nat>, device: Option<u64>) -> Map<u64, nat> {
    match device {
        Some(id) => release_step(m, id),
        None => m,
    }
}

impl Project {
    pub closed spec fn id_spec(&self) -> u64 {
        self.id
    }

    /// The id of the device the project holds, if any.
    pub closed spec fn device_spec(&self) -> Option<u64> {
        held_device(self.device)
    }

    pub closed spec fn workspace_spec(&self) -> Seq<char> {
        self.workspace@
    }

    /// A project with the fresh id `id`.
    pub fn new(id: u64, workspace: String, device: Option<DeviceRef>) -> (r: Project)
        ensures
            r.id() == id,
            r.workspace_spec() == workspace@,
            r.device_spec() == held_device(device),
    {
        Project { id, workspace, device }
    }

    #[verifier::when_used_as_spec(id_spec)]
    pub fn id(&self) -> (r: u64)
        ensures
            r == self.id_spec(),
    {
        self.id
    }

    pub fn workspace(&self) -> (r: &String)
        ensures
            r@ == self.workspace_spec(),
    {
        &self.workspace
    }

    /// The id of the device the project holds, if any.
    pub fn device_id(&self) -> (r: Option<u64>)
        ensures
            r == self.device_spec(),
    {
        match &self.device {
            Some(d) => if d.is_held() {
                Some(d.id())
            } else {
                None
            },
            None => None,
        }
    }

    /// Releases the project's hold on its device, if it has one.
    fn release<C: DeviceChannel>(&mut self, pool: &mut DevicePool<C>)
        ensures
            final(pool)@ == release_held(old(pool)@, old(self).device_spec()),
            final(self).device_spec() is None,
            final(self).id() == old(self).id(),
            final(self).workspace_spec() == old(self).workspace_spec(),
    {
        let mut device: Option<DeviceRef> = None;
        std::mem::swap(&mut device, &mut self.device);
        match device {
            Some(mut d) => {
                d.close(pool);
            },
            None => {},
        }
    }
}

} // verus!

verus! {

/// The open projects, with a ghost map from each id to its project.
struct ProjectTable {
    items: Vec<Project>,
    slots: Ghost<Map<u64, Project>>,
}

impl ProjectTable {
    closed spec fn view(&self) -> Map<u64, Option<u64>> {
        self.slots@.map_values(|p: Project| p.device_spec())
    }

    closed spec fn wf(&self) -> bool {
        &&& forall|i: int, j: int|
            0 <= i < j < self.items@.len() ==> self.items@[i].id != self.items@[j].id
        &&& forall|i: int|
            0 <= i < self.items@.len() ==> self.slots@.contains_key(#[trigger] self.items@[i].id)
                && self.slots@[self.items@[i].id] == self.items@[i]
        &&& forall|id: u64|
            self.slots@.contains_key(id) ==> exists|i: int|
                0 <= i < self.items@.len() && #[trigger] self.items@[i].id == id
    }

    fn new() -> (r: ProjectTable)
        ensures
            r.wf(),
            r@ == Map::<u64, Option<u64>>::empty(),
    {
        let r = ProjectTable { items: Vec::new(), slots: Ghost(Map::empty()) };
        assert(r@ =~= Map::<u64, Option<u64>>::empty());
        r
    }

    fn find(&self, id: u64) -> (r: Option<usize>)
        requires
            self.wf(),
        ensures
            match r {
                Some(i) => i < self.items@.len() && self.items@[i as int].id == id
                    && self.slots@.contains_key(id) && self.slots@[id] == self.items@[i as int],
                None => !self.slots@.contains_key(id) && !self@.contains_key(id),
            },
    {
        let mut i: usize = 0;
        while i < self.items.len()
            invariant
                0 <= i <= self.items@.len(),
                self.wf(),
                forall|j: int| 0 <= j < i ==> self.items@[j].id != id,
            decreases self.items@.len() - i,
        {
            if self.items[i].id == id {
                assert(self.slots@.contains_key(self.items@[i as int].id));
                return Some(i);
            }
            i += 1;
        }
        None
    }

    proof fn lemma_update_keeps_wf(old_t: &ProjectTable, t: &ProjectTable, i: int)
        requires
            old_t.wf(),
            0 <= i < old_t.items@.len(),
            t.items@ == old_t.items@.update(i, t.items@[i]),
            t.items@[i].id == old_t.items@[i].id,
            t.slots@ == old_t.slots@.insert(old_t.items@[i].id, t.items@[i]),
        ensures
            t.wf(),
            t@ == old_t@.insert(old_t.items@[i].id, t.items@[i].device_spec()),
    {
        assert forall|k: u64| t.slots@.contains_key(k) implies exists|j: int|
            0 <= j < t.items@.len() && #[trigger] t.items@[j].id == k by {
            assert(old_t.slots@.contains_key(k));
            let j = choose|j: int| 0 <= j < old_t.items@.len() && #[trigger] old_t.items@[j].id == k;
            assert(t.items@[j].id == k);
        }
        assert forall|j: int| 0 <= j < t.items@.len() implies t.slots@.contains_key(
            #[trigger] t.items@[j].id,
        ) && t.slots@[t.items@[j].id] == t.items@[j] by {
            if j != i {
                assert(old_t.slots@.contains_key(old_t.items@[j].id));
            }
        }
        assert(t@ =~= old_t@.insert(old_t.items@[i].id, t.items@[i].device_spec()));
    }

    /// Adds `project`; a project under the same id is replaced, and its hold
    /// on its device released.
    fn insert<C: DeviceChannel>(&mut self, project: Project, pool: &mut DevicePool<C>)
        requires
            old(self).wf(),
        ensures
            final(self).wf(),
            final(self)@ == old(self)@.insert(project.id(), project.device_spec()),
            final(pool)@ == (if old(self)@.contains_key(project.id()) {
                release_held(old(pool)@, old(self)@[project.id()])
            } else {
                old(pool)@
            }),
    {
        let id = project.id;
        match self.find(id) {
            Some(i) => {
                self.items[i].release(pool);
                self.items.set(i, project);
                self.slots = Ghost(self.slots@.insert(id, self.items@[i as int]));
                proof {
                    assert(self.items@ =~= old(self).items@.update(i as int, self.items@[i as int]));
                    Self::lemma_update_keeps_wf(old(self), self, i as int);
                }
            },
            None => {
                let ghost p = project;
                self.items.push(project);
                self.slots = Ghost(self.slots@.insert(id, p));
                proof {
                    let n = self.items@.len() - 1;
                    assert(self.items@[n] == p);
                    assert forall|k: u64| self.slots@.contains_key(k) implies exists|i: int|
                        0 <= i < self.items@.len() && #[trigger] self.items@[i].id == k by {
                        if k == id {
                            assert(self.items@[n].id == k);
                        } else {
                            assert(old(self).slots@.contains_key(k));
                            let i = choose|i: int|
                                0 <= i < old(self).items@.len() && #[trigger] old(self).items@[i].id
                                    == k;
                            assert(self.items@[i] == old(self).items@[i]);
                        }
                    }
                    assert(self@ =~= old(self)@.insert(id, p.device_spec()));
                }
            },
        }
    }

    /// Gives project `id` the device of `reference`, releasing the device it
    /// held; `false` when there is no such project, and then `reference` is
    /// released.
    fn set_device<C: DeviceChannel>(&mut self, id: u64, reference: DeviceRef, pool: &mut DevicePool<C>) -> (r: bool)
        requires
            old(self).wf(),
        ensures
            final(self).wf(),
            r == old(self)@.contains_key(id),
            r ==> final(self)@ == old(self)@.insert(id, held_device(Some(reference))) && final(pool)@
                == release_held(old(pool)@, old(self)@[id]),
            !r ==> final(self)@ == old(self)@ && final(pool)@ == release_hold(old(pool)@, reference),
    {
        match self.find(id) {
            Some(i) => {
                self.items[i].release(pool);
                self.items[i].device = Some(reference);
                self.slots = Ghost(self.slots@.insert(id, self.items@[i as int]));
                proof {
                    assert(self.items@ =~= old(self).items@.update(i as int, self.items@[i as int]));
                    Self::lemma_update_keeps_wf(old(self), self, i as int);
                }
                true
            },
            None => {
                let mut reference = reference;
                reference.close(pool);
                false
            },
        }
    }

    /// Removes project `id`, releasing its hold on its device.
    fn remove<C: DeviceChannel>(&mut self, id: u64, pool: &mut DevicePool<C>)
        requires
            old(self).wf(),
        ensures
            final(self).wf(),
            final(self)@ == old(self)@.remove(id),
            final(pool)@ == (if old(self)@.contains_key(id) {
                release_held(old(pool)@, old(self)@[id])
            } else {
                old(pool)@
            }),
    {
        let i = match self.find(id) {
            Some(i) => i,
            None => {
                assert(old(self)@.remove(id) =~= old(self)@);
                return;
            },
        };
        let mut p = self.items.remove(i);
        p.release(pool);
        self.slots = Ghost(self.slots@.remove(id));
        proof {
            let old_es = old(self).items@;
            let es = self.items@;
            assert forall|j: int| 0 <= j < es.len() implies #[trigger] es[j] == (if j < i {
                old_es[j]
            } else {
                old_es[j + 1]
            }) by {}
            assert forall|a: int, b: int| 0 <= a < b < es.len() implies es[a].id != es[b].id by {
                let oa = if a < i {
                    a
                } else {
                    a + 1
                };
                let ob = if b < i {
                    b
                } else {
                    b + 1
                };
                assert(old_es[oa].id != old_es[ob].id);
            }
            assert forall|j: int| 0 <= j < es.len() implies self.slots@.contains_key(
                #[trigger] es[j].id,
            ) && self.slots@[es[j].id] == es[j] by {
                let oj = if j < i {
                    j
                } else {
                    j + 1
                };
                assert(old(self).slots@.contains_key(old_es[oj].id));
                assert(old_es[oj].id != old_es[i as int].id);
            }
            assert forall|k: u64| self.slots@.contains_key(k) implies exists|j: int|
                0 <= j < es.len() && #[trigger] es[j].id == k by {
                assert(old(self).slots@.contains_key(k));
                let oj = choose|j: int| 0 <= j < old_es.len() && #[trigger] old_es[j].id == k;
                if oj < i {
                    assert(es[oj].id == k);
                } else {
                    assert(es[oj - 1].id == k);
                }
            }
            assert(self@ =~= old(self)@.remove(id));
        }
    }

    /// The ids of the open projects, each once.
    fn ids(&self) -> (r: Vec<u64>)
        requires
            self.wf(),
        ensures
            forall|k: u64| r@.contains(k) <==> self@.contains_key(k),
    {
        let mut r: Vec<u64> = Vec::new();
        let mut i: usize = 0;
        while i < self.items.len()
            invariant
                0 <= i <= self.items@.len(),
                self.wf(),
                r@.len() == i,
                forall|j: int| 0 <= j < i ==> r@[j] == #[trigger] self.items@[j].id,
            decreases self.items@.len() - i,
        {
            r.push(self.items[i].id);
            i += 1;
        }
        proof {
            assert forall|k: u64| r@.contains(k) <==> self@.contains_key(k) by {
                if r@.contains(k) {
                    let j = choose|j: int| 0 <= j < r@.len() && r@[j] == k;
                    assert(self.slots@.contains_key(self.items@[j].id));
                }
                if self@.contains_key(k) {
                    assert(self.slots@.contains_key(k));
                    let j = choose|j: int| 0 <= j < self.items@.len() && #[trigger] self.items@[j].id == k;
                    assert(r@[j] == k);
                }
            }
        }
        r
    }
}

} // verus!

verus! {

/// No open project in `m` holds device `k`.
pub open spec fn unheld(m: Map<u64, Option<u64>>, k: u64) -> bool {
    forall|p: u64| m.contains_key(p) ==> m[p] != Some(k)
}

/// The open projects, keyed by id, each with the device it holds, if any.
pub struct Projects {
    table: ProjectTable,
    next_id: u64,
}

impl Projects {
    #[verifier::type_invariant]
    spec fn inv(&self) -> bool {
        self.table.wf()
    }

    /// The device id each open project holds, if any.
    pub closed spec fn view(&self) -> Map<u64, Option<u64>> {
        self.table@
    }

    /// The id the next new project gets.
    pub closed spec fn next_id(&self) -> u64 {
        self.next_id
    }

    pub fn new() -> (r: Projects)
        ensures
            r@ == Map::<u64, Option<u64>>::empty(),
            r.next_id() == 0,
    {
        Projects { table: ProjectTable::new(), next_id: 0 }
    }

    fn take_table(&mut self) -> (t: ProjectTable)
        ensures
            t.wf(),
            t@ == old(self)@,
            final(self).next_id() == old(self).next_id(),
    {
        proof {
            use_type_invariant(&*self);
        }
        let mut t = ProjectTable::new();
        std::mem::swap(&mut t, &mut self.table);
        t
    }

    /// Opens a project on `workspace`, holding `reference` if given, under
    /// the next id, which is returned. Ids count up from 0 and wrap after the
    /// largest `u64`; a project still open under a reused id is replaced.
    pub fn new_project<C: DeviceChannel>(
        &mut self,
        workspace: String,
        reference: Option<DeviceRef>,
        pool: &mut DevicePool<C>,
    ) -> (r: Result<u64, Error>)
        ensures
            r == Ok::<u64, Error>(old(self).next_id()),
            final(self)@ == old(self)@.insert(old(self).next_id(), held_device(reference)),
            final(self).next_id() == (if old(self).next_id() < u64::MAX {
                (old(self).next_id() + 1) as u64
            } else {
                0
            }),
            final(pool)@ == (if old(self)@.contains_key(old(self).next_id()) {
                release_held(old(pool)@, old(self)@[old(self).next_id()])
            } else {
                old(pool)@
            }),
    {
        let id = self.next_id;
        let mut t = self.take_table();
        t.insert(Project::new(id, workspace, reference), pool);
        self.table = t;
        self.next_id = if id < u64::MAX {
            id + 1
        } else {
            0
        };
        Ok(id)
    }

    /// Gives project `project` the device of `reference`, releasing the hold
    /// on the device it had. With no such project, `reference` is released
    /// and the error says so.
    pub fn push_device<C: DeviceChannel>(
        &mut self,
        project: u64,
        reference: DeviceRef,
        pool: &mut DevicePool<C>,
    ) -> (r: Result<(), Error>)
        ensures
            r is Ok <==> old(self)@.contains_key(project),
            r matches Err(e) ==> e.kind is NoSuchProject,
            r is Ok ==> final(self)@ == old(self)@.insert(project, held_device(Some(reference)))
                && final(pool)@ == release_held(old(pool)@, old(self)@[project]),
            r is Err ==> final(self)@ == old(self)@ && final(pool)@ == release_hold(
                old(pool)@,
                reference,
            ),
            final(self).next_id() == old(self).next_id(),
    {
        let mut t = self.take_table();
        let found = t.set_device(project, reference, pool);
        self.table = t;
        if found {
            Ok(())
        } else {
            Err(Error::new(ErrorKind::NoSuchProject, "Failed to find this project".to_string()))
        }
    }

    /// Writes `buf` to the device of project `project_id`, if it holds one
    /// that is still open, and passes on a failed write.
    pub fn device_write<C: DeviceChannel>(
        &self,
        project_id: u64,
        buf: &[u8],
        pool: &mut DevicePool<C>,
    ) -> (r: Result<(), Error>)
        ensures
            !self@.contains_key(project_id) ==> (r matches Err(e) && e.kind is NoSuchProject),
            self@.contains_key(project_id) && (self@[project_id] matches Some(d) ==> !old(
                pool,
            )@.contains_key(d)) ==> r is Ok,
            r is Err && self@.contains_key(project_id) ==> (self@[project_id] matches Some(d)
                && old(pool)@.contains_key(d)),
            final(pool)@ == old(pool)@,
    {
        proof {
            use_type_invariant(self);
        }
        let i = match self.table.find(project_id) {
            Some(i) => i,
            None => {
                return Err(
                    Error::new(ErrorKind::NoSuchProject, "Cannot find this project.".to_string()),
                );
            },
        };
        match &self.table.items[i].device {
            Some(d) => if !d.is_held() {
                Ok(())
            } else {
                match d.write(pool, buf) {
                    Some(Err(e)) => Err(e),
                    _ => Ok(()),
                }
            },
            None => Ok(()),
        }
    }

    /// Closes project `project_id`, releasing its hold on its device.
    pub fn close_project<C: DeviceChannel>(&mut self, project_id: u64, pool: &mut DevicePool<C>) -> (r:
        Result<(), Error>)
        ensures
            r is Ok,
            final(self)@ == old(self)@.remove(project_id),
            final(pool)@ == (if old(self)@.contains_key(project_id) {
                release_held(old(pool)@, old(self)@[project_id])
            } else {
                old(pool)@
            }),
            final(self).next_id() == old(self).next_id(),
    {
        let mut t = self.take_table();
        t.remove(project_id, pool);
        self.table = t;
        Ok(())
    }

    /// Closes every project, releasing each one's hold on its device; the
    /// holders of a device that no project held stay as they were.
    pub fn close_all_projects<C: DeviceChannel>(&mut self, pool: &mut DevicePool<C>) -> (r: Result<
        (),
        Error,
    >)
        ensures
            r is Ok,
            final(self)@ == Map::<u64, Option<u64>>::empty(),
            forall|k: u64|
                unheld(old(self)@, k) ==> count_of(final(pool)@, k) == count_of(old(pool)@, k),
            final(self).next_id() == old(self).next_id(),
    {
        let mut t = self.take_table();
        let ids = t.ids();
        assert(ids@.subrange(0, ids@.len() as int) =~= ids@);
        let ghost orig = t@;
        let mut i: usize = 0;
        while i < ids.len()
            invariant
                0 <= i <= ids@.len(),
                t.wf(),
                orig == old(self)@,
                forall|k: u64| #[trigger]
                    t@.contains_key(k) ==> orig.contains_key(k) && t@[k] == orig[k],
                forall|k: u64| t@.contains_key(k) ==> ids@.subrange(i as int, ids@.len() as int).contains(k),
                forall|k: u64|
                    unheld(old(self)@, k) ==> count_of(pool@, k) == count_of(old(pool)@, k),
            decreases ids@.len() - i,
        {
            let ghost before = t@;
            t.remove(ids[i], pool);
            proof {
                assert forall|k: u64| #[trigger]
                    t@.contains_key(k) implies orig.contains_key(k) && t@[k] == orig[k] by {
                    assert(before.contains_key(k));
                    assert(t@[k] == before[k]);
                }
                let id = ids@[i as int];
                assert forall|k: u64| unheld(old(self)@, k) implies count_of(pool@, k) == count_of(
                    old(pool)@,
                    k,
                ) by {
                    if before.contains_key(id) {
                        assert(orig[id] != Some(k));
                    }
                }
                assert forall|k: u64| t@.contains_key(k) implies ids@.subrange(
                    i + 1,
                    ids@.len() as int,
                ).contains(k) by {
                    assert(before.contains_key(k));
                    let j = choose|j: int|
                        0 <= j < ids@.subrange(i as int, ids@.len() as int).len() && ids@.subrange(
                            i as int,
                            ids@.len() as int,
                        )[j] == k;
                    if j == 0 {
                        assert(k == ids@[i as int]);
                    } else {
                        assert(ids@.subrange(i + 1, ids@.len() as int)[j - 1] == k);
                    }
                }
            }
            i += 1;
        }
        proof {
            assert(t@ =~= Map::<u64, Option<u64>>::empty());
        }
        self.table = t;
        Ok(())
    }
}

} // verus!
