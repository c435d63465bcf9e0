use vstd::prelude::*;

use crate::err::Error;

verus! {

/// A raw read/write connection to a physical or virtual transport.
pub trait DeviceChannel {
    /// Reads into `buf`, returning how many bytes were read.
    fn read(&mut self, buf: &mut Vec<u8>) -> Result<usize, Error>;

    /// Writes `buf`, returning how many bytes were written.
    fn write(&mut self, buf: &[u8]) -> Result<usize, Error>;

    fn flush(&mut self) -> Result<(), Error>;

    /// How many bytes can be read now.
    fn available(&self) -> Result<usize, Error>;

    fn close(&mut self);
}

/// An open device: its name, the channel it owns and its configuration in
/// serialized form.
pub struct Device<C> {
    pub name: String,
    channel: C,
    config: String,
}

/// `n` zero bytes.
fn zeroed(n: usize) -> (r: Vec<u8>)
    ensures
        r@ == Seq::new(n as nat, |i: int| 0u8),
{
    let mut r: Vec<u8> = Vec::new();
    let mut i: usize = 0;
    while i < n
        invariant
            0 <= i <= n,
            r@ == Seq::new(i as nat, |j: int| 0u8),
        decreases n - i,
    {
        r.push(0u8);
        i += 1;
        assert(r@ =~= Seq::new(i as nat, |j: int| 0u8));
    }
    r
}

/// The buffer to read into, given what the channel reports as available:
/// none when nothing is available, so that no read is made; else that many
/// zero bytes. A failure to tell is passed on.
pub fn read_buffer(available: Result<usize, Error>) -> (r: Result<Option<Vec<u8>>, Error>)
    ensures
        available matches Err(e) ==> (r matches Err(e2) && e2 == e),
        available matches Ok(n) ==> (n == 0 ==> r matches Ok(None)),
        available matches Ok(n) ==> (n > 0 ==> (r matches Ok(Some(b)) && b@ == Seq::new(
            n as nat,
            |i: int| 0u8,
        ))),
{
    match available {
        Ok(n) => if n == 0 {
            Ok(None)
        } else {
            Ok(Some(zeroed(n)))
        },
        Err(e) => Err(e),
    }
}

/// What a read into `buf` delivered, given the count the channel reported:
/// the first that many bytes of `buf` (all of it, if the count is larger). A
/// failed read is passed on.
pub fn bytes_read(buf: Vec<u8>, read: Result<usize, Error>) -> (r: Result<Vec<u8>, Error>)
    ensures
        read matches Err(e) ==> (r matches Err(e2) && e2 == e),
        read matches Ok(k) ==> (r matches Ok(v) && v@ == buf@.take(
            if k <= buf@.len() {
                k as int
            } else {
                buf@.len() as int
            },
        )),
{
    match read {
        Ok(k) => {
            let mut v = buf;
            if k < v.len() {
                v.truncate(k);
            }
            assert(v@ =~= buf@.take(
                if k <= buf@.len() {
                    k as int
                } else {
                    buf@.len() as int
                },
            ));
            Ok(v)
        },
        Err(e) => Err(e),
    }
}

impl<C: DeviceChannel> Device<C> {
    pub fn new(name: String, channel: C, config: String) -> (r: Device<C>)
        ensures
            r.name_of() == name,
            r.config_text() == config@,
    {
        Device { name, channel, config }
    }

    /// The name the device was opened under.
    pub closed spec fn name_of(&self) -> String {
        self.name
    }

    /// The serialized configuration the device was opened with.
    pub closed spec fn config_text(&self) -> Seq<char> {
        self.config@
    }

    pub fn config(&self) -> (r: &String)
        ensures
            r@ == self.config_text(),
    {
        &self.config
    }

    /// Reads every byte that the channel reports as available, through
    /// `read_buffer` and `bytes_read`: nothing, and no read, when it reports
    /// none; else the bytes that the read delivered.
    pub fn read_available(&mut self) -> (r: Result<Vec<u8>, Error>)
        ensures
            final(self).name_of() == old(self).name_of(),
            final(self).config_text() == old(self).config_text(),
    {
        let mut buf = match read_buffer(self.channel.available()) {
            Ok(Some(b)) => b,
            Ok(None) => return Ok(Vec::new()),
            Err(e) => return Err(e),
        };
        let read = self.channel.read(&mut buf);
        bytes_read(buf, read)
    }

    pub fn read(&mut self, buf: &mut Vec<u8>) -> (r: Result<usize, Error>)
        ensures
            final(self).name_of() == old(self).name_of(),
            final(self).config_text() == old(self).config_text(),
    {
        self.channel.read(buf)
    }

    pub fn write(&mut self, buf: &[u8]) -> (r: Result<usize, Error>)
        ensures
            final(self).name_of() == old(self).name_of(),
            final(self).config_text() == old(self).config_text(),
    {
        self.channel.write(buf)
    }

    pub fn flush(&mut self) -> (r: Result<(), Error>)
        ensures
            final(self).name_of() == old(self).name_of(),
            final(self).config_text() == old(self).config_text(),
    {
        self.channel.flush()
    }

    /// Closes the channel; the device is being torn down.
    fn close(&mut self) {
        self.channel.close()
    }
}

} // verus!

verus! {

/// One registered device and the number of handles that hold it.
struct PoolEntry<C> {
    id: u64,
    device: Device<C>,
    ref_counter: u64,
}

/// The entries of a pool, with a ghost map from each id to its entry.
struct PoolTable<C> {
    entries: Vec<PoolEntry<C>>,
    slots: Ghost<Map<u64, PoolEntry<C>>>,
}

/// The count after one more handle is made for `id`: an absent id stays
/// absent, and a count at the largest `u64` stays as it is.
pub open spec fn duplicate_step(m: Map<u64, nat>, id: u64) -> Map<u64, nat> {
    if m.contains_key(id) && m[id] < u64::MAX {
        m.insert(id, m[id] + 1)
    } else {
        m
    }
}

/// The count after one handle of `id` is released: the id leaves the map
/// when its last holder goes, and an absent id stays absent.
pub open spec fn release_step(m: Map<u64, nat>, id: u64) -> Map<u64, nat> {
    if m.contains_key(id) {
        if m[id] <= 1 {
            m.remove(id)
        } else {
            m.insert(id, (m[id] - 1) as nat)
        }
    } else {
        m
    }
}

/// The number of holders of `id`, 0 when it is not registered.
pub open spec fn count_of(m: Map<u64, nat>, id: u64) -> nat {
    if m.contains_key(id) {
        m[id]
    } else {
        0
    }
}

impl<C: DeviceChannel> PoolTable<C> {
    /// The number of holders of each registered id.
    closed spec fn view(&self) -> Map<u64, nat> {
        self.slots@.map_values(|e: PoolEntry<C>| e.ref_counter as nat)
    }

    /// The device registered under `id`.
    closed spec fn device_at(&self, id: u64) -> Device<C> {
        self.slots@[id].device
    }

    closed spec fn wf(&self) -> bool {
        &&& forall|i: int, j: int|
            0 <= i < j < self.entries@.len() ==> self.entries@[i].id != self.entries@[j].id
        &&& forall|i: int|
            0 <= i < self.entries@.len() ==> self.slots@.contains_key(
                #[trigger] self.entries@[i].id,
            ) && self.slots@[self.entries@[i].id] == self.entries@[i]
        &&& forall|id: u64|
            self.slots@.contains_key(id) ==> exists|i: int|
                0 <= i < self.entries@.len() && #[trigger] self.entries@[i].id == id
        &&& forall|i: int| 0 <= i < self.entries@.len() ==> #[trigger] self.entries@[i].ref_counter >= 1
    }

    fn new() -> (r: PoolTable<C>)
        ensures
            r.wf(),
            r@ == Map::<u64, nat>::empty(),
    {
        let r = PoolTable { entries: Vec::new(), slots: Ghost(Map::empty()) };
        assert(r@ =~= Map::<u64, nat>::empty());
        r
    }

    /// The position of `id` among the entries.
    fn find(&self, id: u64) -> (r: Option<usize>)
        requires
            self.wf(),
        ensures
            match r {
                Some(i) => i < self.entries@.len() && self.entries@[i as int].id == id
                    && self.slots@.contains_key(id),
                None => !self.slots@.contains_key(id) && !self@.contains_key(id),
            },
    {
        let mut i: usize = 0;
        while i < self.entries.len()
            invariant
                0 <= i <= self.entries@.len(),
                self.wf(),
                forall|j: int| 0 <= j < i ==> self.entries@[j].id != id,
            decreases self.entries@.len() - i,
        {
            if self.entries[i].id == id {
                assert(self.slots@.contains_key(self.entries@[i as int].id));
                return Some(i);
            }
            i += 1;
        }
        None
    }

    /// Registers `device` under the id of `reference` with one holder. An id
    /// that is already registered is left as it is, and `device` is handed
    /// back.
    fn register(&mut self, device: Device<C>, reference: &DeviceRef) -> (r: Option<Device<C>>)
        requires
            old(self).wf(),
        ensures
            final(self).wf(),
            old(self)@.contains_key(reference.id()) ==> final(self)@ == old(self)@ && r == Some(
                device,
            ),
            !old(self)@.contains_key(reference.id()) ==> final(self)@ == old(self)@.insert(
                reference.id(),
                1,
            ) && r is None && final(self).device_at(reference.id()) == device,
            forall|k: u64| k != reference.id() ==> final(self).device_at(k) == old(self).device_at(k),
    {
        let id = reference.id;
        if self.find(id).is_some() {
            return Some(device);
        }
        let entry = PoolEntry { id, device, ref_counter: 1 };
        let ghost e = entry;
        self.entries.push(entry);
        self.slots = Ghost(self.slots@.insert(id, e));
        proof {
            let n = self.entries@.len() - 1;
            assert(self.entries@[n] == e);
            assert forall|k: u64| self.slots@.contains_key(k) implies exists|i: int|
                0 <= i < self.entries@.len() && #[trigger] self.entries@[i].id == k by {
                if k == id {
                    assert(self.entries@[n].id == k);
                } else {
                    assert(old(self).slots@.contains_key(k));
                    let i = choose|i: int|
                        0 <= i < old(self).entries@.len() && #[trigger] old(self).entries@[i].id
                            == k;
                    assert(self.entries@[i] == old(self).entries@[i]);
                }
            }
            assert(self@ =~= old(self)@.insert(id, 1));
        }
        None
    }

    proof fn lemma_update_keeps_wf(old_pool: &PoolTable<C>, pool: &PoolTable<C>, i: int)
        requires
            old_pool.wf(),
            0 <= i < old_pool.entries@.len(),
            pool.entries@ == old_pool.entries@.update(i, pool.entries@[i]),
            pool.entries@[i].id == old_pool.entries@[i].id,
            pool.entries@[i].ref_counter >= 1,
            pool.slots@ == old_pool.slots@.insert(old_pool.entries@[i].id, pool.entries@[i]),
        ensures
            pool.wf(),
            pool.slots@.dom() == old_pool.slots@.dom(),
    {
        let id = old_pool.entries@[i].id;
        assert forall|k: u64| pool.slots@.contains_key(k) implies exists|j: int|
            0 <= j < pool.entries@.len() && #[trigger] pool.entries@[j].id == k by {
            assert(old_pool.slots@.contains_key(k));
            let j = choose|j: int|
                0 <= j < old_pool.entries@.len() && #[trigger] old_pool.entries@[j].id == k;
            assert(pool.entries@[j].id == k);
        }
        assert forall|j: int| 0 <= j < pool.entries@.len() implies pool.slots@.contains_key(
            #[trigger] pool.entries@[j].id,
        ) && pool.slots@[pool.entries@[j].id] == pool.entries@[j] by {
            if j != i {
                assert(old_pool.slots@.contains_key(old_pool.entries@[j].id));
            }
        }
        assert forall|j: int| 0 <= j < pool.entries@.len() implies #[trigger] pool.entries@[j].ref_counter >= 1 by {
            if j != i {
                assert(old_pool.entries@[j].ref_counter >= 1);
            }
        }
        assert(pool.slots@.dom() =~= old_pool.slots@.dom());
    }

    /// Counts one more holder of the id of `reference`. Nothing happens to an
    /// id that is not registered, or whose count is at the largest `u64`.
    fn push(&mut self, reference: &DeviceRef) -> (r: bool)
        requires
            old(self).wf(),
        ensures
            final(self).wf(),
            final(self)@ == duplicate_step(old(self)@, reference.id()),
            r == (old(self)@.contains_key(reference.id()) && old(self)@[reference.id()] < u64::MAX),
            forall|k: u64| #[trigger] final(self).device_at(k) == old(self).device_at(k),
    {
        let id = reference.id;
        let i = match self.find(id) {
            Some(i) => i,
            None => return false,
        };
        let c = self.entries[i].ref_counter;
        proof {
            assert(self.slots@[id] == self.entries@[i as int]);
        }
        if c == u64::MAX {
            return false;
        }
        self.entries[i].ref_counter = c + 1;
        self.slots = Ghost(self.slots@.insert(id, self.entries@[i as int]));
        proof {
            Self::lemma_update_keeps_wf(old(self), self, i as int);
            assert(self@ =~= duplicate_step(old(self)@, id));
        }
        true
    }

    /// Releases one holder of the id of `reference`. When the last holder
    /// goes, the id leaves the pool and its device is handed back for
    /// teardown. Nothing happens to an id that is not registered.
    fn close(&mut self, reference: &DeviceRef) -> (r: Option<Device<C>>)
        requires
            old(self).wf(),
        ensures
            final(self).wf(),
            final(self)@ == release_step(old(self)@, reference.id()),
            r is Some <==> count_of(old(self)@, reference.id()) == 1,
            r matches Some(d) ==> d == old(self).device_at(reference.id()),
            count_of(old(self)@, reference.id()) >= 2 ==> final(self).device_at(reference.id())
                == old(self).device_at(reference.id()),
            forall|k: u64| k != reference.id() ==> #[trigger] final(self).device_at(k) == old(self).device_at(k),
    {
        let id = reference.id;
        let i = match self.find(id) {
            Some(i) => i,
            None => return None,
        };
        let c = self.entries[i].ref_counter;
        proof {
            assert(self.slots@[id] == self.entries@[i as int]);
            assert(self.entries@[i as int].ref_counter >= 1);
        }
        if c > 1 {
            self.entries[i].ref_counter = c - 1;
            self.slots = Ghost(self.slots@.insert(id, self.entries@[i as int]));
            proof {
                Self::lemma_update_keeps_wf(old(self), self, i as int);
                assert(self@ =~= release_step(old(self)@, id));
            }
            return None;
        }
        let e = self.entries.remove(i);
        self.slots = Ghost(self.slots@.remove(id));
        proof {
            let old_es = old(self).entries@;
            let es = self.entries@;
            assert forall|j: int| 0 <= j < es.len() implies #[trigger] es[j] == (if j < i {
                old_es[j]
            } else {
                old_es[j + 1]
            }) by {}
            assert forall|j: int| 0 <= j < es.len() implies es[j].id != id by {
                if j < i {
                    assert(old_es[j].id != old_es[i as int].id);
                } else {
                    assert(old_es[j + 1].id != old_es[i as int].id);
                }
            }
            assert forall|a: int, b: int| 0 <= a < b < es.len() implies es[a].id != es[b].id by {
                let oa = if a < i {
                    a
                } else {
                    a + 1
                };
                let ob = if b < i {
                    b
                } else {
                    b + 1
                };
                assert(old_es[oa].id != old_es[ob].id);
            }
            assert forall|j: int| 0 <= j < es.len() implies self.slots@.contains_key(
                #[trigger] es[j].id,
            ) && self.slots@[es[j].id] == es[j] by {
                let oj = if j < i {
                    j
                } else {
                    j + 1
                };
                assert(old(self).slots@.contains_key(old_es[oj].id));
            }
            assert forall|k: u64| self.slots@.contains_key(k) implies exists|j: int|
                0 <= j < es.len() && #[trigger] es[j].id == k by {
                assert(old(self).slots@.contains_key(k));
                let oj = choose|j: int| 0 <= j < old_es.len() && #[trigger] old_es[j].id == k;
                if oj < i {
                    assert(es[oj].id == k);
                } else {
                    assert(es[oj - 1].id == k);
                }
            }
            assert forall|j: int| 0 <= j < es.len() implies #[trigger] es[j].ref_counter >= 1 by {
                let oj = if j < i {
                    j
                } else {
                    j + 1
                };
                assert(old_es[oj].ref_counter >= 1);
            }
            assert(self@ =~= release_step(old(self)@, id));
        }
        Some(e.device)
    }

    /// The number of holders of the id of `reference`, 0 when it is not
    /// registered.
    fn rc(&self, reference: &DeviceRef) -> (r: u64)
        requires
            self.wf(),
        ensures
            r == count_of(self@, reference.id()),
            (r == 0) == !self@.contains_key(reference.id()),
    {
        match self.find(reference.id) {
            Some(i) => {
                proof {
                    assert(self.slots@[reference.id()] == self.entries@[i as int]);
                    assert(self.entries@[i as int].ref_counter >= 1);
                }
                self.entries[i].ref_counter
            },
            None => 0,
        }
    }

    /// Reads every available byte of the device of `reference`; nothing when
    /// the id is not registered.
    fn read_available(&mut self, reference: &DeviceRef) -> (r: Option<Result<Vec<u8>, Error>>)
        requires
            old(self).wf(),
        ensures
            final(self).wf(),
            final(self)@ == old(self)@,
            r is Some <==> old(self)@.contains_key(reference.id()),
            forall|k: u64| k != reference.id() ==> #[trigger] final(self).device_at(k) == old(self).device_at(k),
            old(self)@.contains_key(reference.id()) ==> final(self).device_at(reference.id()).name_of()
                == old(self).device_at(reference.id()).name_of(),
            old(self)@.contains_key(reference.id()) ==> final(self).device_at(reference.id()).config_text()
                == old(self).device_at(reference.id()).config_text(),
    {
        let id = reference.id;
        let i = match self.find(id) {
            Some(i) => i,
            None => return None,
        };
        proof {
            assert(self.slots@[id] == self.entries@[i as int]);
            assert(self.entries@[i as int].ref_counter >= 1);
        }
        let r = self.entries[i].device.read_available();
        self.slots = Ghost(self.slots@.insert(id, self.entries@[i as int]));
        proof {
            Self::lemma_update_keeps_wf(old(self), self, i as int);
            assert(self@ =~= old(self)@);
        }
        Some(r)
    }

    /// Writes `buf` to the device of `reference`; nothing when the id is not
    /// registered.
    fn write(&mut self, reference: &DeviceRef, buf: &[u8]) -> (r: Option<Result<usize, Error>>)
        requires
            old(self).wf(),
        ensures
            final(self).wf(),
            final(self)@ == old(self)@,
            r is Some <==> old(self)@.contains_key(reference.id()),
            forall|k: u64| k != reference.id() ==> #[trigger] final(self).device_at(k) == old(self).device_at(k),
            old(self)@.contains_key(reference.id()) ==> final(self).device_at(reference.id()).name_of()
                == old(self).device_at(reference.id()).name_of(),
            old(self)@.contains_key(reference.id()) ==> final(self).device_at(reference.id()).config_text()
                == old(self).device_at(reference.id()).config_text(),
    {
        let id = reference.id;
        let i = match self.find(id) {
            Some(i) => i,
            None => return None,
        };
        proof {
            assert(self.slots@[id] == self.entries@[i as int]);
            assert(self.entries@[i as int].ref_counter >= 1);
        }
        let r = self.entries[i].device.write(buf);
        self.slots = Ghost(self.slots@.insert(id, self.entries@[i as int]));
        proof {
            Self::lemma_update_keeps_wf(old(self), self, i as int);
            assert(self@ =~= old(self)@);
        }
        Some(r)
    }

    /// The ids that are registered, each once.
    fn list(&self) -> (r: Vec<u64>)
        requires
            self.wf(),
        ensures
            r@.no_duplicates(),
            forall|k: u64| r@.contains(k) <==> self@.contains_key(k),
    {
        let mut r: Vec<u64> = Vec::new();
        let mut i: usize = 0;
        while i < self.entries.len()
            invariant
                0 <= i <= self.entries@.len(),
                self.wf(),
                r@.len() == i,
                forall|j: int| 0 <= j < i ==> r@[j] == #[trigger] self.entries@[j].id,
            decreases self.entries@.len() - i,
        {
            r.push(self.entries[i].id);
            i += 1;
        }
        proof {
            assert forall|a: int, b: int| 0 <= a < r@.len() && 0 <= b < r@.len() && a != b implies r@[a]
                != r@[b] by {
                if a < b {
                    assert(self.entries@[a].id != self.entries@[b].id);
                } else {
                    assert(self.entries@[b].id != self.entries@[a].id);
                }
            }
            assert forall|k: u64| r@.contains(k) <==> self@.contains_key(k) by {
                if r@.contains(k) {
                    let j = choose|j: int| 0 <= j < r@.len() && r@[j] == k;
                    assert(self.slots@.contains_key(self.entries@[j].id));
                }
                if self@.contains_key(k) {
                    assert(self.slots@.contains_key(k));
                    let j = choose|j: int|
                        0 <= j < self.entries@.len() && #[trigger] self.entries@[j].id == k;
                    assert(r@[j] == k);
                }
            }
        }
        r
    }
}


/// The registry of open devices: each handle id maps to its device and the
/// number of handles that hold it. An id with no holder left is absent.
pub struct DevicePool<C: DeviceChannel> {
    table: PoolTable<C>,
    next_id: u64,
}

impl<C: DeviceChannel> DevicePool<C> {
    #[verifier::type_invariant]
    spec fn inv(&self) -> bool {
        &&& self.table.wf()
        &&& forall|k: u64| self.table@.contains_key(k) ==> k < self.next_id || self.next_id == u64::MAX
    }

    /// The id that `mint` hands out next; every registered id is below it,
    /// unless it has reached the largest `u64`.
    pub closed spec fn next_id(&self) -> u64 {
        self.next_id
    }

    /// The number of holders of each registered id.
    pub closed spec fn view(&self) -> Map<u64, nat> {
        self.table@
    }

    /// The device registered under `id`.
    pub closed spec fn device_at(&self, id: u64) -> Device<C> {
        self.table.device_at(id)
    }

    pub fn new() -> (r: DevicePool<C>)
        ensures
            r@ == Map::<u64, nat>::empty(),
            r.next_id() == 0,
    {
        DevicePool { table: PoolTable::new(), next_id: 0 }
    }

    /// A handle for a fresh id, to be registered next: the id is not
    /// registered, and each call hands out a larger one. `None` once the ids
    /// are used up.
    pub fn mint(&mut self) -> (r: Option<DeviceRef>)
        ensures
            final(self)@ == old(self)@,
            forall|k: u64| #[trigger] final(self).device_at(k) == old(self).device_at(k),
            r is None <==> old(self).next_id() == u64::MAX,
            r matches Some(d) ==> d.id() == old(self).next_id() && !old(self)@.contains_key(d.id())
                && final(self).next_id() == old(self).next_id() + 1,
            r is None ==> final(self).next_id() == old(self).next_id(),
    {
        proof {
            use_type_invariant(&*self);
        }
        if self.next_id == u64::MAX {
            return None;
        }
        let id = self.next_id;
        self.next_id = id + 1;
        Some(DeviceRef::new(id))
    }

    /// Takes the table out, leaving an empty one in its place.
    fn take_table(&mut self) -> (t: PoolTable<C>)
        ensures
            t.wf(),
            t@ == old(self)@,
            t.slots@ == old(self).table.slots@,
            final(self).next_id == old(self).next_id,
            final(self).table@ == Map::<u64, nat>::empty(),
            final(self).table.wf(),
            forall|k: u64| t@.contains_key(k) ==> k < old(self).next_id || old(self).next_id == u64::MAX,
    {
        proof {
            use_type_invariant(&*self);
        }
        let mut t = PoolTable::new();
        std::mem::swap(&mut t, &mut self.table);
        t
    }

    /// Registers `device` under the id of `reference` with one holder. An id
    /// that is already registered is left as it is, and `device` is handed
    /// back.
    pub fn register(&mut self, device: Device<C>, reference: &DeviceRef) -> (r: Option<Device<C>>)
        ensures
            old(self)@.contains_key(reference.id()) ==> final(self)@ == old(self)@ && r == Some(
                device,
            ),
            !old(self)@.contains_key(reference.id()) ==> final(self)@ == old(self)@.insert(
                reference.id(),
                1,
            ) && r is None && final(self).device_at(reference.id()) == device,
            forall|k: u64| k != reference.id() ==> final(self).device_at(k) == old(self).device_at(k),
            final(self).next_id() == (if reference.id() < old(self).next_id() {
                old(self).next_id()
            } else if reference.id() < u64::MAX {
                (reference.id() + 1) as u64
            } else {
                u64::MAX
            }),
    {
        let mut t = self.take_table();
        let r = t.register(device, reference);
        let id = reference.id();
        if id >= self.next_id {
            self.next_id = if id < u64::MAX {
                id + 1
            } else {
                u64::MAX
            };
        }
        self.table = t;
        r
    }

    /// Counts one more holder of the id of `reference`. Nothing happens to an
    /// id that is not registered, or whose count is at the largest `u64`.
    pub fn push(&mut self, reference: &DeviceRef) -> (r: bool)
        ensures
            final(self)@ == duplicate_step(old(self)@, reference.id()),
            r == (old(self)@.contains_key(reference.id()) && old(self)@[reference.id()] < u64::MAX),
            forall|k: u64| #[trigger] final(self).device_at(k) == old(self).device_at(k),
            final(self).next_id() == old(self).next_id(),
    {
        let mut t = self.take_table();
        let r = t.push(reference);
        self.table = t;
        r
    }

    /// Releases one holder of the id of `reference`. When the last holder
    /// goes, the id leaves the pool and its device is handed back for
    /// teardown. Nothing happens to an id that is not registered.
    pub fn close(&mut self, reference: &DeviceRef) -> (r: Option<Device<C>>)
        ensures
            final(self)@ == release_step(old(self)@, reference.id()),
            r is Some <==> count_of(old(self)@, reference.id()) == 1,
            r matches Some(d) ==> d == old(self).device_at(reference.id()),
            count_of(old(self)@, reference.id()) >= 2 ==> final(self).device_at(reference.id())
                == old(self).device_at(reference.id()),
            forall|k: u64| k != reference.id() ==> #[trigger] final(self).device_at(k) == old(self).device_at(k),
            final(self).next_id() == old(self).next_id(),
    {
        let mut t = self.take_table();
        let r = t.close(reference);
        self.table = t;
        r
    }

    /// The number of holders of the id of `reference`, 0 when it is not
    /// registered.
    pub fn rc(&self, reference: &DeviceRef) -> (r: u64)
        ensures
            r == count_of(self@, reference.id()),
            (r == 0) == !self@.contains_key(reference.id()),
    {
        proof {
            use_type_invariant(self);
        }
        self.table.rc(reference)
    }

    /// Reads every available byte of the device of `reference`; nothing when
    /// the id is not registered.
    pub fn read_available(&mut self, reference: &DeviceRef) -> (r: Option<Result<Vec<u8>, Error>>)
        ensures
            final(self)@ == old(self)@,
            r is Some <==> old(self)@.contains_key(reference.id()),
            forall|k: u64| k != reference.id() ==> #[trigger] final(self).device_at(k) == old(self).device_at(k),
            old(self)@.contains_key(reference.id()) ==> final(self).device_at(reference.id()).name_of()
                == old(self).device_at(reference.id()).name_of(),
            old(self)@.contains_key(reference.id()) ==> final(self).device_at(reference.id()).config_text()
                == old(self).device_at(reference.id()).config_text(),
            final(self).next_id() == old(self).next_id(),
    {
        let mut t = self.take_table();
        let r = t.read_available(reference);
        self.table = t;
        r
    }

    /// Writes `buf` to the device of `reference`; nothing when the id is not
    /// registered.
    pub fn write(&mut self, reference: &DeviceRef, buf: &[u8]) -> (r: Option<Result<usize, Error>>)
        ensures
            final(self)@ == old(self)@,
            r is Some <==> old(self)@.contains_key(reference.id()),
            forall|k: u64| k != reference.id() ==> #[trigger] final(self).device_at(k) == old(self).device_at(k),
            old(self)@.contains_key(reference.id()) ==> final(self).device_at(reference.id()).name_of()
                == old(self).device_at(reference.id()).name_of(),
            old(self)@.contains_key(reference.id()) ==> final(self).device_at(reference.id()).config_text()
                == old(self).device_at(reference.id()).config_text(),
            final(self).next_id() == old(self).next_id(),
    {
        let mut t = self.take_table();
        let r = t.write(reference, buf);
        self.table = t;
        r
    }

    /// The ids that are registered, each once.
    pub fn list(&self) -> (r: Vec<u64>)
        ensures
            r@.no_duplicates(),
            forall|k: u64| r@.contains(k) <==> self@.contains_key(k),
    {
        proof {
            use_type_invariant(self);
        }
        self.table.list()
    }
}

/// A handle on a registered device. Each live handle counts as one holder in
/// the pool.
#[derive(Debug)]
pub struct DeviceRef {
    id: u64,
    held: bool,
}

/// The holders left once `r` lets go of its device: one fewer, if `r` still
/// holds it.
pub open spec fn release_hold(m: Map<u64, nat>, r: DeviceRef) -> Map<u64, nat> {
    if r.is_held() {
        release_step(m, r.id())
    } else {
        m
    }
}

impl DeviceRef {
    pub closed spec fn id_spec(&self) -> u64 {
        self.id
    }

    pub closed spec fn held_spec(&self) -> bool {
        self.held
    }

    /// Whether the handle still holds its device: it does until released.
    #[verifier::when_used_as_spec(held_spec)]
    pub fn is_held(&self) -> (r: bool)
        ensures
            r == self.held_spec(),
    {
        self.held
    }

    /// A handle for a fresh id, to be registered next (see
    /// `DevicePool::mint` for a verified source of fresh ids).
    pub fn new(id: u64) -> (r: DeviceRef)
        ensures
            r.id() == id,
            r.is_held(),
    {
        DeviceRef { id, held: true }
    }

    #[verifier::when_used_as_spec(id_spec)]
    pub fn id(&self) -> (r: u64)
        ensures
            r == self.id_spec(),
    {
        self.id
    }

    /// A handle for an id that is already registered, as when a handle comes
    /// back across a boundary: it counts as one more holder.
    pub fn attach<C: DeviceChannel>(id: u64, pool: &mut DevicePool<C>) -> (r: DeviceRef)
        ensures
            r.id() == id,
            r.is_held(),
            final(pool)@ == duplicate_step(old(pool)@, id),
    {
        let r = DeviceRef { id, held: true };
        pool.push(&r);
        r
    }

    /// A second handle on the same device, counted as one more holder.
    pub fn duplicate<C: DeviceChannel>(&self, pool: &mut DevicePool<C>) -> (r: DeviceRef)
        ensures
            r.id() == self.id(),
            r.is_held(),
            final(pool)@ == duplicate_step(old(pool)@, self.id()),
    {
        DeviceRef::attach(self.id, pool)
    }

    /// The number of holders of this handle's device, 0 once it is gone.
    pub fn rc<C: DeviceChannel>(&self, pool: &DevicePool<C>) -> (r: u64)
        ensures
            r == count_of(pool@, self.id()),
            (r == 0) == !pool@.contains_key(self.id()),
    {
        pool.rc(self)
    }

    /// Reads every available byte of this handle's device; nothing when the
    /// device is gone.
    pub fn read_available<C: DeviceChannel>(&self, pool: &mut DevicePool<C>) -> (r: Option<
        Result<Vec<u8>, Error>,
    >)
        ensures
            final(pool)@ == old(pool)@,
            r is Some <==> old(pool)@.contains_key(self.id()),
    {
        pool.read_available(self)
    }

    /// Writes `buf` to this handle's device; nothing when the device is gone.
    pub fn write<C: DeviceChannel>(&self, pool: &mut DevicePool<C>, buf: &[u8]) -> (r: Option<
        Result<usize, Error>,
    >)
        ensures
            final(pool)@ == old(pool)@,
            r is Some <==> old(pool)@.contains_key(self.id()),
    {
        pool.write(self, buf)
    }

    /// Releases this handle's hold on its device. When it was the last
    /// holder, the device's channel is closed and `true` is returned.
    /// Releasing a handle that was released already, or whose device is
    /// gone, does nothing.
    pub fn close<C: DeviceChannel>(&mut self, pool: &mut DevicePool<C>) -> (torn_down: bool)
        ensures
            final(self).id() == old(self).id(),
            !final(self).is_held(),
            final(pool)@ == release_hold(old(pool)@, *old(self)),
            torn_down == (old(self).is_held() && count_of(old(pool)@, old(self).id()) == 1),
    {
        if !self.held {
            return false;
        }
        self.held = false;
        match pool.close(self) {
            Some(mut d) => {
                d.close();
                true
            },
            None => false,
        }
    }
}

} // verus!

verus! {

/// One operation on the holders of `id`: a duplicate when `dup`, else a
/// release.
pub open spec fn handle_op(m: Map<u64, nat>, id: u64, dup: bool) -> Map<u64, nat> {
    if dup {
        duplicate_step(m, id)
    } else {
        release_step(m, id)
    }
}

/// The holders after the operations `ops` are applied in order.
pub open spec fn run_handle_ops(m: Map<u64, nat>, id: u64, ops: Seq<bool>) -> Map<u64, nat>
    decreases ops.len(),
{
    if ops.len() == 0 {
        m
    } else {
        run_handle_ops(handle_op(m, id, ops[0]), id, ops.skip(1))
    }
}

/// How many of the operations `ops` release the last holder, which is when
/// the pool hands the device back for teardown.
pub open spec fn teardowns(m: Map<u64, nat>, id: u64, ops: Seq<bool>) -> nat
    decreases ops.len(),
{
    if ops.len() == 0 {
        0
    } else {
        (if !ops[0] && count_of(m, id) == 1 {
            1nat
        } else {
            0nat
        }) + teardowns(handle_op(m, id, ops[0]), id, ops.skip(1))
    }
}

/// Every duplicate in `ops` is made while the device still has a holder.
pub open spec fn duplicates_while_held(m: Map<u64, nat>, id: u64, ops: Seq<bool>) -> bool
    decreases ops.len(),
{
    ops.len() == 0 || ((ops[0] ==> count_of(m, id) > 0) && duplicates_while_held(
        handle_op(m, id, ops[0]),
        id,
        ops.skip(1),
    ))
}

pub open spec fn count_duplicates(ops: Seq<bool>) -> nat
    decreases ops.len(),
{
    if ops.len() == 0 {
        0
    } else {
        (if ops[0] {
            1nat
        } else {
            0nat
        }) + count_duplicates(ops.skip(1))
    }
}

pub open spec fn count_releases(ops: Seq<bool>) -> nat
    decreases ops.len(),
{
    if ops.len() == 0 {
        0
    } else {
        (if ops[0] {
            0nat
        } else {
            1nat
        }) + count_releases(ops.skip(1))
    }
}

proof fn lemma_handle_ops(m: Map<u64, nat>, id: u64, ops: Seq<bool>)
    requires
        count_of(m, id) + ops.len() < u64::MAX,
        duplicates_while_held(m, id, ops),
    ensures
        count_of(m, id) == 0 ==> count_duplicates(ops) == 0,
        count_of(run_handle_ops(m, id, ops), id) == (if count_of(m, id) + count_duplicates(ops)
            >= count_releases(ops) {
            count_of(m, id) + count_duplicates(ops) - count_releases(ops)
        } else {
            0
        }),
        teardowns(m, id, ops) == (if count_of(m, id) > 0 && count_of(m, id) + count_duplicates(
            ops,
        ) <= count_releases(ops) {
            1nat
        } else {
            0nat
        }),
    decreases ops.len(),
{
    if ops.len() > 0 {
        lemma_handle_ops(handle_op(m, id, ops[0]), id, ops.skip(1));
    }
}

/// Whatever duplicates and releases are made on a freshly registered handle,
/// in whatever order, its count ends at one plus the duplicates minus the
/// releases, and never below zero; and the device is handed back for teardown
/// exactly once, at the release that takes the count from one to zero, if
/// the releases ever catch up with the holders. Duplicates come while the
/// device still has a holder (after that there is nothing to duplicate), and
/// the count stays below the largest `u64`.
pub proof fn law_refcount_balance(m: Map<u64, nat>, id: u64, ops: Seq<bool>)
    requires
        m.contains_key(id),
        m[id] == 1,
        ops.len() + 1 < u64::MAX,
        duplicates_while_held(m, id, ops),
    ensures
        count_of(run_handle_ops(m, id, ops), id) == (if 1 + count_duplicates(ops) >= count_releases(
            ops,
        ) {
            1 + count_duplicates(ops) - count_releases(ops)
        } else {
            0
        }),
        teardowns(m, id, ops) == (if 1 + count_duplicates(ops) <= count_releases(ops) {
            1nat
        } else {
            0nat
        }),
{
    lemma_handle_ops(m, id, ops);
}

} // verus!
