use vstd::prelude::*;
use crate::config::Backend;
use crate::text::str_equal;

verus! {

/// The default serial speed of a USB printer.
pub const DEFAULT_BAUD: u32 = 9600;

/// The most idle connections that a pool keeps.
pub const MAX_POOLED: usize = 5;

/// A connection older than this, in milliseconds, is not reused.
pub const MAX_AGE_MS: u64 = 300_000;

/// A connection unused for longer than this, in milliseconds, is not reused.
pub const MAX_IDLE_MS: u64 = 60_000;

/// What identifies a backend address: one pool per key.
#[derive(Debug, Clone, PartialEq, Eq)]
pub enum PoolKey {
    Tcp { host: String, port: u16 },
    Usb { device: String, baud: u32 },
}

pub enum PoolKeyModel {
    Tcp { host: Seq<char>, port: u16 },
    Usb { device: Seq<char>, baud: u32 },
}

impl View for PoolKey {
    type V = PoolKeyModel;

    open spec fn view(&self) -> PoolKeyModel {
        match self {
            PoolKey::Tcp { host, port } => PoolKeyModel::Tcp { host: host@, port: *port },
            PoolKey::Usb { device, baud } => PoolKeyModel::Usb { device: device@, baud: *baud },
        }
    }
}

/// The pool key of a backend.
pub open spec fn backend_key(b: Backend) -> PoolKeyModel {
    match b {
        Backend::Tcp9100 { host, port } => PoolKeyModel::Tcp { host: host@, port: port },
        Backend::Usb { device, baud_rate } => PoolKeyModel::Usb {
            device: device@,
            baud: match baud_rate {
                Some(b) => b,
                None => DEFAULT_BAUD,
            },
        },
    }
}

/// The pool key of a backend: its kind and address, with the default
/// serial speed where none is configured.
pub fn pool_key(backend: &Backend) -> (r: PoolKey)
    ensures
        r@ == backend_key(*backend),
{
    match backend {
        Backend::Tcp9100 { host, port } => PoolKey::Tcp { host: host.clone(), port: *port },
        Backend::Usb { device, baud_rate } => PoolKey::Usb {
            device: device.clone(),
            baud: match baud_rate {
                Some(b) => *b,
                None => DEFAULT_BAUD,
            },
        },
    }
}

/// Compares two pool keys.
pub fn same_pool_key(a: &PoolKey, b: &PoolKey) -> (r: bool)
    ensures
        r == (a@ == b@),
{
    match (a, b) {
        (PoolKey::Tcp { host: h1, port: p1 }, PoolKey::Tcp { host: h2, port: p2 }) => *p1 == *p2 && str_equal(h1.as_str(), h2.as_str()),
        (PoolKey::Usb { device: d1, baud: b1 }, PoolKey::Usb { device: d2, baud: b2 }) => *b1 == *b2 && str_equal(d1.as_str(), d2.as_str()),
        _ => false,
    }
}

/// Milliseconds from `since` to `now`; nothing where the clock ran back.
pub open spec fn elapsed(now: u64, since: u64) -> u64 {
    if now >= since {
        (now - since) as u64
    } else {
        0
    }
}

/// A transport connection held by a pool, with its creation and last-use times.
#[derive(Debug)]
pub struct PooledConnection<C> {
    pub connection: C,
    pub created_at: u64,
    pub last_used: u64,
}

/// The connection may be handed out at `now`: neither too old nor idle too long.
pub open spec fn usable<C>(c: PooledConnection<C>, now: u64, max_age: u64, max_idle: u64) -> bool {
    !(elapsed(now, c.created_at) > max_age) && !(elapsed(now, c.last_used) > max_idle)
}

/// The index of the last connection that may be handed out, or -1.
pub open spec fn last_usable<C>(s: Seq<PooledConnection<C>>, now: u64, max_age: u64, max_idle: u64) -> int
    decreases s.len(),
{
    if s.len() == 0 {
        -1
    } else if usable(s.last(), now, max_age, max_idle) {
        s.len() - 1
    } else {
        last_usable(s.drop_last(), now, max_age, max_idle)
    }
}

/// The connections that may still be handed out, in order.
pub open spec fn kept<C>(s: Seq<PooledConnection<C>>, now: u64, max_age: u64, max_idle: u64) -> Seq<PooledConnection<C>>
    decreases s.len(),
{
    if s.len() == 0 {
        s
    } else if usable(s.last(), now, max_age, max_idle) {
        kept(s.drop_last(), now, max_age, max_idle).push(s.last())
    } else {
        kept(s.drop_last(), now, max_age, max_idle)
    }
}

/// The connection that `last_usable` picks may be handed out, and every one
/// above it may not.
pub proof fn lemma_last_usable<C>(s: Seq<PooledConnection<C>>, now: u64, max_age: u64, max_idle: u64)
    ensures
        -1 <= last_usable(s, now, max_age, max_idle) < s.len(),
        last_usable(s, now, max_age, max_idle) >= 0 ==> usable(s[last_usable(s, now, max_age, max_idle)], now, max_age, max_idle),
        forall|j: int| last_usable(s, now, max_age, max_idle) < j < s.len() ==> !usable(#[trigger] s[j], now, max_age, max_idle),
    decreases s.len(),
{
    if s.len() > 0 {
        let d = s.drop_last();
        lemma_last_usable(d, now, max_age, max_idle);
        assert forall|j: int| 0 <= j < s.len() - 1 implies s[j] == d[j] by {}
    }
}

impl<C> PooledConnection<C> {
    /// A connection opened at `now`.
    pub fn new(connection: C, now: u64) -> (r: Self)
        ensures
            r.connection == connection,
            r.created_at == now,
            r.last_used == now,
    {
        PooledConnection { connection, created_at: now, last_used: now }
    }

    /// Whether the connection is older than `max_age`.
    pub fn is_expired(&self, now: u64, max_age: u64) -> (r: bool)
        ensures
            r == (elapsed(now, self.created_at) > max_age),
    {
        let age = if now >= self.created_at { now - self.created_at } else { 0 };
        age > max_age
    }

    /// Whether the connection has been unused for longer than `max_idle`.
    pub fn is_idle_too_long(&self, now: u64, max_idle: u64) -> (r: bool)
        ensures
            r == (elapsed(now, self.last_used) > max_idle),
    {
        let idle = if now >= self.last_used { now - self.last_used } else { 0 };
        idle > max_idle
    }

    /// Records a use at `now`.
    pub fn mark_used(&mut self, now: u64)
        ensures
            final(self).connection == old(self).connection,
            final(self).created_at == old(self).created_at,
            final(self).last_used == now,
    {
        self.last_used = now;
    }
}

/// The idle connections to one backend, most recently returned last.
#[derive(Debug)]
pub struct PrinterPool<C> {
    pub connections: Vec<PooledConnection<C>>,
    pub max_connections: usize,
    pub max_age: u64,
    pub max_idle: u64,
}

impl<C> PrinterPool<C> {
    /// The pool holds no more than its cap.
    pub open spec fn wf(&self) -> bool {
        self.connections@.len() <= self.max_connections
    }

    /// An empty pool that keeps at most `max_connections` connections, each
    /// for at most five minutes and one idle minute.
    pub fn new(max_connections: usize) -> (r: Self)
        ensures
            r.wf(),
            r.connections@.len() == 0,
            r.max_connections == max_connections,
            r.max_age == MAX_AGE_MS,
            r.max_idle == MAX_IDLE_MS,
    {
        PrinterPool { connections: Vec::new(), max_connections, max_age: MAX_AGE_MS, max_idle: MAX_IDLE_MS }
    }

    /// Takes the most recently returned connection that may still be used,
    /// discarding the unusable ones found on top of it, and marks it used.
    /// `None` when none is left: the caller opens a new connection.
    pub fn get_connection(&mut self, now: u64) -> (r: Option<PooledConnection<C>>)
        requires
            old(self).wf(),
        ensures
            final(self).wf(),
            final(self).max_connections == old(self).max_connections,
            final(self).max_age == old(self).max_age,
            final(self).max_idle == old(self).max_idle,
            ({
                let k = last_usable(old(self).connections@, now, old(self).max_age, old(self).max_idle);
                if k < 0 {
                    r is None && final(self).connections@.len() == 0
                } else {
                    r == Some(PooledConnection { last_used: now, ..old(self).connections@[k] })
                        && final(self).connections@ == old(self).connections@.subrange(0, k)
                }
            }),
            ({
                let k = last_usable(old(self).connections@, now, old(self).max_age, old(self).max_idle);
                &&& k >= 0 ==> usable(old(self).connections@[k], now, old(self).max_age, old(self).max_idle)
                &&& forall|j: int| k < j < old(self).connections@.len() ==> !usable(#[trigger] old(self).connections@[j], now, old(self).max_age, old(self).max_idle)
            }),
    {
        loop
            invariant
                self.wf(),
                self.max_connections == old(self).max_connections,
                self.max_age == old(self).max_age,
                self.max_idle == old(self).max_idle,
                self.connections@.len() <= old(self).connections@.len(),
                self.connections@ == old(self).connections@.subrange(0, self.connections@.len() as int),
                last_usable(old(self).connections@, now, self.max_age, self.max_idle)
                    == last_usable(self.connections@, now, self.max_age, self.max_idle),
            decreases self.connections@.len(),
        {
            let ghost before = self.connections@;
            match self.connections.pop() {
                None => {
                    proof {
                        lemma_last_usable(old(self).connections@, now, old(self).max_age, old(self).max_idle);
                    }
                    return None;
                },
                Some(mut c) => {
                    assert(c == before.last());
                    assert(self.connections@ == before.drop_last());
                    if !c.is_expired(now, self.max_age) && !c.is_idle_too_long(now, self.max_idle) {
                        c.mark_used(now);
                        proof {
                            lemma_last_usable(old(self).connections@, now, old(self).max_age, old(self).max_idle);
                        }
                        return Some(c);
                    }
                },
            }
        }
    }

    /// Keeps a connection after a successful transmission, unless the pool
    /// is full, in which case the connection is dropped.
    pub fn return_connection(&mut self, conn: PooledConnection<C>, now: u64)
        requires
            old(self).wf(),
        ensures
            final(self).wf(),
            final(self).max_connections == old(self).max_connections,
            final(self).max_age == old(self).max_age,
            final(self).max_idle == old(self).max_idle,
            old(self).connections@.len() < old(self).max_connections ==> final(self).connections@
                == old(self).connections@.push(PooledConnection { last_used: now, ..conn }),
            old(self).connections@.len() >= old(self).max_connections ==> final(self).connections@
                == old(self).connections@,
    {
        if self.connections.len() < self.max_connections {
            let mut c = conn;
            c.mark_used(now);
            self.connections.push(c);
        }
    }

    /// Drops every connection that is too old or idle too long.
    pub fn cleanup_expired(&mut self, now: u64)
        requires
            old(self).wf(),
        ensures
            final(self).wf(),
            final(self).max_connections == old(self).max_connections,
            final(self).max_age == old(self).max_age,
            final(self).max_idle == old(self).max_idle,
            final(self).connections@ == kept(old(self).connections@, now, old(self).max_age, old(self).max_idle),
    {
        let ghost all = self.connections@;
        let ghost ma = self.max_age;
        let ghost mi = self.max_idle;
        let mut i: usize = 0;
        let ghost mut j: int = 0;
        assert(all.subrange(0, 0) =~= Seq::<PooledConnection<C>>::empty());
        assert(all.subrange(0, all.len() as int) =~= all);
        while i < self.connections.len()
            invariant
                self.max_connections == old(self).max_connections,
                self.max_age == ma,
                self.max_idle == mi,
                ma == old(self).max_age,
                mi == old(self).max_idle,
                all == old(self).connections@,
                all.len() <= self.max_connections,
                0 <= j <= all.len(),
                i <= self.connections@.len(),
                self.connections@.len() - i == all.len() - j,
                self.connections@.subrange(0, i as int) == kept(all.subrange(0, j), now, ma, mi),
                self.connections@.subrange(i as int, self.connections@.len() as int) == all.subrange(j, all.len() as int),
                kept(all.subrange(0, j), now, ma, mi).len() <= j,
            decreases self.connections@.len() - i,
        {
            let ghost cur = self.connections@;
            assert(cur[i as int] == all[j]) by {
                assert(cur.subrange(i as int, cur.len() as int)[0] == all.subrange(j, all.len() as int)[0]);
            }
            assert(all.subrange(0, j + 1).drop_last() =~= all.subrange(0, j));
            assert(all.subrange(0, j + 1).last() == all[j]);
            assert forall|t: int| 0 <= t < cur.len() - i - 1 implies #[trigger] cur[i + 1 + t] == all[j + 1 + t] by {
                assert(cur.subrange(i as int, cur.len() as int)[t + 1] == all.subrange(j, all.len() as int)[t + 1]);
            }
            let keep = !self.connections[i].is_expired(now, self.max_age) && !self.connections[i].is_idle_too_long(now, self.max_idle);
            if keep {
                i += 1;
                assert(self.connections@.subrange(0, i as int) =~= cur.subrange(0, i - 1).push(cur[i - 1]));
                assert forall|t: int| 0 <= t < cur.len() - i implies #[trigger] self.connections@.subrange(i as int, self.connections@.len() as int)[t]
                    == all.subrange(j + 1, all.len() as int)[t] by {
                    assert(cur[i - 1 + 1 + t] == all[j + 1 + t]);
                }
                assert(self.connections@.subrange(i as int, self.connections@.len() as int) =~= all.subrange(j + 1, all.len() as int));
            } else {
                let _dropped = self.connections.remove(i);
                assert(self.connections@.subrange(0, i as int) =~= cur.subrange(0, i as int));
                assert forall|t: int| 0 <= t < cur.len() - i - 1 implies #[trigger] self.connections@.subrange(i as int, self.connections@.len() as int)[t]
                    == all.subrange(j + 1, all.len() as int)[t] by {
                    assert(cur[i + 1 + t] == all[j + 1 + t]);
                    assert(self.connections@[i + t] == cur[i + 1 + t]);
                }
                assert(self.connections@.subrange(i as int, self.connections@.len() as int) =~= all.subrange(j + 1, all.len() as int));
            }
            proof {
                j = j + 1;
            }
        }
        assert(self.connections@ =~= self.connections@.subrange(0, i as int));
        assert(all.subrange(0, j) =~= all);
    }
}

/// A pool with the key of its backend.
#[derive(Debug)]
pub struct PoolSlot<C> {
    pub key: PoolKey,
    pub pool: PrinterPool<C>,
}

/// The pool that a key has in a list of slots: the last one with that key.
pub open spec fn pool_in<C>(slots: Seq<PoolSlot<C>>, k: PoolKeyModel) -> Option<PrinterPool<C>>
    decreases slots.len(),
{
    if slots.len() == 0 {
        None
    } else if slots.last().key@ == k {
        Some(slots.last().pool)
    } else {
        pool_in(slots.drop_last(), k)
    }
}

/// The index of the last slot with that key, or -1.
pub open spec fn slot_index<C>(slots: Seq<PoolSlot<C>>, k: PoolKeyModel) -> int
    decreases slots.len(),
{
    if slots.len() == 0 {
        -1
    } else if slots.last().key@ == k {
        slots.len() - 1
    } else {
        slot_index(slots.drop_last(), k)
    }
}

proof fn lemma_slot_index<C>(slots: Seq<PoolSlot<C>>, k: PoolKeyModel)
    ensures
        -1 <= slot_index(slots, k) < slots.len(),
        slot_index(slots, k) >= 0 ==> slots[slot_index(slots, k)].key@ == k
            && pool_in(slots, k) == Some(slots[slot_index(slots, k)].pool)
            && forall|i: int| slot_index(slots, k) < i < slots.len() ==> (#[trigger] slots[i]).key@ != k,
        slot_index(slots, k) < 0 ==> pool_in(slots, k) is None && forall|i: int| 0 <= i < slots.len() ==> (#[trigger] slots[i]).key@ != k,
    decreases slots.len(),
{
    if slots.len() > 0 {
        let d = slots.drop_last();
        lemma_slot_index(d, k);
        assert forall|i: int| 0 <= i < slots.len() - 1 implies slots[i] == d[i] by {}
    }
}

proof fn lemma_pool_in_update<C>(slots: Seq<PoolSlot<C>>, i: int, s: PoolSlot<C>, k: PoolKeyModel)
    requires
        0 <= i < slots.len(),
        s.key@ == slots[i].key@,
        slot_index(slots, slots[i].key@) == i,
    ensures
        k == s.key@ ==> pool_in(slots.update(i, s), k) == Some(s.pool),
        k != s.key@ ==> pool_in(slots.update(i, s), k) == pool_in(slots, k),
    decreases slots.len(),
{
    let u = slots.update(i, s);
    if i == slots.len() - 1 {
        assert(u.drop_last() =~= slots.drop_last());
    } else {
        assert(u.drop_last() =~= slots.drop_last().update(i, s));
        lemma_pool_in_update(slots.drop_last(), i, s, k);
    }
}

/// One pool per backend key, created when first needed.
#[derive(Debug)]
pub struct ConnectionManager<C> {
    pub slots: Vec<PoolSlot<C>>,
}

impl<C> ConnectionManager<C> {
    /// The pool of each key keeps to its cap.
    pub open spec fn wf(&self) -> bool {
        forall|i: int| 0 <= i < self.slots@.len() ==> (#[trigger] self.slots@[i]).pool.wf() && self.slots@[i].pool.max_connections == MAX_POOLED
            && self.slots@[i].pool.max_age == MAX_AGE_MS && self.slots@[i].pool.max_idle == MAX_IDLE_MS
    }

    pub open spec fn pool_for(&self, k: PoolKeyModel) -> Option<PrinterPool<C>> {
        pool_in(self.slots@, k)
    }

    /// A manager with no pools yet.
    pub fn new() -> (r: Self)
        ensures
            r.wf(),
            forall|k: PoolKeyModel| r.pool_for(k) is None,
    {
        ConnectionManager { slots: Vec::new() }
    }

    fn find_slot(&self, key: &PoolKey) -> (r: Option<usize>)
        ensures
            r matches Some(i) ==> i as int == slot_index(self.slots@, key@),
            r is None ==> slot_index(self.slots@, key@) < 0,
    {
        proof {
            lemma_slot_index(self.slots@, key@);
        }
        let mut i: usize = self.slots.len();
        while i > 0
            invariant
                i <= self.slots@.len(),
                forall|j: int| i <= j < self.slots@.len() ==> (#[trigger] self.slots@[j]).key@ != key@,
                -1 <= slot_index(self.slots@, key@) < self.slots@.len(),
                slot_index(self.slots@, key@) >= 0 ==> self.slots@[slot_index(self.slots@, key@)].key@ == key@
                    && forall|j: int| slot_index(self.slots@, key@) < j < self.slots@.len() ==> (#[trigger] self.slots@[j]).key@ != key@,
                slot_index(self.slots@, key@) < 0 ==> forall|j: int| 0 <= j < self.slots@.len() ==> (#[trigger] self.slots@[j]).key@ != key@,
            decreases i,
        {
            i -= 1;
            if same_pool_key(&self.slots[i].key, key) {
                return Some(i);
            }
        }
        None
    }

    /// The index of the pool of `key`, created empty if it was missing.
    fn slot_of(&mut self, key: &PoolKey) -> (r: usize)
        requires
            old(self).wf(),
        ensures
            final(self).wf(),
            r < final(self).slots@.len(),
            r as int == slot_index(final(self).slots@, key@),
            old(self).pool_for(key@) matches Some(p) ==> final(self).slots@[r as int].pool == p,
            old(self).pool_for(key@) is None ==> final(self).slots@[r as int].pool.connections@.len() == 0,
            forall|k: PoolKeyModel| k != key@ ==> final(self).pool_for(k) == old(self).pool_for(k),
            old(self).pool_for(key@) is Some ==> final(self).slots@ == old(self).slots@,
    {
        proof {
            lemma_slot_index(self.slots@, key@);
        }
        match self.find_slot(key) {
            Some(i) => i,
            None => {
                let k2 = match key {
                    PoolKey::Tcp { host, port } => PoolKey::Tcp { host: host.clone(), port: *port },
                    PoolKey::Usb { device, baud } => PoolKey::Usb { device: device.clone(), baud: *baud },
                };
                let ghost before = self.slots@;
                self.slots.push(PoolSlot { key: k2, pool: PrinterPool::new(MAX_POOLED) });
                assert(self.slots@.drop_last() =~= before);
                assert forall|k: PoolKeyModel| k != key@ implies self.pool_for(k) == pool_in(before, k) by {}
                self.slots.len() - 1
            },
        }
    }

    /// Takes a reusable connection from the pool of `key`, creating the pool
    /// if needed; `None` when the caller must open a new connection.
    pub fn get_connection(&mut self, key: &PoolKey, now: u64) -> (r: Option<PooledConnection<C>>)
        requires
            old(self).wf(),
        ensures
            final(self).wf(),
            (final(self).pool_for(key@) matches Some(p) && p.connections@.len() <= MAX_POOLED),
            old(self).pool_for(key@) matches Some(p) ==> ({
                let k = last_usable(p.connections@, now, MAX_AGE_MS, MAX_IDLE_MS);
                if k < 0 {
                    r is None
                } else {
                    r == Some(PooledConnection { last_used: now, ..p.connections@[k] })
                        && usable(p.connections@[k], now, MAX_AGE_MS, MAX_IDLE_MS)
                }
            }),
            old(self).pool_for(key@) matches Some(p) ==> ({
                let k = last_usable(p.connections@, now, MAX_AGE_MS, MAX_IDLE_MS);
                final(self).pool_for(key@) matches Some(q) && q.connections@ == (if k < 0 {
                    Seq::empty()
                } else {
                    p.connections@.subrange(0, k)
                })
            }),
            old(self).pool_for(key@) is None ==> r is None,
            old(self).pool_for(key@) is None ==> (final(self).pool_for(key@) matches Some(q) && q.connections@.len() == 0),
            forall|k: PoolKeyModel| k != key@ ==> final(self).pool_for(k) == old(self).pool_for(k),
    {
        let i = self.slot_of(key);
        proof {
            lemma_slot_index(self.slots@, key@);
        }
        let ghost mid = self.slots@;
        let mut slot = PoolSlot { key: PoolKey::Tcp { host: String::new(), port: 0 }, pool: PrinterPool::new(MAX_POOLED) };
        self.slots.set_and_swap(i, &mut slot);
        assert(slot == mid[i as int]);
        assert(slot.pool.wf());
        let r = slot.pool.get_connection(now);
        proof {
            lemma_last_usable(mid[i as int].pool.connections@, now, MAX_AGE_MS, MAX_IDLE_MS);
        }
        self.slots.set_and_swap(i, &mut slot);
        assert(self.slots@ =~= mid.update(i as int, self.slots@[i as int]));
        proof {
            assert forall|k: PoolKeyModel| k != key@ implies self.pool_for(k) == pool_in(mid, k) by {
                lemma_pool_in_update(mid, i as int, self.slots@[i as int], k);
            }
            lemma_pool_in_update(mid, i as int, self.slots@[i as int], key@);
            assert forall|j: int| 0 <= j < self.slots@.len() implies (#[trigger] self.slots@[j]).pool.wf()
                && self.slots@[j].pool.max_connections == MAX_POOLED && self.slots@[j].pool.max_age == MAX_AGE_MS
                && self.slots@[j].pool.max_idle == MAX_IDLE_MS by {
                if j != i {
                    assert(self.slots@[j] == mid[j]);
                }
            }
            if old(self).pool_for(key@) is None {
                assert(mid[i as int].pool.connections@.len() == 0);
            }
        }
        r
    }

    /// Hands a connection back to the pool of `key` after a successful
    /// transmission; it is dropped when that pool is full.
    pub fn return_connection(&mut self, key: &PoolKey, conn: PooledConnection<C>, now: u64)
        requires
            old(self).wf(),
        ensures
            final(self).wf(),
            old(self).pool_for(key@) matches Some(p) ==> (final(self).pool_for(key@) matches Some(q) && (
                if p.connections@.len() < MAX_POOLED {
                    q.connections@ == p.connections@.push(PooledConnection { last_used: now, ..conn })
                } else {
                    q.connections@ == p.connections@
                })),
            old(self).pool_for(key@) is None ==> (final(self).pool_for(key@) matches Some(q)
                && q.connections@ == seq![PooledConnection { last_used: now, ..conn }]),
            forall|k: PoolKeyModel| k != key@ ==> final(self).pool_for(k) == old(self).pool_for(k),
    {
        let i = self.slot_of(key);
        proof {
            lemma_slot_index(self.slots@, key@);
        }
        let ghost mid = self.slots@;
        let mut slot = PoolSlot { key: PoolKey::Tcp { host: String::new(), port: 0 }, pool: PrinterPool::new(MAX_POOLED) };
        self.slots.set_and_swap(i, &mut slot);
        assert(slot == mid[i as int]);
        slot.pool.return_connection(conn, now);
        self.slots.set_and_swap(i, &mut slot);
        assert(self.slots@ =~= mid.update(i as int, self.slots@[i as int]));
        proof {
            assert forall|k: PoolKeyModel| k != key@ implies self.pool_for(k) == pool_in(mid, k) by {
                lemma_pool_in_update(mid, i as int, self.slots@[i as int], k);
            }
            lemma_pool_in_update(mid, i as int, self.slots@[i as int], key@);
            assert forall|j: int| 0 <= j < self.slots@.len() implies (#[trigger] self.slots@[j]).pool.wf()
                && self.slots@[j].pool.max_connections == MAX_POOLED && self.slots@[j].pool.max_age == MAX_AGE_MS
                && self.slots@[j].pool.max_idle == MAX_IDLE_MS by {
                if j != i {
                    assert(self.slots@[j] == mid[j]);
                }
            }
            if old(self).pool_for(key@) is None {
                assert(mid[i as int].pool.connections@.len() == 0);
                assert(self.slots@[i as int].pool.connections@ =~= seq![PooledConnection { last_used: now, ..conn }]);
            }
        }
    }

    /// Ends a transmission over `conn`: after a successful write and flush
    /// the connection goes back to the pool of `key`; after a failure it is
    /// presumed broken and dropped, leaving every pool as it was.
    pub fn complete_send(&mut self, key: &PoolKey, conn: PooledConnection<C>, succeeded: bool, now: u64)
        requires
            old(self).wf(),
        ensures
            final(self).wf(),
            !succeeded ==> final(self).slots@ == old(self).slots@,
            succeeded ==> (old(self).pool_for(key@) matches Some(p) ==> (final(self).pool_for(key@) matches Some(q) && (
                if p.connections@.len() < MAX_POOLED {
                    q.connections@ == p.connections@.push(PooledConnection { last_used: now, ..conn })
                } else {
                    q.connections@ == p.connections@
                }))),
            succeeded ==> (old(self).pool_for(key@) is None ==> (final(self).pool_for(key@) matches Some(q)
                && q.connections@ == seq![PooledConnection { last_used: now, ..conn }])),
            succeeded ==> forall|k: PoolKeyModel| k != key@ ==> final(self).pool_for(k) == old(self).pool_for(k),
    {
        if succeeded {
            self.return_connection(key, conn, now);
        }
    }

    /// Drops, in every pool, the connections that are too old or idle too long.
    pub fn cleanup_all_pools(&mut self, now: u64)
        requires
            old(self).wf(),
        ensures
            final(self).wf(),
            final(self).slots@.len() == old(self).slots@.len(),
            forall|i: int| 0 <= i < old(self).slots@.len() ==> (#[trigger] final(self).slots@[i]).key == old(self).slots@[i].key
                && final(self).slots@[i].pool.connections@ == kept(old(self).slots@[i].pool.connections@, now, MAX_AGE_MS, MAX_IDLE_MS),
    {
        let mut i: usize = 0;
        while i < self.slots.len()
            invariant
                i <= self.slots@.len(),
                self.wf(),
                self.slots@.len() == old(self).slots@.len(),
                forall|j: int| 0 <= j < i ==> (#[trigger] self.slots@[j]).key == old(self).slots@[j].key
                    && self.slots@[j].pool.connections@ == kept(old(self).slots@[j].pool.connections@, now, MAX_AGE_MS, MAX_IDLE_MS),
                forall|j: int| i <= j < self.slots@.len() ==> #[trigger] self.slots@[j] == old(self).slots@[j],
            decreases self.slots@.len() - i,
        {
            let ghost mid = self.slots@;
            let mut slot = PoolSlot { key: PoolKey::Tcp { host: String::new(), port: 0 }, pool: PrinterPool::new(MAX_POOLED) };
            self.slots.set_and_swap(i, &mut slot);
            assert(slot == mid[i as int]);
            slot.pool.cleanup_expired(now);
            self.slots.set_and_swap(i, &mut slot);
            assert forall|j: int| 0 <= j < self.slots@.len() && j != i implies #[trigger] self.slots@[j] == mid[j] by {}
            i += 1;
        }
    }
}

} // verus!
