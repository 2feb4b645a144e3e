use vstd::prelude::*;
use crate::config::Printer;
use crate::errors::ProxyError;
use crate::pool::{PoolKey, PoolKeyModel, backend_key, elapsed, pool_key};

verus! {

/// How long, in milliseconds, a probe result is served from the cache.
pub const HEALTH_TTL_MS: u64 = 30_000;

/// The liveness of a printer.
#[derive(Debug, Clone, Copy, PartialEq, Eq, Structural)]
pub enum PrinterStatus {
    Online,
    Offline,
    Unknown,
}

impl PrinterStatus {
    /// The status as a word: `online`, `offline` or `unknown`.
    pub fn label(&self) -> (r: &'static str)
        ensures
            *self == PrinterStatus::Online ==> r@ == "online"@,
            *self == PrinterStatus::Offline ==> r@ == "offline"@,
            *self == PrinterStatus::Unknown ==> r@ == "unknown"@,
    {
        match self {
            PrinterStatus::Online => "online",
            PrinterStatus::Offline => "offline",
            PrinterStatus::Unknown => "unknown",
        }
    }

    /// The status as a message for people, with its colour mark.
    pub fn message(&self) -> (r: String)
        ensures
            *self == PrinterStatus::Online ==> r@ == "\u{1F7E2} Online"@,
            *self == PrinterStatus::Offline ==> r@ == "\u{1F534} Offline"@,
            *self == PrinterStatus::Unknown ==> r@ == "\u{1F7E1} Unknown"@,
    {
        match self {
            PrinterStatus::Online => "\u{1F7E2} Online".to_owned(),
            PrinterStatus::Offline => "\u{1F534} Offline".to_owned(),
            PrinterStatus::Unknown => "\u{1F7E1} Unknown".to_owned(),
        }
    }
}

/// Lets a print request through unless its printer is offline; an unknown
/// status passes.
pub fn ensure_printer_online(printer: &Printer, status: PrinterStatus) -> (r: Result<(), ProxyError>)
    ensures
        r is Ok <==> status != PrinterStatus::Offline,
        r matches Err(e) ==> e matches ProxyError::PrinterOffline(id) && id@ == printer.id@,
{
    match status {
        PrinterStatus::Offline => Err(ProxyError::PrinterOffline(printer.id.clone())),
        _ => Ok(()),
    }
}

/// A cached probe result and when it was taken.
#[derive(Debug, Clone, Copy, PartialEq, Eq, Structural)]
pub struct HealthCacheEntry {
    pub status: PrinterStatus,
    pub timestamp: u64,
}

/// The entry is served at `now`: it is younger than the time to live.
pub open spec fn live(e: HealthCacheEntry, now: u64, ttl: u64) -> bool {
    elapsed(now, e.timestamp) < ttl
}

impl HealthCacheEntry {
    /// A result taken at `now`.
    pub fn new(status: PrinterStatus, now: u64) -> (r: Self)
        ensures
            r.status == status,
            r.timestamp == now,
    {
        HealthCacheEntry { status, timestamp: now }
    }

    /// Whether the entry has reached its time to live.
    pub fn is_expired(&self, now: u64, ttl: u64) -> (r: bool)
        ensures
            r == !live(*self, now, ttl),
    {
        let age = if now >= self.timestamp { now - self.timestamp } else { 0 };
        age >= ttl
    }
}

/// What identifies a logical printer in the cache: its id and its backend.
#[derive(Debug, Clone, PartialEq, Eq)]
pub struct HealthKey {
    pub id: String,
    pub pool: PoolKey,
}

pub struct HealthKeyModel {
    pub id: Seq<char>,
    pub pool: PoolKeyModel,
}

impl View for HealthKey {
    type V = HealthKeyModel;

    open spec fn view(&self) -> HealthKeyModel {
        HealthKeyModel { id: self.id@, pool: self.pool@ }
    }
}

/// The cache key of a printer.
pub open spec fn printer_key(p: Printer) -> HealthKeyModel {
    HealthKeyModel { id: p.id@, pool: backend_key(p.backend) }
}

/// The cache key of a printer.
pub fn health_key(printer: &Printer) -> (r: HealthKey)
    ensures
        r@ == printer_key(*printer),
{
    HealthKey { id: printer.id.clone(), pool: pool_key(&printer.backend) }
}

fn same_health_key(a: &HealthKey, b: &HealthKey) -> (r: bool)
    ensures
        r == (a@ == b@),
{
    crate::text::str_equal(a.id.as_str(), b.id.as_str()) && crate::pool::same_pool_key(&a.pool, &b.pool)
}

/// A cached result with its key.
#[derive(Debug)]
pub struct HealthSlot {
    pub key: HealthKey,
    pub entry: HealthCacheEntry,
}

/// The entry of a key in a list of slots: the last one with that key.
pub open spec fn entry_in(slots: Seq<HealthSlot>, k: HealthKeyModel) -> Option<HealthCacheEntry>
    decreases slots.len(),
{
    if slots.len() == 0 {
        None
    } else if slots.last().key@ == k {
        Some(slots.last().entry)
    } else {
        entry_in(slots.drop_last(), k)
    }
}

/// The slots whose key is not `k`, in order.
pub open spec fn without_key(slots: Seq<HealthSlot>, k: HealthKeyModel) -> Seq<HealthSlot>
    decreases slots.len(),
{
    if slots.len() == 0 {
        slots
    } else if slots.last().key@ != k {
        without_key(slots.drop_last(), k).push(slots.last())
    } else {
        without_key(slots.drop_last(), k)
    }
}

/// The slots whose entry is still served at `now`, in order.
pub open spec fn live_slots(slots: Seq<HealthSlot>, now: u64, ttl: u64) -> Seq<HealthSlot>
    decreases slots.len(),
{
    if slots.len() == 0 {
        slots
    } else if live(slots.last().entry, now, ttl) {
        live_slots(slots.drop_last(), now, ttl).push(slots.last())
    } else {
        live_slots(slots.drop_last(), now, ttl)
    }
}

proof fn lemma_entry_in_without(slots: Seq<HealthSlot>, k: HealthKeyModel, other: HealthKeyModel)
    ensures
        entry_in(without_key(slots, k), k) is None,
        other != k ==> entry_in(without_key(slots, k), other) == entry_in(slots, other),
    decreases slots.len(),
{
    if slots.len() > 0 {
        lemma_entry_in_without(slots.drop_last(), k, other);
        if slots.last().key@ != k {
            assert(without_key(slots, k).drop_last() =~= without_key(slots.drop_last(), k));
        }
    }
}

/// What a health check does for a printer: answer from the cache, or probe.
#[derive(Debug, Clone, Copy, PartialEq, Eq, Structural)]
pub enum HealthCheck {
    Cached(PrinterStatus),
    Probe,
}

/// Probe results per logical printer, each served for the time to live.
#[derive(Debug)]
pub struct HealthCache {
    pub slots: Vec<HealthSlot>,
    pub ttl: u64,
}

/// No two slots share a key.
pub open spec fn keys_unique(slots: Seq<HealthSlot>) -> bool {
    forall|i: int, j: int| 0 <= i < j < slots.len() ==> (#[trigger] slots[i]).key@ != (#[trigger] slots[j]).key@
}

impl HealthCache {
    /// Each logical printer has at most one entry.
    pub open spec fn wf(&self) -> bool {
        keys_unique(self.slots@)
    }

    pub open spec fn entry_for(&self, k: HealthKeyModel) -> Option<HealthCacheEntry> {
        entry_in(self.slots@, k)
    }

    /// What a check of the printer with key `k` does at `now`.
    pub open spec fn check_outcome(&self, k: HealthKeyModel, now: u64) -> HealthCheck {
        match self.entry_for(k) {
            Some(e) => if live(e, now, self.ttl) {
                HealthCheck::Cached(e.status)
            } else {
                HealthCheck::Probe
            },
            None => HealthCheck::Probe,
        }
    }

    /// An empty cache whose entries live `ttl` milliseconds.
    pub fn new(ttl: u64) -> (r: Self)
        ensures
            r.wf(),
            r.ttl == ttl,
            forall|k: HealthKeyModel| r.entry_for(k) is None,
    {
        HealthCache { slots: Vec::new(), ttl }
    }

    fn find_slot(&self, key: &HealthKey) -> (r: Option<usize>)
        ensures
            r matches Some(i) ==> i < self.slots@.len() && self.slots@[i as int].key@ == key@
                && forall|j: int| i < j < self.slots@.len() ==> (#[trigger] self.slots@[j]).key@ != key@,
            r is None ==> forall|j: int| 0 <= j < self.slots@.len() ==> (#[trigger] self.slots@[j]).key@ != key@,
    {
        let mut i: usize = self.slots.len();
        while i > 0
            invariant
                i <= self.slots@.len(),
                forall|j: int| i <= j < self.slots@.len() ==> (#[trigger] self.slots@[j]).key@ != key@,
            decreases i,
        {
            i -= 1;
            if same_health_key(&self.slots[i].key, key) {
                return Some(i);
            }
        }
        None
    }

    /// Answers a health check of the printer: its cached status while the
    /// entry is younger than the time to live, else a probe is needed.
    pub fn get_or_check(&self, printer: &Printer, now: u64) -> (r: HealthCheck)
        ensures
            r == self.check_outcome(printer_key(*printer), now),
    {
        let key = health_key(printer);
        proof {
            lemma_entry_in_last(self.slots@, key@);
        }
        match self.find_slot(&key) {
            Some(i) => {
                let e = self.slots[i].entry;
                if e.is_expired(now, self.ttl) {
                    HealthCheck::Probe
                } else {
                    HealthCheck::Cached(e.status)
                }
            },
            None => HealthCheck::Probe,
        }
    }

    /// Stores a fresh probe result for the printer, replacing its entry.
    pub fn record(&mut self, printer: &Printer, status: PrinterStatus, now: u64)
        requires
            old(self).wf(),
        ensures
            final(self).wf(),
            final(self).ttl == old(self).ttl,
            final(self).entry_for(printer_key(*printer)) == Some(HealthCacheEntry { status, timestamp: now }),
            forall|k: HealthKeyModel| k != printer_key(*printer) ==> final(self).entry_for(k) == old(self).entry_for(k),
    {
        let key = health_key(printer);
        let entry = HealthCacheEntry::new(status, now);
        proof {
            lemma_entry_in_last(self.slots@, key@);
        }
        match self.find_slot(&key) {
            Some(i) => {
                let ghost before = self.slots@;
                let mut slot = HealthSlot { key, entry };
                self.slots.set_and_swap(i, &mut slot);
                proof {
                    assert forall|a: int| 0 <= a < self.slots@.len() implies (#[trigger] self.slots@[a]).key@ == before[a].key@ by {}
                    assert forall|a: int, b: int| 0 <= a < b < self.slots@.len() implies (#[trigger] self.slots@[a]).key@
                        != (#[trigger] self.slots@[b]).key@ by {
                        assert(before[a].key@ != before[b].key@);
                    }
                    assert forall|k: HealthKeyModel| true implies #[trigger] self.entry_for(k) == (if k == key@ {
                        Some(entry)
                    } else {
                        entry_in(before, k)
                    }) by {
                        lemma_entry_in_update(before, i as int, self.slots@[i as int], k);
                    }
                }
            },
            None => {
                let ghost before = self.slots@;
                self.slots.push(HealthSlot { key, entry });
                assert(self.slots@.drop_last() =~= before);
                assert forall|a: int, b: int| 0 <= a < b < self.slots@.len() implies (#[trigger] self.slots@[a]).key@
                    != (#[trigger] self.slots@[b]).key@ by {
                    assert(self.slots@[a] == before[a]);
                    if b < before.len() {
                        assert(self.slots@[b] == before[b]);
                    }
                }
            },
        }
    }

    /// Forgets the printer's entry.
    pub fn invalidate(&mut self, printer: &Printer)
        requires
            old(self).wf(),
        ensures
            final(self).wf(),
            final(self).ttl == old(self).ttl,
            final(self).slots@ == without_key(old(self).slots@, printer_key(*printer)),
            final(self).entry_for(printer_key(*printer)) is None,
            forall|k: HealthKeyModel| k != printer_key(*printer) ==> final(self).entry_for(k) == old(self).entry_for(k),
    {
        let key = health_key(printer);
        let ghost all = self.slots@;
        let ghost k0 = key@;
        let mut i: usize = 0;
        let ghost mut j: int = 0;
        assert(all.subrange(0, 0) =~= Seq::<HealthSlot>::empty());
        assert(all.subrange(0, all.len() as int) =~= all);
        while i < self.slots.len()
            invariant
                self.ttl == old(self).ttl,
                all == old(self).slots@,
                k0 == key@,
                keys_unique(self.slots@),
                0 <= j <= all.len(),
                i <= self.slots@.len(),
                self.slots@.len() - i == all.len() - j,
                self.slots@.subrange(0, i as int) == without_key(all.subrange(0, j), k0),
                self.slots@.subrange(i as int, self.slots@.len() as int) == all.subrange(j, all.len() as int),
            decreases self.slots@.len() - i,
        {
            let ghost cur = self.slots@;
            assert(cur[i as int] == all[j]) by {
                assert(cur.subrange(i as int, cur.len() as int)[0] == all.subrange(j, all.len() as int)[0]);
            }
            assert(all.subrange(0, j + 1).drop_last() =~= all.subrange(0, j));
            assert(all.subrange(0, j + 1).last() == all[j]);
            assert forall|t: int| 0 <= t < cur.len() - i - 1 implies #[trigger] cur[i + 1 + t] == all[j + 1 + t] by {
                assert(cur.subrange(i as int, cur.len() as int)[t + 1] == all.subrange(j, all.len() as int)[t + 1]);
            }
            if !same_health_key(&self.slots[i].key, &key) {
                i += 1;
                assert(self.slots@.subrange(0, i as int) =~= cur.subrange(0, i - 1).push(cur[i - 1]));
                assert forall|t: int| 0 <= t < cur.len() - i implies #[trigger] self.slots@.subrange(i as int, self.slots@.len() as int)[t]
                    == all.subrange(j + 1, all.len() as int)[t] by {
                    assert(cur[i - 1 + 1 + t] == all[j + 1 + t]);
                }
                assert(self.slots@.subrange(i as int, self.slots@.len() as int) =~= all.subrange(j + 1, all.len() as int));
            } else {
                let _gone = self.slots.remove(i);
                assert(self.slots@.subrange(0, i as int) =~= cur.subrange(0, i as int));
                assert forall|a: int, b: int| 0 <= a < b < self.slots@.len() implies (#[trigger] self.slots@[a]).key@
                    != (#[trigger] self.slots@[b]).key@ by {
                    let a2 = if a < i { a } else { a + 1 };
                    let b2 = if b < i { b } else { b + 1 };
                    assert(self.slots@[a] == cur[a2]);
                    assert(self.slots@[b] == cur[b2]);
                    assert(cur[a2].key@ != cur[b2].key@);
                }
                assert forall|t: int| 0 <= t < cur.len() - i - 1 implies #[trigger] self.slots@.subrange(i as int, self.slots@.len() as int)[t]
                    == all.subrange(j + 1, all.len() as int)[t] by {
                    assert(cur[i + 1 + t] == all[j + 1 + t]);
                    assert(self.slots@[i + t] == cur[i + 1 + t]);
                }
                assert(self.slots@.subrange(i as int, self.slots@.len() as int) =~= all.subrange(j + 1, all.len() as int));
            }
            proof {
                j = j + 1;
            }
        }
        assert(self.slots@ =~= self.slots@.subrange(0, i as int));
        assert(all.subrange(0, j) =~= all);
        proof {
            assert forall|k: HealthKeyModel| k != printer_key(*printer) implies self.entry_for(k) == old(self).entry_for(k) by {
                lemma_entry_in_without(all, k0, k);
            }
            lemma_entry_in_without(all, k0, k0);
        }
    }

    /// Drops every entry that has reached its time to live.
    pub fn cleanup_expired(&mut self, now: u64)
        requires
            old(self).wf(),
        ensures
            final(self).wf(),
            final(self).ttl == old(self).ttl,
            final(self).slots@ == live_slots(old(self).slots@, now, old(self).ttl),
    {
        let ghost all = self.slots@;
        let ghost ttl = self.ttl;
        let mut i: usize = 0;
        let ghost mut j: int = 0;
        assert(all.subrange(0, 0) =~= Seq::<HealthSlot>::empty());
        assert(all.subrange(0, all.len() as int) =~= all);
        while i < self.slots.len()
            invariant
                self.ttl == ttl,
                ttl == old(self).ttl,
                all == old(self).slots@,
                keys_unique(self.slots@),
                0 <= j <= all.len(),
                i <= self.slots@.len(),
                self.slots@.len() - i == all.len() - j,
                self.slots@.subrange(0, i as int) == live_slots(all.subrange(0, j), now, ttl),
                self.slots@.subrange(i as int, self.slots@.len() as int) == all.subrange(j, all.len() as int),
            decreases self.slots@.len() - i,
        {
            let ghost cur = self.slots@;
            assert(cur[i as int] == all[j]) by {
                assert(cur.subrange(i as int, cur.len() as int)[0] == all.subrange(j, all.len() as int)[0]);
            }
            assert(all.subrange(0, j + 1).drop_last() =~= all.subrange(0, j));
            assert(all.subrange(0, j + 1).last() == all[j]);
            assert forall|t: int| 0 <= t < cur.len() - i - 1 implies #[trigger] cur[i + 1 + t] == all[j + 1 + t] by {
                assert(cur.subrange(i as int, cur.len() as int)[t + 1] == all.subrange(j, all.len() as int)[t + 1]);
            }
            if !self.slots[i].entry.is_expired(now, self.ttl) {
                i += 1;
                assert(self.slots@.subrange(0, i as int) =~= cur.subrange(0, i - 1).push(cur[i - 1]));
                assert forall|t: int| 0 <= t < cur.len() - i implies #[trigger] self.slots@.subrange(i as int, self.slots@.len() as int)[t]
                    == all.subrange(j + 1, all.len() as int)[t] by {
                    assert(cur[i - 1 + 1 + t] == all[j + 1 + t]);
                }
                assert(self.slots@.subrange(i as int, self.slots@.len() as int) =~= all.subrange(j + 1, all.len() as int));
            } else {
                let _gone = self.slots.remove(i);
                assert(self.slots@.subrange(0, i as int) =~= cur.subrange(0, i as int));
                assert forall|a: int, b: int| 0 <= a < b < self.slots@.len() implies (#[trigger] self.slots@[a]).key@
                    != (#[trigger] self.slots@[b]).key@ by {
                    let a2 = if a < i { a } else { a + 1 };
                    let b2 = if b < i { b } else { b + 1 };
                    assert(self.slots@[a] == cur[a2]);
                    assert(self.slots@[b] == cur[b2]);
                    assert(cur[a2].key@ != cur[b2].key@);
                }
                assert forall|t: int| 0 <= t < cur.len() - i - 1 implies #[trigger] self.slots@.subrange(i as int, self.slots@.len() as int)[t]
                    == all.subrange(j + 1, all.len() as int)[t] by {
                    assert(cur[i + 1 + t] == all[j + 1 + t]);
                    assert(self.slots@[i + t] == cur[i + 1 + t]);
                }
                assert(self.slots@.subrange(i as int, self.slots@.len() as int) =~= all.subrange(j + 1, all.len() as int));
            }
            proof {
                j = j + 1;
            }
        }
        assert(self.slots@ =~= self.slots@.subrange(0, i as int));
        assert(all.subrange(0, j) =~= all);
    }

    /// The number of cached entries.
    pub fn len(&self) -> (r: usize)
        ensures
            r == self.slots@.len(),
    {
        self.slots.len()
    }
}

proof fn lemma_entry_in_last(slots: Seq<HealthSlot>, k: HealthKeyModel)
    ensures
        (forall|j: int| 0 <= j < slots.len() ==> (#[trigger] slots[j]).key@ != k) ==> entry_in(slots, k) is None,
        forall|i: int| 0 <= i < slots.len() && slots[i].key@ == k
            && (forall|j: int| i < j < slots.len() ==> (#[trigger] slots[j]).key@ != k) ==> entry_in(slots, k) == Some(#[trigger] slots[i].entry),
    decreases slots.len(),
{
    if slots.len() > 0 {
        let d = slots.drop_last();
        lemma_entry_in_last(d, k);
        assert forall|i: int| 0 <= i < slots.len() - 1 implies slots[i] == d[i] by {}
    }
}

proof fn lemma_entry_in_update(slots: Seq<HealthSlot>, i: int, s: HealthSlot, k: HealthKeyModel)
    requires
        0 <= i < slots.len(),
        s.key@ == slots[i].key@,
        forall|j: int| i < j < slots.len() ==> (#[trigger] slots[j]).key@ != s.key@,
    ensures
        entry_in(slots.update(i, s), k) == (if k == s.key@ {
            Some(s.entry)
        } else {
            entry_in(slots, k)
        }),
    decreases slots.len(),
{
    let u = slots.update(i, s);
    if i == slots.len() - 1 {
        assert(u.drop_last() =~= slots.drop_last());
    } else {
        assert(u.drop_last() =~= slots.drop_last().update(i, s));
        lemma_entry_in_update(slots.drop_last(), i, s, k);
    }
}

/// A recorded probe result is served for exactly the time to live: a check
/// younger than that answers from the cache without a probe, and a check at
/// or past it asks for exactly one fresh probe.
pub proof fn lemma_recorded_result_served(cache: HealthCache, k: HealthKeyModel, status: PrinterStatus, taken: u64, now: u64)
    requires
        cache.entry_for(k) == Some(HealthCacheEntry { status, timestamp: taken }),
    ensures
        elapsed(now, taken) < cache.ttl ==> cache.check_outcome(k, now) == HealthCheck::Cached(status),
        elapsed(now, taken) >= cache.ttl ==> cache.check_outcome(k, now) == HealthCheck::Probe,
{
}

/// The counts of a bulk health check.
#[derive(Debug, Clone, Copy, PartialEq, Eq, Structural)]
pub struct HealthSummary {
    pub total: usize,
    pub online: usize,
    pub offline: usize,
}

/// How many of the statuses are `st`.
pub open spec fn count_status(s: Seq<PrinterStatus>, st: PrinterStatus) -> nat
    decreases s.len(),
{
    if s.len() == 0 {
        0
    } else {
        count_status(s.drop_last(), st) + if s.last() == st { 1nat } else { 0nat }
    }
}

proof fn lemma_count_bounded(s: Seq<PrinterStatus>, st: PrinterStatus)
    ensures
        count_status(s, st) <= s.len(),
    decreases s.len(),
{
    if s.len() > 0 {
        lemma_count_bounded(s.drop_last(), st);
    }
}

/// Counts the statuses of a bulk check, in whatever order they came.
pub fn summarize(statuses: &[PrinterStatus]) -> (r: HealthSummary)
    ensures
        r.total == statuses@.len(),
        r.online == count_status(statuses@, PrinterStatus::Online),
        r.offline == count_status(statuses@, PrinterStatus::Offline),
{
    let mut online: usize = 0;
    let mut offline: usize = 0;
    let mut i: usize = 0;
    while i < statuses.len()
        invariant
            i <= statuses@.len(),
            online == count_status(statuses@.subrange(0, i as int), PrinterStatus::Online),
            offline == count_status(statuses@.subrange(0, i as int), PrinterStatus::Offline),
        decreases statuses.len() - i,
    {
        assert(statuses@.subrange(0, i + 1).drop_last() =~= statuses@.subrange(0, i as int));
        proof {
            lemma_count_bounded(statuses@.subrange(0, i as int), PrinterStatus::Online);
            lemma_count_bounded(statuses@.subrange(0, i as int), PrinterStatus::Offline);
        }
        match statuses[i] {
            PrinterStatus::Online => online += 1,
            PrinterStatus::Offline => offline += 1,
            PrinterStatus::Unknown => {},
        }
        i += 1;
    }
    assert(statuses@.subrange(0, i as int) =~= statuses@);
    HealthSummary { total: statuses.len(), online, offline }
}

/// The overall state of a bulk check: healthy when no printer is offline,
/// else degraded.
pub fn overall_status(summary: &HealthSummary) -> (r: &'static str)
    ensures
        summary.offline == 0 ==> r@ == "healthy"@,
        summary.offline != 0 ==> r@ == "degraded"@,
{
    if summary.offline == 0 {
        "healthy"
    } else {
        "degraded"
    }
}

/// The counts of a bulk check are the sums of the counts of its parts: each
/// printer's result counts once, whatever order the checks complete in.
pub proof fn lemma_counts_add_up(a: Seq<PrinterStatus>, b: Seq<PrinterStatus>, st: PrinterStatus)
    ensures
        count_status(a + b, st) == count_status(a, st) + count_status(b, st),
    decreases b.len(),
{
    if b.len() > 0 {
        lemma_counts_add_up(a, b.drop_last(), st);
        assert((a + b).drop_last() =~= a + b.drop_last());
    } else {
        assert(a + b =~= a);
    }
}

/// A bulk check counts each printer as its single check does.
pub proof fn lemma_counts_per_printer(s: Seq<PrinterStatus>, st: PrinterStatus)
    ensures
        count_status(s, st) == s.filter(|x: PrinterStatus| x == st).len(),
    decreases s.len(),
{
    reveal(Seq::filter);
    if s.len() > 0 {
        lemma_counts_per_printer(s.drop_last(), st);
    }
}

proof fn lemma_count_is_multiplicity(s: Seq<PrinterStatus>, st: PrinterStatus)
    ensures
        count_status(s, st) == s.to_multiset().count(st),
    decreases s.len(),
{
    broadcast use vstd::seq_lib::to_multiset_build, vstd::multiset::group_multiset_axioms;

    if s.len() == 0 {
        s.to_multiset_ensures();
        assert(!s.contains(st));
    } else {
        lemma_count_is_multiplicity(s.drop_last(), st);
        assert(s =~= s.drop_last().push(s.last()));
    }
}

/// The counts of a bulk check do not depend on the order in which the
/// per-printer checks complete: any two orders of the same results give the
/// same totals.
pub proof fn lemma_counts_order_independent(a: Seq<PrinterStatus>, b: Seq<PrinterStatus>)
    requires
        a.to_multiset() == b.to_multiset(),
    ensures
        a.len() == b.len(),
        forall|st: PrinterStatus| #[trigger] count_status(a, st) == count_status(b, st),
{
    broadcast use vstd::seq_lib::to_multiset_len;

    assert(a.len() == a.to_multiset().len());
    assert(b.len() == b.to_multiset().len());
    assert forall|st: PrinterStatus| #[trigger] count_status(a, st) == count_status(b, st) by {
        lemma_count_is_multiplicity(a, st);
        lemma_count_is_multiplicity(b, st);
    }
}

} // verus!
