//! Lock contention accounting: per-lock wait and hold times.
//!
//! A profiled lock registers itself once, then reports each acquisition in
//! two steps (waiting started, lock acquired) and each release. Times are
//! clock readings in nanoseconds taken by the caller around those events.

use vstd::prelude::*;
use vstd::string::StringExecFns;

verus! {

/// Identifier of a registered lock.
#[derive(Clone, Copy, PartialEq, Eq, Structural, Debug, Hash)]
pub struct LockId(pub u64);

impl LockId {
    /// Takes the next identifier from `counter` (which starts at 1), as an
    /// atomic fetch-and-add does: the counter moves on by one, wrapping.
    pub fn new(counter: &mut u64) -> (id: Self)
        ensures
            id.0 == *old(counter),
            *final(counter) == (if *old(counter) == u64::MAX {
                0
            } else {
                *old(counter) + 1
            }),
    {
        let id = LockId(*counter);
        *counter = counter.wrapping_add(1);
        id
    }
}

/// Accumulated metrics of one lock.
pub struct LockState {
    pub name: String,
    pub wait_ns: u64,
    pub hold_ns: u64,
    pub acquisitions: u64,
    pub contended_acquisitions: u64,
}

/// Metrics reported for one lock.
pub struct LockRecord {
    pub name: String,
    pub contention_count: u64,
    pub total_wait_ns: u64,
    pub max_wait_ns: u64,
    pub wait_ns: u64,
    pub hold_ns: u64,
    pub acquisitions: u64,
    pub contended_acquisitions: u64,
}

/// Waiting for a lock has started.
pub struct WaitToken {
    pub id: LockId,
    pub start_ns: u64,
}

/// A lock is held.
pub struct HoldToken {
    pub id: LockId,
    pub start_ns: u64,
    pub contended: bool,
}

/// All registered locks and the identifier counter.
pub struct LockTable {
    pub next_id: u64,
    pub locks: Vec<(LockId, LockState)>,
}

/// The identifiers of `locks`, in order.
pub open spec fn ids_of(locks: Seq<(LockId, LockState)>) -> Seq<u64> {
    locks.map_values(|p: (LockId, LockState)| p.0.0)
}

impl LockTable {
    /// Each lock is registered once, under an identifier handed out before
    /// the counter's current value; a lock never counts more contended
    /// acquisitions than acquisitions, and has waited only if contended.
    pub open spec fn wf(&self) -> bool {
        &&& ids_of(self.locks@).no_duplicates()
        &&& self.ids_issued()
        &&& forall|i: int|
            0 <= i < self.locks@.len() ==> #[trigger] self.locks@[i].1.contended_acquisitions
                <= self.locks@[i].1.acquisitions
        &&& forall|i: int|
            0 <= i < self.locks@.len() ==> (#[trigger] self.locks@[i].1.contended_acquisitions
                == 0 ==> self.locks@[i].1.wait_ns == 0)
    }

    /// Every registered identifier was handed out before the counter's
    /// current value: it lies below `next_id`, so the next identifier is
    /// fresh.
    pub open spec fn ids_issued(&self) -> bool {
        forall|i: int| 0 <= i < self.locks@.len() ==> (#[trigger] self.locks@[i]).0.0 < self.next_id
    }

    /// No locks; identifiers start at 1.
    pub fn new() -> (t: Self)
        ensures
            t.wf(),
            t.next_id == 1,
            t.locks@.len() == 0,
    {
        let t = LockTable { next_id: 1, locks: Vec::new() };
        assert(ids_of(t.locks@) =~= Seq::<u64>::empty());
        t
    }
}

/// Position of lock `id` in `locks`, if registered.
fn find_lock(locks: &Vec<(LockId, LockState)>, id: LockId) -> (r: Option<usize>)
    requires
        ids_of(locks@).no_duplicates(),
    ensures
        r is None ==> !ids_of(locks@).contains(id.0),
        r matches Some(i) ==> i < locks@.len() && locks@[i as int].0 == id && ids_of(locks@).contains(id.0)
            && ids_of(locks@).index_of(id.0) == i as int,
{
    let ghost ids = ids_of(locks@);
    let n = locks.len();
    let mut i: usize = 0;
    while i < n
        invariant
            n == locks@.len(),
            i <= n,
            ids == ids_of(locks@),
            ids.no_duplicates(),
            forall|k: int| 0 <= k < i ==> ids[k] != id.0,
        decreases n - i,
    {
        assert(ids[i as int] == locks@[i as int].0.0);
        if locks[i].0.0 == id.0 {
            assert(ids.contains(id.0));
            assert(ids.index_of(id.0) == i as int) by {
                let c = ids.index_of(id.0);
                assert(ids[c] == id.0);
            }
            return Some(i);
        }
        i = i + 1;
    }
    None
}


/// A freshly registered lock named `name`: all counters zero.
pub open spec fn is_fresh(s: LockState, name: Seq<char>) -> bool {
    &&& s.name@ == name
    &&& s.wait_ns == 0
    &&& s.hold_ns == 0
    &&& s.acquisitions == 0
    &&& s.contended_acquisitions == 0
}

/// Where `register_lock` puts lock `id`: its old position if that
/// identifier is registered already (the entry is replaced), else the end.
pub open spec fn slot_of(locks: Seq<(LockId, LockState)>, id: u64) -> int {
    if ids_of(locks).contains(id) {
        ids_of(locks).index_of(id)
    } else {
        locks.len() as int
    }
}

/// Registers a lock named `name` under the next identifier.
pub fn register_lock(table: &mut LockTable, name: &str) -> (id: LockId)
    requires
        old(table).wf(),
        old(table).next_id < u64::MAX,
    ensures
        final(table).wf(),
        id.0 == old(table).next_id,
        final(table).next_id == (if old(table).next_id == u64::MAX {
            0
        } else {
            old(table).next_id + 1
        }),
        ({
            let p = slot_of(old(table).locks@, id.0);
            &&& final(table).locks@.len() == (if p == old(table).locks@.len() {
                old(table).locks@.len() + 1
            } else {
                old(table).locks@.len()
            })
            &&& final(table).locks@[p].0 == id
            &&& is_fresh(final(table).locks@[p].1, name@)
            &&& forall|j: int|
                0 <= j < old(table).locks@.len() && j != p ==> #[trigger] final(table).locks@[j]
                    == old(table).locks@[j]
        }),
        !ids_of(old(table).locks@).contains(id.0),
        final(table).locks@ == old(table).locks@.push(final(table).locks@.last()),
{
    let id = LockId::new(&mut table.next_id);
    let state = LockState {
        name: String::from_str(name),
        wait_ns: 0,
        hold_ns: 0,
        acquisitions: 0,
        contended_acquisitions: 0,
    };
    let ghost before = table.locks@;
    match find_lock(&table.locks, id) {
        Some(i) => {
            table.locks.set(i, (id, state));
            assert(ids_of(table.locks@) =~= ids_of(before));
        },
        None => {
            table.locks.push((id, state));
            assert(ids_of(table.locks@) =~= ids_of(before).push(id.0));
            assert(table.locks@ =~= before.push(table.locks@.last()));
        },
    }
    proof {
        if old(table).ids_issued() {
            assert forall|k: int| 0 <= k < before.len() implies ids_of(before)[k] != id.0 by {
                assert(before[k].0.0 < id.0);
            }
        }
    }
    id
}

/// Starts waiting for lock `id` at clock reading `now_ns`.
pub fn record_lock_wait_start(id: LockId, now_ns: u64) -> (t: WaitToken)
    ensures
        t.id == id,
        t.start_ns == now_ns,
{
    WaitToken { id, start_ns: now_ns }
}

/// Nanoseconds from `start` to `now` (zero if the clock reads earlier).
pub open spec fn elapsed(start: u64, now: u64) -> u64 {
    if now >= start {
        (now - start) as u64
    } else {
        0
    }
}

/// A lock's metrics after one more acquisition that waited `e` nanoseconds:
/// a wait longer than zero counts as contended.
pub open spec fn after_acquire(s: LockState, e: u64) -> LockState {
    LockState {
        name: s.name,
        wait_ns: if e > 0 {
            (s.wait_ns + e) as u64
        } else {
            s.wait_ns
        },
        hold_ns: s.hold_ns,
        acquisitions: (s.acquisitions + 1) as u64,
        contended_acquisitions: if e > 0 {
            (s.contended_acquisitions + 1) as u64
        } else {
            s.contended_acquisitions
        },
    }
}

/// A lock's metrics after it was held for `e` more nanoseconds.
pub open spec fn after_release(s: LockState, e: u64) -> LockState {
    LockState {
        name: s.name,
        wait_ns: s.wait_ns,
        hold_ns: (s.hold_ns + e) as u64,
        acquisitions: s.acquisitions,
        contended_acquisitions: s.contended_acquisitions,
    }
}

/// The counters of lock `id` can take one more acquisition that waited `e`.
pub open spec fn acquire_fits(locks: Seq<(LockId, LockState)>, id: LockId, e: u64) -> bool {
    forall|i: int|
        0 <= i < locks.len() && #[trigger] locks[i].0 == id ==> locks[i].1.acquisitions + 1
            <= u64::MAX && (e > 0 ==> locks[i].1.wait_ns + e <= u64::MAX)
}

/// The hold time of lock `id` can take `e` more nanoseconds.
pub open spec fn release_fits(locks: Seq<(LockId, LockState)>, id: LockId, e: u64) -> bool {
    forall|i: int|
        0 <= i < locks.len() && #[trigger] locks[i].0 == id ==> locks[i].1.hold_ns + e
            <= u64::MAX
}

/// Whether `record_lock_acquired(table, token, now_ns)` keeps its counters
/// within 64 bits.
pub fn can_record_acquired(table: &LockTable, token: &WaitToken, now_ns: u64) -> (r: bool)
    requires
        table.wf(),
    ensures
        r == acquire_fits(table.locks@, token.id, elapsed(token.start_ns, now_ns)),
{
    let e = now_ns.saturating_sub(token.start_ns);
    match find_lock(&table.locks, token.id) {
        Some(i) => {
            let s = &table.locks[i].1;
            let ok = s.acquisitions < u64::MAX && (e == 0 || s.wait_ns <= u64::MAX - e);
            proof {
                assert forall|j: int|
                    0 <= j < table.locks@.len() && #[trigger] table.locks@[j].0 == token.id
                    implies j == i as int by {
                    assert(ids_of(table.locks@)[j] == ids_of(table.locks@)[i as int]);
                }
            }
            ok
        },
        None => {
            proof {
                assert forall|j: int|
                    0 <= j < table.locks@.len() && #[trigger] table.locks@[j].0 == token.id
                    implies false by {
                    assert(ids_of(table.locks@)[j] == token.id.0);
                }
            }
            true
        },
    }
}

/// Whether `record_lock_released(table, token, now_ns)` keeps its counters
/// within 64 bits.
pub fn can_record_released(table: &LockTable, token: &HoldToken, now_ns: u64) -> (r: bool)
    requires
        table.wf(),
    ensures
        r == release_fits(table.locks@, token.id, elapsed(token.start_ns, now_ns)),
{
    let e = now_ns.saturating_sub(token.start_ns);
    match find_lock(&table.locks, token.id) {
        Some(i) => {
            let ok = table.locks[i].1.hold_ns <= u64::MAX - e;
            proof {
                assert forall|j: int|
                    0 <= j < table.locks@.len() && #[trigger] table.locks@[j].0 == token.id
                    implies j == i as int by {
                    assert(ids_of(table.locks@)[j] == ids_of(table.locks@)[i as int]);
                }
            }
            ok
        },
        None => {
            proof {
                assert forall|j: int|
                    0 <= j < table.locks@.len() && #[trigger] table.locks@[j].0 == token.id
                    implies false by {
                    assert(ids_of(table.locks@)[j] == token.id.0);
                }
            }
            true
        },
    }
}

/// The lock of `token` was acquired at clock reading `now_ns`: counts the
/// acquisition and its wait, and starts holding.
pub fn record_lock_acquired(table: &mut LockTable, token: WaitToken, now_ns: u64) -> (h: HoldToken)
    requires
        old(table).wf(),
        acquire_fits(old(table).locks@, token.id, elapsed(token.start_ns, now_ns)),
    ensures
        final(table).wf(),
        final(table).next_id == old(table).next_id,
        h.id == token.id,
        h.start_ns == now_ns,
        h.contended == (elapsed(token.start_ns, now_ns) > 0),
        ids_of(old(table).locks@).contains(token.id.0) ==> final(table).locks@ == old(
            table,
        ).locks@.update(
            ids_of(old(table).locks@).index_of(token.id.0),
            (
                token.id,
                after_acquire(
                    old(table).locks@[ids_of(old(table).locks@).index_of(token.id.0)].1,
                    elapsed(token.start_ns, now_ns),
                ),
            ),
        ),
        !ids_of(old(table).locks@).contains(token.id.0) ==> final(table).locks@ == old(
            table,
        ).locks@,
{
    let e = now_ns.saturating_sub(token.start_ns);
    let ghost before = table.locks@;
    match find_lock(&table.locks, token.id) {
        Some(i) => {
            let s = &table.locks[i].1;
            let contended = e > 0;
            let new_state = LockState {
                name: s.name.clone(),
                wait_ns: if contended {
                    s.wait_ns + e
                } else {
                    s.wait_ns
                },
                hold_ns: s.hold_ns,
                acquisitions: s.acquisitions + 1,
                contended_acquisitions: if contended {
                    s.contended_acquisitions + 1
                } else {
                    s.contended_acquisitions
                },
            };
            table.locks.set(i, (token.id, new_state));
            assert(ids_of(table.locks@) =~= ids_of(before));
            assert(table.locks@ =~= before.update(
                i as int,
                (token.id, after_acquire(before[i as int].1, e)),
            ));
        },
        None => {},
    }
    HoldToken { id: token.id, start_ns: now_ns, contended: e > 0 }
}

/// The lock of `token` was released at clock reading `now_ns`: adds the
/// time it was held.
pub fn record_lock_released(table: &mut LockTable, token: HoldToken, now_ns: u64)
    requires
        old(table).wf(),
        release_fits(old(table).locks@, token.id, elapsed(token.start_ns, now_ns)),
    ensures
        final(table).wf(),
        final(table).next_id == old(table).next_id,
        ids_of(old(table).locks@).contains(token.id.0) ==> final(table).locks@ == old(
            table,
        ).locks@.update(
            ids_of(old(table).locks@).index_of(token.id.0),
            (
                token.id,
                after_release(
                    old(table).locks@[ids_of(old(table).locks@).index_of(token.id.0)].1,
                    elapsed(token.start_ns, now_ns),
                ),
            ),
        ),
        !ids_of(old(table).locks@).contains(token.id.0) ==> final(table).locks@ == old(
            table,
        ).locks@,
{
    let e = now_ns.saturating_sub(token.start_ns);
    let ghost before = table.locks@;
    match find_lock(&table.locks, token.id) {
        Some(i) => {
            let s = &table.locks[i].1;
            let new_state = LockState {
                name: s.name.clone(),
                wait_ns: s.wait_ns,
                hold_ns: s.hold_ns + e,
                acquisitions: s.acquisitions,
                contended_acquisitions: s.contended_acquisitions,
            };
            table.locks.set(i, (token.id, new_state));
            assert(ids_of(table.locks@) =~= ids_of(before));
            assert(table.locks@ =~= before.update(
                i as int,
                (token.id, after_release(before[i as int].1, e)),
            ));
        },
        None => {},
    }
}

/// The report entry for lock state `s`.
pub open spec fn reports(r: LockRecord, s: LockState) -> bool {
    &&& r.name == s.name
    &&& r.contention_count == s.contended_acquisitions
    &&& r.total_wait_ns == s.wait_ns
    &&& r.max_wait_ns == 0
    &&& r.wait_ns == s.wait_ns
    &&& r.hold_ns == s.hold_ns
    &&& r.acquisitions == s.acquisitions
    &&& r.contended_acquisitions == s.contended_acquisitions
}

/// One report entry per registered lock, in table order.
pub fn snapshot(table: &LockTable) -> (r: Vec<LockRecord>)
    ensures
        r@.len() == table.locks@.len(),
        forall|i: int| 0 <= i < r@.len() ==> #[trigger] reports(r@[i], table.locks@[i].1),
{
    let mut r: Vec<LockRecord> = Vec::new();
    let n = table.locks.len();
    let mut i: usize = 0;
    while i < n
        invariant
            n == table.locks@.len(),
            i <= n,
            r@.len() == i,
            forall|k: int| 0 <= k < i ==> #[trigger] reports(r@[k], table.locks@[k].1),
        decreases n - i,
    {
        let s = &table.locks[i].1;
        r.push(
            LockRecord {
                name: s.name.clone(),
                contention_count: s.contended_acquisitions,
                total_wait_ns: s.wait_ns,
                max_wait_ns: 0,
                wait_ns: s.wait_ns,
                hold_ns: s.hold_ns,
                acquisitions: s.acquisitions,
                contended_acquisitions: s.contended_acquisitions,
            },
        );
        i = i + 1;
    }
    r
}

} // verus!
