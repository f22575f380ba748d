//! When each remote vault is due for its next pass.
//!
//! Times are milliseconds of a clock that never runs backwards.

use vstd::prelude::*;

verus! {

/// How often the schedule is looked at.
pub const WEBDAV_TICK_INTERVAL_MS: u64 = 15_000;

/// The wait behind a first failure.
pub const WEBDAV_BACKOFF_BASE_MS: u64 = 30_000;

/// The longest wait behind failures.
pub const WEBDAV_BACKOFF_MAX_MS: u64 = 60_000;

/// When a vault is due, and how long it was made to wait.
#[derive(Debug, Clone, Copy, PartialEq, Eq, Structural)]
pub struct ScheduleEntry {
    pub next_attempt: u128,
    /// The wait behind the last failure; `None` behind a success.
    pub backoff: Option<u64>,
    pub poll_interval: u64,
}

struct Slot {
    vault: u64,
    entry: ScheduleEntry,
}

/// The schedule of every active vault.
pub struct WebDavScheduler {
    entries: Vec<Slot>,
}

/// The entry of a vault from the `i`th slot on.
spec fn slot_from(slots: Seq<Slot>, vault: u64, i: int) -> Option<ScheduleEntry>
    decreases slots.len() - i,
{
    if i < 0 || i >= slots.len() {
        None
    } else if slots[i].vault == vault {
        Some(slots[i].entry)
    } else {
        slot_from(slots, vault, i + 1)
    }
}

/// The slots are in order of the vaults, each vault once.
spec fn slots_sorted(slots: Seq<Slot>) -> bool {
    forall|i: int, j: int|
        0 <= i < j < slots.len() ==> (#[trigger] slots[i]).vault < (#[trigger] slots[j]).vault
}

proof fn lemma_slot(slots: Seq<Slot>, k: int, i: int)
    requires
        slots_sorted(slots),
        0 <= i <= k < slots.len(),
    ensures
        slot_from(slots, slots[k].vault, i) == Some(slots[k].entry),
    decreases k - i,
{
    if i < k {
        lemma_slot(slots, k, i + 1);
    }
}

proof fn lemma_no_slot(slots: Seq<Slot>, vault: u64, i: int)
    requires
        0 <= i <= slots.len(),
        forall|k: int| i <= k < slots.len() ==> (#[trigger] slots[k]).vault != vault,
    ensures
        slot_from(slots, vault, i) is None,
    decreases slots.len() - i,
{
    if i < slots.len() {
        lemma_no_slot(slots, vault, i + 1);
    }
}

proof fn lemma_slot_found(slots: Seq<Slot>, vault: u64, i: int)
    requires
        0 <= i <= slots.len(),
        slot_from(slots, vault, i) is Some,
    ensures
        exists|k: int|
            i <= k < slots.len() && (#[trigger] slots[k]).vault == vault && slot_from(
                slots,
                vault,
                i,
            ) == Some(slots[k].entry),
    decreases slots.len() - i,
{
    if i < slots.len() && slots[i].vault != vault {
        lemma_slot_found(slots, vault, i + 1);
        let k = choose|k: int|
            i + 1 <= k < slots.len() && (#[trigger] slots[k]).vault == vault && slot_from(
                slots,
                vault,
                i + 1,
            ) == Some(slots[k].entry);
        assert(slots[k].vault == vault);
    } else {
        assert(slots[i].vault == vault);
    }
}

/// The vault of one of the first `n` slots is due and not busy.
spec fn picked(slots: Seq<Slot>, n: int, now: u64, busy: Seq<u64>, vault: u64) -> bool {
    exists|k: int|
        0 <= k < n && (#[trigger] slots[k]).vault == vault && slots[k].entry.next_attempt <= now
            && !busy.contains(vault)
}

/// The wait behind one more failure: twice the last one, within bounds.
pub open spec fn next_backoff(previous: Option<u64>) -> u64 {
    match previous {
        None => WEBDAV_BACKOFF_BASE_MS,
        Some(b) => if 2 * b < WEBDAV_BACKOFF_MAX_MS {
            (2 * b) as u64
        } else {
            WEBDAV_BACKOFF_MAX_MS
        },
    }
}

/// A vault's entry behind a pass.
pub open spec fn rearmed(entry: ScheduleEntry, succeeded: bool, now: u64) -> ScheduleEntry {
    if succeeded {
        ScheduleEntry {
            next_attempt: (now + entry.poll_interval) as u128,
            backoff: None,
            poll_interval: entry.poll_interval,
        }
    } else {
        ScheduleEntry {
            next_attempt: (now + next_backoff(entry.backoff)) as u128,
            backoff: Some(next_backoff(entry.backoff)),
            poll_interval: entry.poll_interval,
        }
    }
}

impl WebDavScheduler {
    pub closed spec fn wf(&self) -> bool {
        slots_sorted(self.entries@)
    }

    /// The active vaults with their entries.
    pub closed spec fn view(&self) -> Map<u64, ScheduleEntry> {
        Map::new(
            |vault: u64| slot_from(self.entries@, vault, 0) is Some,
            |vault: u64| slot_from(self.entries@, vault, 0)->0,
        )
    }

    pub fn new() -> (r: Self)
        ensures
            r.wf(),
            r@ == Map::<u64, ScheduleEntry>::empty(),
    {
        let r = WebDavScheduler { entries: Vec::new() };
        assert(r@ =~= Map::<u64, ScheduleEntry>::empty());
        r
    }

    /// Registers a vault, due at once. A vault that is already active keeps its
    /// schedule and takes the new interval.
    pub fn activate(&mut self, vault: u64, poll_interval: u64, now: u64)
        requires
            old(self).wf(),
        ensures
            final(self).wf(),
            final(self)@ == old(self)@.insert(
                vault,
                if old(self)@.contains_key(vault) {
                    ScheduleEntry { poll_interval, ..old(self)@[vault] }
                } else {
                    ScheduleEntry { next_attempt: now as u128, backoff: None, poll_interval }
                },
            ),
    {
        let ghost was = self.entries@;
        let ghost before = self@;
        let mut i: usize = 0;
        while i < self.entries.len() && self.entries[i].vault < vault
            invariant
                0 <= i <= self.entries@.len(),
                self.entries@ == was,
                forall|k: int| 0 <= k < i ==> (#[trigger] was[k]).vault < vault,
            decreases self.entries@.len() - i,
        {
            i = i + 1;
        }
        if i < self.entries.len() && self.entries[i].vault == vault {
            let entry = self.entries[i].entry;
            let new = ScheduleEntry {
                next_attempt: entry.next_attempt,
                backoff: entry.backoff,
                poll_interval,
            };
            self.entries[i] = Slot { vault, entry: new };
            proof {
                lemma_slot(was, i as int, 0);
                self.lemma_updated(was, i as int, vault, new);
                assert(self@ =~= before.insert(vault, new));
            }
        } else {
            let new = ScheduleEntry { next_attempt: now as u128, backoff: None, poll_interval };
            self.entries.insert(i, Slot { vault, entry: new });
            proof {
                let now_slots = self.entries@;
                assert(now_slots == was.insert(i as int, Slot { vault, entry: new }));
                assert forall|a: int, b: int| 0 <= a < b < now_slots.len() implies (
                #[trigger] now_slots[a]).vault < (#[trigger] now_slots[b]).vault by {
                    let x = if a < i {
                        a
                    } else {
                        a - 1
                    };
                    let y = if b < i {
                        b
                    } else {
                        b - 1
                    };
                    if a == i {
                        assert(now_slots[b] == was[y]);
                        assert(was[i as int].vault > vault);
                        if y > i {
                            assert(was[i as int].vault < was[y].vault);
                        }
                    } else if b == i {
                        assert(now_slots[a] == was[x]);
                    } else {
                        assert(now_slots[a] == was[x]);
                        assert(now_slots[b] == was[y]);
                    }
                }
                assert forall|k: int| 0 <= k < was.len() implies (#[trigger] was[k]).vault
                    != vault by {
                    if k > i {
                        assert(was[i as int].vault < was[k].vault);
                    }
                }
                lemma_no_slot(was, vault, 0);
                assert forall|v: u64| #[trigger] slot_from(now_slots, v, 0) == if v == vault {
                    Some(new)
                } else {
                    slot_from(was, v, 0)
                } by {
                    if v == vault {
                        lemma_slot(now_slots, i as int, 0);
                    } else {
                        self.lemma_same_slot(was, now_slots, i as int, v);
                    }
                }
                assert(self@ =~= before.insert(vault, new));
            }
        }
    }

    proof fn lemma_updated(&self, was: Seq<Slot>, i: int, vault: u64, new: ScheduleEntry)
        requires
            slots_sorted(was),
            0 <= i < was.len(),
            was[i].vault == vault,
            self.entries@ == was.update(i, Slot { vault, entry: new }),
        ensures
            slots_sorted(self.entries@),
            forall|v: u64| #[trigger]
                slot_from(self.entries@, v, 0) == if v == vault {
                    Some(new)
                } else {
                    slot_from(was, v, 0)
                },
    {
        let now = self.entries@;
        assert forall|a: int, b: int| 0 <= a < b < now.len() implies (#[trigger] now[a]).vault < (
        #[trigger] now[b]).vault by {
            assert(now[a].vault == was[a].vault);
            assert(now[b].vault == was[b].vault);
        }
        assert forall|v: u64| #[trigger] slot_from(now, v, 0) == if v == vault {
            Some(new)
        } else {
            slot_from(was, v, 0)
        } by {
            if v == vault {
                lemma_slot(now, i, 0);
            } else if slot_from(was, v, 0) is Some {
                lemma_slot_found(was, v, 0);
                let k = choose|k: int|
                    0 <= k < was.len() && (#[trigger] was[k]).vault == v && slot_from(was, v, 0)
                        == Some(was[k].entry);
                assert(now[k] == was[k]);
                lemma_slot(now, k, 0);
            } else {
                if slot_from(now, v, 0) is Some {
                    lemma_slot_found(now, v, 0);
                    let k = choose|k: int|
                        0 <= k < now.len() && (#[trigger] now[k]).vault == v && slot_from(now, v, 0)
                            == Some(now[k].entry);
                    assert(was[k] == now[k]);
                    lemma_slot(was, k, 0);
                }
            }
        }
    }

    proof fn lemma_same_slot(&self, was: Seq<Slot>, now: Seq<Slot>, i: int, v: u64)
        requires
            slots_sorted(was),
            slots_sorted(now),
            0 <= i <= was.len(),
            now.len() == was.len() + 1,
            forall|k: int| 0 <= k < i ==> now[k] == was[k],
            forall|k: int| i < k < now.len() ==> now[k] == was[k - 1],
            now[i].vault != v,
        ensures
            slot_from(now, v, 0) == slot_from(was, v, 0),
    {
        if slot_from(was, v, 0) is Some {
            lemma_slot_found(was, v, 0);
            let k = choose|k: int|
                0 <= k < was.len() && (#[trigger] was[k]).vault == v && slot_from(was, v, 0) == Some(
                    was[k].entry,
                );
            let m = if k < i {
                k
            } else {
                k + 1
            };
            assert(now[m] == was[k]);
            lemma_slot(now, m, 0);
        } else if slot_from(now, v, 0) is Some {
            lemma_slot_found(now, v, 0);
            let k = choose|k: int|
                0 <= k < now.len() && (#[trigger] now[k]).vault == v && slot_from(now, v, 0) == Some(
                    now[k].entry,
                );
            let m = if k < i {
                k
            } else {
                k - 1
            };
            assert(was[m] == now[k]);
            lemma_slot(was, m, 0);
        }
    }

    /// Forgets a vault.
    pub fn deactivate(&mut self, vault: u64)
        requires
            old(self).wf(),
        ensures
            final(self).wf(),
            final(self)@ == old(self)@.remove(vault),
    {
        let ghost was = self.entries@;
        let ghost before = self@;
        let mut i: usize = 0;
        while i < self.entries.len()
            invariant
                0 <= i <= self.entries@.len(),
                self.entries@ == was,
                slots_sorted(was),
                before == self@,
                before == old(self)@,
                forall|k: int| 0 <= k < i ==> (#[trigger] was[k]).vault != vault,
            decreases self.entries@.len() - i,
        {
            if self.entries[i].vault == vault {
                let _ = self.entries.remove(i);
                proof {
                    let now = self.entries@;
                    assert(now == was.remove(i as int));
                    assert forall|a: int, b: int| 0 <= a < b < now.len() implies (
                    #[trigger] now[a]).vault < (#[trigger] now[b]).vault by {
                        let x = if a < i {
                            a
                        } else {
                            a + 1
                        };
                        let y = if b < i {
                            b
                        } else {
                            b + 1
                        };
                        assert(now[a] == was[x]);
                        assert(now[b] == was[y]);
                    }
                    assert forall|v: u64| #[trigger] slot_from(now, v, 0) == if v == vault {
                        None
                    } else {
                        slot_from(was, v, 0)
                    } by {
                        if v == vault {
                            assert forall|k: int| 0 <= k < now.len() implies (
                            #[trigger] now[k]).vault != vault by {
                                let x = if k < i {
                                    k
                                } else {
                                    k + 1
                                };
                                assert(now[k] == was[x]);
                                if x > i {
                                    assert(was[i as int].vault < was[x].vault);
                                }
                            }
                            lemma_no_slot(now, vault, 0);
                        } else {
                            self.lemma_same_slot(now, was, i as int, v);
                        }
                    }
                    assert(self@ =~= before.remove(vault));
                }
                return;
            }
            i = i + 1;
        }
        proof {
            lemma_no_slot(was, vault, 0);
            assert(self@ =~= before.remove(vault));
        }
    }

    /// The vaults to start a pass for, in order: those that are due and have no
    /// pass running or queued.
    pub fn tick(&self, now: u64, busy: &Vec<u64>) -> (r: Vec<u64>)
        requires
            self.wf(),
        ensures
            forall|i: int, j: int|
                0 <= i < j < r@.len() ==> (#[trigger] r@[i]) < (#[trigger] r@[j]),
            forall|vault: u64| #[trigger]
                r@.contains(vault) <==> self@.contains_key(vault) && self@[vault].next_attempt
                    <= now && !busy@.contains(vault),
    {
        let ghost slots = self.entries@;
        let mut out: Vec<u64> = Vec::new();
        let mut i: usize = 0;
        while i < self.entries.len()
            invariant
                0 <= i <= self.entries@.len(),
                slots == self.entries@,
                slots_sorted(slots),
                forall|a: int, b: int|
                    0 <= a < b < out@.len() ==> (#[trigger] out@[a]) < (#[trigger] out@[b]),
                forall|v: u64| #[trigger]
                    out@.contains(v) <==> picked(slots, i as int, now, busy@, v),
            decreases self.entries@.len() - i,
        {
            let vault: u64 = self.entries[i].vault;
            let mut taken = false;
            let mut b: usize = 0;
            while b < busy.len() && !taken
                invariant
                    0 <= b <= busy@.len(),
                    taken ==> busy@.contains(vault),
                    !taken ==> forall|k: int| 0 <= k < b ==> #[trigger] busy@[k] != vault,
                decreases busy@.len() - b,
            {
                if busy[b] == vault {
                    assert(busy@[b as int] == vault);
                    taken = true;
                }
                b = b + 1;
            }
            let ghost was = out@;
            let due = !taken && self.entries[i].entry.next_attempt <= now as u128;
            if due {
                out.push(vault);
            }
            proof {
                assert(taken == busy@.contains(vault));
                assert forall|a: int, c: int| 0 <= a < c < out@.len() implies (#[trigger] out@[a]) < (
                #[trigger] out@[c]) by {
                    if c == was.len() {
                        assert(out@[a] == was[a]);
                        assert(was.contains(was[a]));
                        let k = choose|k: int|
                            0 <= k < i && (#[trigger] slots[k]).vault == was[a]
                                && slots[k].entry.next_attempt <= now && !busy@.contains(was[a]);
                        assert(slots[k].vault < slots[i as int].vault);
                    } else {
                        assert(out@[a] == was[a]);
                        assert(out@[c] == was[c]);
                    }
                }
                assert forall|v: u64| #[trigger] out@.contains(v) <==> picked(
                    slots,
                    i + 1,
                    now,
                    busy@,
                    v,
                ) by {
                    if was.contains(v) {
                        let w = choose|w: int| 0 <= w < was.len() && was[w] == v;
                        assert(out@[w] == v);
                        let k = choose|k: int|
                            0 <= k < i && (#[trigger] slots[k]).vault == v
                                && slots[k].entry.next_attempt <= now && !busy@.contains(v);
                        assert(slots[k].vault == v);
                        assert(picked(slots, i + 1, now, busy@, v));
                    }
                    if out@.contains(v) && !was.contains(v) {
                        let w = choose|w: int| 0 <= w < out@.len() && out@[w] == v;
                        if w < was.len() {
                            assert(was[w] == v);
                        }
                        assert(slots[i as int].vault == v);
                    }
                    if picked(slots, i + 1, now, busy@, v) {
                        let k = choose|k: int|
                            0 <= k < i + 1 && (#[trigger] slots[k]).vault == v
                                && slots[k].entry.next_attempt <= now && !busy@.contains(v);
                        if k < i {
                            assert(picked(slots, i as int, now, busy@, v));
                            assert(was.contains(v));
                        } else {
                            assert(out@[was.len() as int] == v);
                        }
                    }
                }
            }
            i = i + 1;
        }
        proof {
            assert forall|vault: u64| #[trigger] out@.contains(vault) <==> self@.contains_key(vault)
                && self@[vault].next_attempt <= now && !busy@.contains(vault) by {
                if out@.contains(vault) {
                    let k = choose|k: int|
                        0 <= k < slots.len() && (#[trigger] slots[k]).vault == vault
                            && slots[k].entry.next_attempt <= now && !busy@.contains(vault);
                    lemma_slot(slots, k, 0);
                }
                if self@.contains_key(vault) && self@[vault].next_attempt <= now && !busy@.contains(
                    vault,
                ) {
                    lemma_slot_found(slots, vault, 0);
                    let k = choose|k: int|
                        0 <= k < slots.len() && (#[trigger] slots[k]).vault == vault && slot_from(
                            slots,
                            vault,
                            0,
                        ) == Some(slots[k].entry);
                    assert(picked(slots, slots.len() as int, now, busy@, vault));
                }
            }
        }
        out
    }

    /// Sets a vault's next pass from what came of the last: its interval behind
    /// a success, a growing wait behind a failure. A vault that is not active
    /// stays so.
    pub fn record_outcome(&mut self, vault: u64, succeeded: bool, now: u64)
        requires
            old(self).wf(),
        ensures
            final(self).wf(),
            final(self)@ == if old(self)@.contains_key(vault) {
                old(self)@.insert(vault, rearmed(old(self)@[vault], succeeded, now))
            } else {
                old(self)@
            },
    {
        let ghost was = self.entries@;
        let ghost before = self@;
        let mut i: usize = 0;
        while i < self.entries.len()
            invariant
                0 <= i <= self.entries@.len(),
                self.entries@ == was,
                slots_sorted(was),
                before == self@,
                before == old(self)@,
                forall|k: int| 0 <= k < i ==> (#[trigger] was[k]).vault != vault,
            decreases self.entries@.len() - i,
        {
            if self.entries[i].vault == vault {
                let entry = self.entries[i].entry;
                let new = if succeeded {
                    ScheduleEntry {
                        next_attempt: now as u128 + entry.poll_interval as u128,
                        backoff: None,
                        poll_interval: entry.poll_interval,
                    }
                } else {
                    let wait: u64 = match entry.backoff {
                        None => WEBDAV_BACKOFF_BASE_MS,
                        Some(b) => if b < WEBDAV_BACKOFF_MAX_MS / 2 {
                            2 * b
                        } else {
                            WEBDAV_BACKOFF_MAX_MS
                        },
                    };
                    ScheduleEntry {
                        next_attempt: now as u128 + wait as u128,
                        backoff: Some(wait),
                        poll_interval: entry.poll_interval,
                    }
                };
                self.entries[i] = Slot { vault, entry: new };
                proof {
                    lemma_slot(was, i as int, 0);
                    self.lemma_updated(was, i as int, vault, new);
                    assert(new == rearmed(entry, succeeded, now));
                    assert(self@ =~= before.insert(vault, new));
                }
                return;
            }
            i = i + 1;
        }
        proof {
            lemma_no_slot(was, vault, 0);
        }
    }
}

/// The wait behind failures never leaves its bounds.
pub proof fn backoff_is_bounded(previous: Option<u64>)
    requires
        previous is Some ==> WEBDAV_BACKOFF_BASE_MS <= previous->0 <= WEBDAV_BACKOFF_MAX_MS,
    ensures
        WEBDAV_BACKOFF_BASE_MS <= next_backoff(previous) <= WEBDAV_BACKOFF_MAX_MS,
{
}

/// The wait starts at half a minute and doubles with each failure, up to a minute,
/// where it stays. A success ends it.
pub proof fn backoff_doubles_up_to_its_limit(entry: ScheduleEntry, wait: u64, now: u64)
    requires
        entry.backoff == Some(wait),
    ensures
        next_backoff(None) == 30_000,
        wait <= 30_000 ==> next_backoff(Some(wait)) == 2 * wait,
        wait >= 30_000 ==> next_backoff(Some(wait)) == 60_000,
        rearmed(entry, false, now).next_attempt == now + next_backoff(Some(wait)),
        rearmed(entry, false, now).backoff == Some(next_backoff(Some(wait))),
        rearmed(entry, true, now).backoff is None,
        rearmed(entry, true, now).next_attempt == now + entry.poll_interval,
        rearmed(entry, true, now).poll_interval == entry.poll_interval,
        rearmed(entry, false, now).poll_interval == entry.poll_interval,
{
}

} // verus!
