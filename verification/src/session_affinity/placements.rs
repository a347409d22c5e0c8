//! The worker that last served each session.
use lru::{DefaultHasher, LruCache};
use vstd::prelude::*;

use crate::session_affinity::recency::{
    entry_at, has_entry, lru_capacity, lru_entries, lru_get, lru_len, lru_new, lru_pop, lru_put,
    value_of, with_entry_put, with_entry_used, without_entry, Entry,
};
use crate::worker::WorkerWithDpRank;

verus! {

/// What is remembered: a bounded number of sessions, the most recently routed first.
#[verifier::ext_equal]
pub struct Memory {
    pub entries: Seq<Entry>,
    pub capacity: nat,
}

/// The worker of an entry's value.
pub open spec fn entry_worker(value: Option<(u64, u32)>) -> Option<WorkerWithDpRank> {
    match value {
        Some((worker_id, dp_rank)) => Some(WorkerWithDpRank { worker_id, dp_rank }),
        None => None,
    }
}

fn worker_of(value: Option<(u64, u32)>) -> (worker: Option<WorkerWithDpRank>)
    ensures
        worker == entry_worker(value),
{
    match value {
        Some((worker_id, dp_rank)) => Some(WorkerWithDpRank { worker_id, dp_rank }),
        None => None,
    }
}

impl Memory {
    /// No session is remembered twice, and no more than the capacity.
    pub open spec fn valid(self) -> bool {
        &&& forall|i: int, j: int|
            0 <= i < j < self.entries.len() ==> (#[trigger] self.entries[i]).0 != (
            #[trigger] self.entries[j]).0
        &&& self.entries.len() <= self.capacity
        &&& self.capacity > 0
    }

    /// The worker remembered for a session.
    pub open spec fn worker(self, session: Seq<char>) -> Option<WorkerWithDpRank> {
        entry_worker(value_of(self.entries, session))
    }

    /// A session was looked up: it becomes the most recent one.
    pub open spec fn looked_up(self, session: Seq<char>) -> Memory {
        Memory { entries: with_entry_used(self.entries, session), ..self }
    }

    /// A session was routed: it becomes the most recent one.
    pub open spec fn recorded(self, session: Seq<char>, worker: WorkerWithDpRank) -> Memory {
        Memory {
            entries: with_entry_put(
                self.entries,
                self.capacity,
                session,
                (worker.worker_id, worker.dp_rank),
            ),
            ..self
        }
    }

    /// A session is no longer remembered.
    pub open spec fn forgotten(self, session: Seq<char>) -> Memory {
        Memory { entries: without_entry(self.entries, session), ..self }
    }
}

/// A key has its value wherever its entry is.
proof fn lemma_value_at(memory: Memory, at: int)
    requires
        memory.valid(),
        0 <= at < memory.entries.len(),
    ensures
        has_entry(memory.entries, memory.entries[at].0),
        entry_at(memory.entries, memory.entries[at].0) == at,
        value_of(memory.entries, memory.entries[at].0) == Some(memory.entries[at].1),
{
    let found = entry_at(memory.entries, memory.entries[at].0);
    assert(has_entry(memory.entries, memory.entries[at].0));
    assert(memory.entries[found].0 == memory.entries[at].0);
}

/// Looking a session up keeps what is remembered.
pub proof fn lemma_looked_up(memory: Memory, session: Seq<char>)
    requires
        memory.valid(),
    ensures
        memory.looked_up(session).valid(),
        forall|name: Seq<char>| #[trigger]
            memory.looked_up(session).worker(name) == memory.worker(name),
{
    let next = memory.looked_up(session);
    if has_entry(memory.entries, session) {
        let at = entry_at(memory.entries, session);
        lemma_value_at(memory, at);
        assert(next.valid()) by {
            assert forall|i: int, j: int| 0 <= i < j < next.entries.len() implies (
            #[trigger] next.entries[i]).0 != (#[trigger] next.entries[j]).0 by {
                let x = if i == 0 {
                    at
                } else if i - 1 < at {
                    i - 1
                } else {
                    i
                };
                let y = if j - 1 < at {
                    j - 1
                } else {
                    j
                };
                assert(next.entries[i] == memory.entries[x]);
                assert(next.entries[j] == memory.entries[y]);
            }
        }
        assert forall|name: Seq<char>| #[trigger] next.worker(name) == memory.worker(name) by {
            if has_entry(memory.entries, name) {
                let k = entry_at(memory.entries, name);
                lemma_value_at(memory, k);
                let moved = if k == at {
                    0
                } else if k < at {
                    k + 1
                } else {
                    k
                };
                assert(next.entries[moved] == memory.entries[k]);
                lemma_value_at(next, moved);
            } else if has_entry(next.entries, name) {
                let k = entry_at(next.entries, name);
                let from = if k == 0 {
                    at
                } else if k - 1 < at {
                    k - 1
                } else {
                    k
                };
                assert(next.entries[k] == memory.entries[from]);
            }
        }
    }
}

/// A forgotten session is not remembered, and every other one is as before.
pub proof fn lemma_forgotten(memory: Memory, session: Seq<char>)
    requires
        memory.valid(),
    ensures
        memory.forgotten(session).valid(),
        memory.forgotten(session).worker(session) is None,
        forall|name: Seq<char>|
            name != session ==> #[trigger] memory.forgotten(session).worker(name)
                == memory.worker(name),
{
    let next = memory.forgotten(session);
    if has_entry(memory.entries, session) {
        let at = entry_at(memory.entries, session);
        lemma_value_at(memory, at);
        assert(next.valid()) by {
            assert forall|i: int, j: int| 0 <= i < j < next.entries.len() implies (
            #[trigger] next.entries[i]).0 != (#[trigger] next.entries[j]).0 by {
                let x = if i < at {
                    i
                } else {
                    i + 1
                };
                let y = if j < at {
                    j
                } else {
                    j + 1
                };
                assert(next.entries[i] == memory.entries[x]);
                assert(next.entries[j] == memory.entries[y]);
            }
        }
        assert forall|k: int| 0 <= k < next.entries.len() implies (#[trigger] next.entries[k]).0
            != session by {
            let from = if k < at {
                k
            } else {
                k + 1
            };
            assert(next.entries[k] == memory.entries[from]);
        }
        assert forall|name: Seq<char>| name != session implies #[trigger] next.worker(name)
            == memory.worker(name) by {
            if has_entry(memory.entries, name) {
                let k = entry_at(memory.entries, name);
                lemma_value_at(memory, k);
                let moved = if k < at {
                    k
                } else {
                    k - 1
                };
                assert(next.entries[moved] == memory.entries[k]);
                lemma_value_at(next, moved);
            } else if has_entry(next.entries, name) {
                let k = entry_at(next.entries, name);
                let from = if k < at {
                    k
                } else {
                    k + 1
                };
                assert(next.entries[k] == memory.entries[from]);
            }
        }
    }
}

/// A routed session is remembered with its worker, and every other one as before; only the least
/// recent session of a full memory gives way to a new one.
pub proof fn lemma_recorded(memory: Memory, session: Seq<char>, worker: WorkerWithDpRank)
    requires
        memory.valid(),
    ensures
        memory.recorded(session, worker).valid(),
        memory.recorded(session, worker).worker(session) == Some(worker),
        forall|name: Seq<char>|
            name != session && !(memory.worker(session) is None && memory.entries.len()
                == memory.capacity && name == memory.entries.last().0)
                ==> #[trigger] memory.recorded(session, worker).worker(name) == memory.worker(name),
        memory.worker(session) is None && memory.entries.len() == memory.capacity
            ==> memory.recorded(session, worker).worker(memory.entries.last().0) is None,
{
    let next = memory.recorded(session, worker);
    let full = !has_entry(memory.entries, session) && memory.entries.len() == memory.capacity;
    let rest = if full {
        Memory { entries: memory.entries.drop_last(), ..memory }
    } else {
        memory.forgotten(session)
    };
    lemma_forgotten(memory, session);
    assert(next.entries =~= seq![(session, (worker.worker_id, worker.dp_rank))] + rest.entries);
    assert(rest.valid());
    assert forall|k: int| 0 <= k < rest.entries.len() implies (#[trigger] rest.entries[k]).0
        != session by {
        if full {
            assert(rest.entries[k] == memory.entries[k]);
        } else if rest.entries[k].0 == session {
            lemma_value_at(rest, k);
        }
    }
    assert(next.valid()) by {
        assert forall|i: int, j: int| 0 <= i < j < next.entries.len() implies (
        #[trigger] next.entries[i]).0 != (#[trigger] next.entries[j]).0 by {
            assert(next.entries[j] == rest.entries[j - 1]);
            if i > 0 {
                assert(next.entries[i] == rest.entries[i - 1]);
            }
        }
        if has_entry(memory.entries, session) {
            assert(rest.entries.len() == memory.entries.len() - 1);
        }
    }
    lemma_value_at(next, 0);
    assert forall|name: Seq<char>| name != session implies #[trigger] next.worker(name)
        == rest.worker(name) by {
        if has_entry(rest.entries, name) {
            let k = entry_at(rest.entries, name);
            lemma_value_at(rest, k);
            assert(next.entries[k + 1] == rest.entries[k]);
            lemma_value_at(next, k + 1);
        } else if has_entry(next.entries, name) {
            let k = entry_at(next.entries, name);
            assert(next.entries[k] == rest.entries[k - 1]);
        }
    }
    if full {
        let last = memory.entries.last().0;
        assert forall|k: int| 0 <= k < rest.entries.len() implies (#[trigger] rest.entries[k]).0
            != last by {
            assert(rest.entries[k] == memory.entries[k]);
            assert(memory.entries[k].0 != memory.entries[memory.entries.len() - 1].0);
        }
        assert(memory.entries[memory.entries.len() - 1].0 == last);
        assert(last != session);
        assert forall|name: Seq<char>| name != session && name != last implies #[trigger] next.worker(
            name,
        ) == memory.worker(name) by {
            if has_entry(memory.entries, name) {
                let k = entry_at(memory.entries, name);
                lemma_value_at(memory, k);
                assert(rest.entries[k] == memory.entries[k]);
                lemma_value_at(rest, k);
            } else if has_entry(rest.entries, name) {
                let k = entry_at(rest.entries, name);
                assert(rest.entries[k] == memory.entries[k]);
            }
        }
    }
}

/// The worker that last served each session, most recently routed first.
pub struct SessionPlacements {
    entries: LruCache<String, (u64, u32), DefaultHasher>,
}

impl View for SessionPlacements {
    type V = Memory;

    closed spec fn view(&self) -> Memory {
        Memory { entries: lru_entries(self.entries), capacity: lru_capacity(self.entries) }
    }
}

impl SessionPlacements {
    /// Remember up to `capacity` sessions.
    pub fn new(capacity: usize) -> (placements: Self)
        requires
            0 < capacity,
            capacity * 128 <= usize::MAX,
        ensures
            placements@ == (Memory { entries: Seq::empty(), capacity: capacity as nat }),
            placements@.valid(),
    {
        SessionPlacements { entries: lru_new(capacity) }
    }

    /// Look up a session and mark it most recently used.
    pub fn get(&mut self, session_id: &str) -> (worker: Option<WorkerWithDpRank>)
        ensures
            worker == old(self)@.worker(session_id@),
            final(self)@ == old(self)@.looked_up(session_id@),
            old(self)@.valid() ==> final(self)@.valid(),
    {
        proof {
            if self@.valid() {
                lemma_looked_up(self@, session_id@);
            }
        }
        worker_of(lru_get(&mut self.entries, session_id))
    }

    /// Remember the worker of a session.
    pub fn record(&mut self, session_id: &str, worker: WorkerWithDpRank)
        ensures
            final(self)@ == old(self)@.recorded(session_id@, worker),
            old(self)@.valid() ==> final(self)@.valid(),
    {
        proof {
            if self@.valid() {
                lemma_recorded(self@, session_id@, worker);
            }
        }
        lru_put(&mut self.entries, session_id.to_owned(), (worker.worker_id, worker.dp_rank));
    }

    /// Forget a session.
    pub fn forget(&mut self, session_id: &str) -> (worker: Option<WorkerWithDpRank>)
        ensures
            worker == old(self)@.worker(session_id@),
            final(self)@ == old(self)@.forgotten(session_id@),
            old(self)@.valid() ==> final(self)@.valid(),
    {
        proof {
            if self@.valid() {
                lemma_forgotten(self@, session_id@);
            }
        }
        worker_of(lru_pop(&mut self.entries, session_id))
    }

    pub fn len(&self) -> (count: usize)
        ensures
            count == self@.entries.len(),
    {
        lru_len(&self.entries)
    }
}

} // verus!
