//! What the upstream client decides: how long to wait before it connects
//! again, when to give up, and which transaction number a query gets.

use crate::dns::packet::DnsPacket;
use crate::error::DnsError;
use vstd::prelude::*;

verus! {

/// The wait after the first failure, in milliseconds.
pub const BACKOFF_START_MS: u64 = 100;

/// The longest wait between two attempts, in milliseconds.
pub const BACKOFF_CAP_MS: u64 = 10000;

/// How many times a request may try to reach the upstream resolver.
pub const RETRY_BUDGET: u32 = 3;

/// How many transaction numbers there are.
pub const ID_SPACE: usize = 65536;

/// The wait before the next attempt after `failures` failures in a row:
/// none before the first failure, 100 ms after it, then twice the wait
/// before, and never more than 10 s.
pub open spec fn backoff(failures: nat) -> nat
    decreases failures,
{
    if failures == 0 {
        0
    } else if failures == 1 {
        BACKOFF_START_MS as nat
    } else if 2 * backoff((failures - 1) as nat) >= BACKOFF_CAP_MS {
        BACKOFF_CAP_MS as nat
    } else {
        2 * backoff((failures - 1) as nat)
    }
}

/// The wait never passes the cap and never shrinks.
pub proof fn lemma_backoff_bounds(failures: nat)
    ensures
        backoff(failures) <= BACKOFF_CAP_MS,
        failures >= 1 ==> backoff(failures) >= BACKOFF_START_MS,
        backoff(failures) <= backoff(failures + 1),
    decreases failures,
{
    if failures >= 1 {
        lemma_backoff_bounds((failures - 1) as nat);
    }
    if failures >= 2 {
        assert(backoff(failures) >= backoff((failures - 1) as nat));
    }
}

/// The wait before the next attempt after `failures` failures in a row, in
/// milliseconds.
pub fn backoff_ms(failures: u32) -> (wait: u64)
    ensures
        wait == backoff(failures as nat),
{
    if failures == 0 {
        return 0;
    }
    let mut wait: u64 = BACKOFF_START_MS;
    let mut k: u32 = 1;
    while k < failures
        invariant
            1 <= k <= failures,
            wait == backoff(k as nat),
            wait <= BACKOFF_CAP_MS,
        decreases failures - k,
    {
        if 2 * wait >= BACKOFF_CAP_MS {
            wait = BACKOFF_CAP_MS;
        } else {
            wait = 2 * wait;
        }
        k += 1;
    }
    wait
}

/// What the client does next for a request.
#[derive(Debug, Clone, Copy, PartialEq, Eq, Structural)]
pub enum Attempt {
    /// Wait this many milliseconds, then connect and send.
    Send { wait_ms: u64 },
    /// The budget is spent: the request fails.
    GiveUp,
}

/// What the client does for a request of which `failed` attempts have
/// failed: it tries again after the backoff while the budget lasts.
pub open spec fn attempt_after(failed: nat) -> Attempt {
    if failed < RETRY_BUDGET {
        Attempt::Send { wait_ms: backoff(failed) as u64 }
    } else {
        Attempt::GiveUp
    }
}

/// What the client does next for a request of which `failed` attempts have
/// failed.
pub fn next_attempt(failed: u32) -> (r: Attempt)
    ensures
        r == attempt_after(failed as nat),
{
    proof {
        lemma_backoff_bounds(failed as nat);
    }
    if failed < RETRY_BUDGET {
        Attempt::Send { wait_ms: backoff_ms(failed) }
    } else {
        Attempt::GiveUp
    }
}

/// The error of a request whose budget is spent.
pub fn exhausted(failed: u32) -> (r: Option<DnsError>)
    ensures
        r == if attempt_after(failed as nat) == Attempt::GiveUp {
            Some(DnsError::UpstreamUnavailable)
        } else {
            None
        },
{
    if failed < RETRY_BUDGET {
        None
    } else {
        Some(DnsError::UpstreamUnavailable)
    }
}

/// The number after `id`, the first following the last.
pub open spec fn id_after(id: u16) -> u16 {
    if id == u16::MAX {
        0
    } else {
        (id + 1) as u16
    }
}

/// The number `k` steps after `id`.
pub open spec fn id_plus(id: u16, k: int) -> u16 {
    ((id + k) % (ID_SPACE as int)) as u16
}

/// The transaction numbers of the queries that wait for an answer, and the
/// number that the next query gets if it is free.
pub struct IdAllocator {
    next: u16,
    outstanding: Vec<u16>,
}

impl IdAllocator {
    #[verifier::type_invariant]
    spec fn no_repeats(&self) -> bool {
        self.outstanding@.no_duplicates()
    }

    /// The numbers of the queries that wait for an answer.
    pub closed spec fn in_use(&self) -> Set<u16> {
        self.outstanding@.to_set()
    }

    /// The number that is tried first for the next query.
    pub closed spec fn next_id(&self) -> u16 {
        self.next
    }

    /// No query waits; numbers start at `first`.
    pub fn new(first: u16) -> (r: Self)
        ensures
            r.in_use() == Set::<u16>::empty(),
            r.next_id() == first,
    {
        let r = IdAllocator { next: first, outstanding: Vec::new() };
        assert(r.outstanding@.to_set() =~= Set::<u16>::empty());
        r
    }

    /// Whether a query with this number waits for an answer.
    pub fn is_outstanding(&self, id: u16) -> (r: bool)
        ensures
            r == self.in_use().contains(id),
    {
        let mut i: usize = 0;
        while i < self.outstanding.len()
            invariant
                i <= self.outstanding@.len(),
                forall|j: int| 0 <= j < i ==> self.outstanding@[j] != id,
            decreases self.outstanding@.len() - i,
        {
            if self.outstanding[i] == id {
                assert(self.outstanding@.contains(id));
                return true;
            }
            i += 1;
        }
        assert(!self.outstanding@.contains(id));
        false
    }

    /// How many queries wait for an answer.
    pub fn outstanding_count(&self) -> (n: usize)
        ensures
            n == self.in_use().len(),
    {
        proof {
            use_type_invariant(self);
            self.outstanding@.unique_seq_to_set();
        }
        self.outstanding.len()
    }

    /// The number for the next query: the first that no waiting query has,
    /// counting on from the number after the one given out last and past
    /// the largest back to zero. `None` where every number is in use.
    pub fn allocate(&mut self) -> (r: Option<u16>)
        ensures
            r is Some <==> exists|id: u16| !old(self).in_use().contains(id),
            match r {
                Some(id) => {
                    &&& !old(self).in_use().contains(id)
                    &&& exists|k: int|
                        {
                            &&& 0 <= k < ID_SPACE
                            &&& id == #[trigger] id_plus(old(self).next_id(), k)
                            &&& forall|j: int|
                                0 <= j < k ==> old(self).in_use().contains(
                                    #[trigger] id_plus(old(self).next_id(), j),
                                )
                        }
                    &&& final(self).in_use() == old(self).in_use().insert(id)
                    &&& final(self).next_id() == id_after(id)
                },
                None => {
                    &&& forall|id: u16| old(self).in_use().contains(id)
                    &&& final(self).in_use() == old(self).in_use()
                    &&& final(self).next_id() == old(self).next_id()
                },
            },
    {
        proof {
            use_type_invariant(&*self);
        }
        let start: u16 = self.next;
        let mut k: usize = 0;
        while k < ID_SPACE
            invariant
                k <= ID_SPACE,
                *self == *old(self),
                start == self.next,
                self.outstanding@.no_duplicates(),
                forall|j: int| 0 <= j < k ==> self.in_use().contains(#[trigger] id_plus(start, j)),
            decreases ID_SPACE - k,
        {
            let id: u16 = ((start as usize + k) % ID_SPACE) as u16;
            if !self.is_outstanding(id) {
                let ghost before = self.outstanding@;
                let mut taken = IdAllocator::new(0);
                core::mem::swap(self, &mut taken);
                let IdAllocator { next: _, outstanding } = taken;
                let mut outstanding = outstanding;
                outstanding.push(id);
                let after: u16 = if id == u16::MAX { 0 } else { id + 1 };
                proof {
                    assert(!before.contains(id));
                    assert(outstanding@ == before.push(id));
                    assert(before.push(id).no_duplicates()) by {
                        assert forall|a: int, b: int|
                            0 <= a < before.len() + 1 && 0 <= b < before.len() + 1 && a
                                != b implies before.push(id)[a] != before.push(id)[b] by {
                            if a == before.len() {
                                assert(before.contains(before[b]));
                            } else if b == before.len() {
                                assert(before.contains(before[a]));
                            }
                        }
                    }
                    assert(before.push(id).to_set() =~= before.to_set().insert(id)) by {
                        assert forall|x: u16| before.push(id).to_set().contains(x)
                            == before.to_set().insert(id).contains(x) by {
                            if before.push(id).contains(x) {
                                let a = choose|a: int|
                                    0 <= a < before.push(id).len() && before.push(id)[a] == x;
                                if a < before.len() {
                                    assert(before[a] == x);
                                    assert(before.contains(x));
                                }
                            }
                            if before.contains(x) {
                                let a = choose|a: int| 0 <= a < before.len() && before[a] == x;
                                assert(before.push(id)[a] == x);
                            }
                            if x == id {
                                assert(before.push(id)[before.len() as int] == x);
                            }
                        }
                    }
                    assert(id == id_plus(start, k as int));
                }
                *self = IdAllocator { next: after, outstanding };
                proof {
                    assert(self.in_use() == old(self).in_use().insert(id));
                    assert(id == id_plus(old(self).next_id(), k as int));
                }
                return Some(id);
            }
            k += 1;
        }
        proof {
            assert forall|id: u16| self.in_use().contains(id) by {
                let j = ((id as int) - (start as int) + 65536) % 65536;
                assert(id_plus(start, j) == id);
                assert(self.in_use().contains(id_plus(start, j)));
            }
        }
        None
    }

    /// The query with this number has its answer, or has given up: the
    /// number is free again.
    pub fn release(&mut self, id: u16)
        ensures
            final(self).in_use() == old(self).in_use().remove(id),
            final(self).next_id() == old(self).next_id(),
    {
        let mut taken = IdAllocator::new(0);
        core::mem::swap(self, &mut taken);
        proof {
            use_type_invariant(&taken);
        }
        let IdAllocator { next, outstanding } = taken;
        let mut outstanding = outstanding;
        let ghost before = outstanding@;
        let mut i: usize = 0;
        while i < outstanding.len()
            invariant
                i <= outstanding@.len(),
                outstanding@ == before,
                before == old(self).outstanding@,
                next == old(self).next,
                before.no_duplicates(),
                forall|j: int| 0 <= j < i ==> before[j] != id,
            decreases outstanding@.len() - i,
        {
            if outstanding[i] == id {
                outstanding.remove(i);
                proof {
                    let after = before.remove(i as int);
                    assert(after.no_duplicates()) by {
                        assert forall|a: int, b: int|
                            0 <= a < after.len() && 0 <= b < after.len() && a != b implies after[a]
                            != after[b] by {
                            let a0 = if a < i { a } else { a + 1 };
                            let b0 = if b < i { b } else { b + 1 };
                            assert(after[a] == before[a0]);
                            assert(after[b] == before[b0]);
                        }
                    }
                    assert(after.to_set() =~= before.to_set().remove(id)) by {
                        assert forall|x: u16| after.to_set().contains(x) == before.to_set().remove(
                            id,
                        ).contains(x) by {
                            if after.contains(x) {
                                let a = choose|a: int| 0 <= a < after.len() && after[a] == x;
                                let a0 = if a < i { a } else { a + 1 };
                                assert(after[a] == before[a0]);
                                assert(before.contains(x));
                                assert(a0 != i);
                                assert(x != id);
                            }
                            if before.contains(x) && x != id {
                                let a = choose|a: int| 0 <= a < before.len() && before[a] == x;
                                let a1 = if a < i { a } else { a - 1 };
                                assert(after[a1] == before[a]);
                            }
                        }
                    }
                }
                *self = IdAllocator { next, outstanding };
                return ;
            }
            i += 1;
        }
        proof {
            assert(!before.contains(id));
            assert(before.to_set() =~= before.to_set().remove(id));
        }
        *self = IdAllocator { next, outstanding };
    }
}

/// Whether the message is the answer to the query with the number `id`: a
/// response that carries that number.
pub fn answers_query(message: &DnsPacket, id: u16) -> (r: bool)
    ensures
        r == (message@.header.flags.response && message@.header.transaction_id == id),
{
    message.header.flags.response && message.header.transaction_id == id
}

} // verus!
