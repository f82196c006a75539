//! Single flight: of the callers that ask upstream for the same question at
//! the same time one leads and asks, the others follow and wait for what the
//! leader brings back.

use crate::cache::QuestionKey;
use crate::dns::question::{question_key, Question};
use vstd::prelude::*;

verus! {

/// What a caller is told when it begins to resolve a question.
#[derive(Debug, Clone, Copy, PartialEq, Eq, Structural)]
pub enum Token {
    /// Nobody resolves the question yet: the caller asks upstream.
    Leader,
    /// Somebody resolves the question already: the caller waits.
    Follower,
}

/// What becomes of a resolution whose leader gave up.
#[derive(Debug, Clone, Copy, PartialEq, Eq, Structural)]
pub enum Handover {
    /// One of the followers leads from now on.
    Promoted,
    /// Nobody followed: the resolution is over.
    Cleared,
    /// The question was not being resolved.
    NotInFlight,
}

/// One resolution under way: the question, and how many callers follow.
pub struct Flight {
    question: Question,
    followers: usize,
}

/// The followers of a resolution once another caller has joined them. The
/// count stops at the largest number the machine holds.
pub open spec fn joined(followers: nat) -> nat {
    if followers < usize::MAX {
        followers + 1
    } else {
        followers
    }
}

/// The state of a question once a caller has begun to resolve it: `None`
/// means that nobody resolves it, `Some(n)` that a leader does with `n`
/// followers.
pub open spec fn begun(waiting: Option<nat>) -> Option<nat> {
    match waiting {
        None => Some(0),
        Some(n) => Some(joined(n)),
    }
}

/// What the caller that begins is told.
pub open spec fn begin_token(waiting: Option<nat>) -> Token {
    match waiting {
        None => Token::Leader,
        Some(_) => Token::Follower,
    }
}

/// No two flights are for the same question.
pub closed spec fn flights_distinct(flights: Seq<Flight>) -> bool {
    forall|i: int, j: int|
        0 <= i < flights.len() && 0 <= j < flights.len() && i != j ==> question_key(
            (#[trigger] flights[i]).question@,
        ) != question_key((#[trigger] flights[j]).question@)
}

/// Where among the flights the one for `key` is.
pub closed spec fn flight_index(flights: Seq<Flight>, key: QuestionKey) -> Option<int> {
    if exists|i: int|
        0 <= i < flights.len() && question_key((#[trigger] flights[i]).question@) == key {
        Some(
            choose|i: int|
                0 <= i < flights.len() && question_key((#[trigger] flights[i]).question@) == key,
        )
    } else {
        None
    }
}

/// How many callers follow the resolution of `key`, if there is one.
pub closed spec fn flights_lookup(flights: Seq<Flight>, key: QuestionKey) -> Option<nat> {
    match flight_index(flights, key) {
        Some(i) => Some(flights[i].followers as nat),
        None => None,
    }
}

proof fn lemma_flight_found(flights: Seq<Flight>, key: QuestionKey, i: int)
    requires
        flights_distinct(flights),
        0 <= i < flights.len(),
        question_key(flights[i].question@) == key,
    ensures
        flight_index(flights, key) == Some(i),
{
    let j = flight_index(flights, key).unwrap();
    if j != i {
        assert(question_key(flights[j].question@) == key);
    }
}

proof fn lemma_flight_is(flights: Seq<Flight>, key: QuestionKey, i: int)
    requires
        flight_index(flights, key) == Some(i),
    ensures
        0 <= i < flights.len(),
        question_key(flights[i].question@) == key,
{
}

/// What is found once the flight at `i` has a new number of followers, or
/// is gone (`left` is `None`).
proof fn lemma_flight_changed(
    before: Seq<Flight>,
    after: Seq<Flight>,
    i: int,
    left: Option<nat>,
    key: QuestionKey,
)
    requires
        flights_distinct(before),
        0 <= i < before.len(),
        match left {
            Some(n) => {
                &&& after.len() == before.len()
                &&& forall|j: int|
                    0 <= j < before.len() && j != i ==> #[trigger] after[j] == before[j]
                &&& after[i].question@ == before[i].question@
                &&& after[i].followers == n
            },
            None => after == before.remove(i),
        },
    ensures
        flights_distinct(after),
        flights_lookup(after, key) == if key == question_key(before[i].question@) {
            left
        } else {
            flights_lookup(before, key)
        },
{
    let own = question_key(before[i].question@);
    match left {
        Some(n) => {
            assert forall|a: int, b: int|
                0 <= a < after.len() && 0 <= b < after.len() && a != b implies question_key(
                (#[trigger] after[a]).question@,
            ) != question_key((#[trigger] after[b]).question@) by {
                assert(after[a].question@ == before[a].question@);
                assert(after[b].question@ == before[b].question@);
            }
            if key == own {
                lemma_flight_found(after, key, i);
            } else {
                match flight_index(before, key) {
                    Some(j) => {
                        lemma_flight_is(before, key, j);
                        assert(after[j] == before[j]);
                        lemma_flight_found(after, key, j);
                    },
                    None => {
                        assert forall|a: int| 0 <= a < after.len() implies question_key(
                            (#[trigger] after[a]).question@,
                        ) != key by {
                            assert(after[a].question@ == before[a].question@);
                            assert(question_key(before[a].question@) != key);
                        }
                    },
                }
            }
        },
        None => {
            assert forall|a: int, b: int|
                0 <= a < after.len() && 0 <= b < after.len() && a != b implies question_key(
                (#[trigger] after[a]).question@,
            ) != question_key((#[trigger] after[b]).question@) by {
                let a0 = if a < i { a } else { a + 1 };
                let b0 = if b < i { b } else { b + 1 };
                assert(after[a] == before[a0]);
                assert(after[b] == before[b0]);
            }
            if key == own {
                assert forall|a: int| 0 <= a < after.len() implies question_key(
                    (#[trigger] after[a]).question@,
                ) != key by {
                    let a0 = if a < i { a } else { a + 1 };
                    assert(after[a] == before[a0]);
                }
            } else {
                match flight_index(before, key) {
                    Some(j) => {
                        lemma_flight_is(before, key, j);
                        let j1 = if j < i { j } else { j - 1 };
                        assert(after[j1] == before[j]);
                        lemma_flight_found(after, key, j1);
                    },
                    None => {
                        assert forall|a: int| 0 <= a < after.len() implies question_key(
                            (#[trigger] after[a]).question@,
                        ) != key by {
                            let a0 = if a < i { a } else { a + 1 };
                            assert(after[a] == before[a0]);
                            assert(question_key(before[a0].question@) != key);
                        }
                    },
                }
            }
        },
    }
}

/// What is found once a flight for a question that had none has been added.
proof fn lemma_flight_added(before: Seq<Flight>, after: Seq<Flight>, key: QuestionKey)
    requires
        flights_distinct(before),
        flight_index(before, question_key(after.last().question@)) is None,
        after.len() == before.len() + 1,
        forall|j: int| 0 <= j < before.len() ==> #[trigger] after[j] == before[j],
    ensures
        flights_distinct(after),
        flights_lookup(after, key) == if key == question_key(after.last().question@) {
            Some(after.last().followers as nat)
        } else {
            flights_lookup(before, key)
        },
{
    let n = before.len() as int;
    let own = question_key(after.last().question@);
    assert forall|a: int| 0 <= a < n implies question_key((#[trigger] before[a]).question@)
        != own by {}
    assert forall|a: int, b: int|
        0 <= a < after.len() && 0 <= b < after.len() && a != b implies question_key(
        (#[trigger] after[a]).question@,
    ) != question_key((#[trigger] after[b]).question@) by {
        if a < n {
            assert(after[a] == before[a]);
            assert(question_key(before[a].question@) != own);
        }
        if b < n {
            assert(after[b] == before[b]);
            assert(question_key(before[b].question@) != own);
        }
    }
    if key == own {
        lemma_flight_found(after, key, n);
    } else {
        match flight_index(before, key) {
            Some(j) => {
                lemma_flight_is(before, key, j);
                assert(after[j] == before[j]);
                lemma_flight_found(after, key, j);
            },
            None => {
                assert forall|a: int| 0 <= a < after.len() implies question_key(
                    (#[trigger] after[a]).question@,
                ) != key by {
                    if a < n {
                        assert(after[a] == before[a]);
                        assert(question_key(before[a].question@) != key);
                    }
                }
            },
        }
    }
}

/// The resolutions that are under way.
pub struct SingleFlight {
    flights: Vec<Flight>,
}

impl SingleFlight {
    #[verifier::type_invariant]
    spec fn distinct(&self) -> bool {
        flights_distinct(self.flights@)
    }

    /// How many callers follow the resolution of the question with this
    /// key; `None` where the question is not being resolved.
    pub closed spec fn waiting(&self, key: QuestionKey) -> Option<nat> {
        flights_lookup(self.flights@, key)
    }

    /// No resolution under way.
    pub fn new() -> (r: Self)
        ensures
            forall|key: QuestionKey| r.waiting(key) is None,
    {
        let r = SingleFlight { flights: Vec::new() };
        assert forall|key: QuestionKey| r.waiting(key) is None by {
            assert(flight_index(r.flights@, key) is None);
        }
        r
    }

    /// Where the flight for the question is.
    fn find(flights: &Vec<Flight>, question: &Question) -> (r: Option<usize>)
        requires
            flights_distinct(flights@),
        ensures
            match r {
                Some(i) => i < flights@.len() && flight_index(flights@, question_key(question@))
                    == Some(i as int),
                None => flight_index(flights@, question_key(question@)) is None,
            },
    {
        let mut i: usize = 0;
        while i < flights.len()
            invariant
                i <= flights@.len(),
                flights_distinct(flights@),
                forall|j: int|
                    0 <= j < i ==> question_key((#[trigger] flights@[j]).question@)
                        != question_key(question@),
            decreases flights@.len() - i,
        {
            if flights[i].question.same_as(question) {
                proof {
                    lemma_flight_found(flights@, question_key(question@), i as int);
                }
                return Some(i);
            }
            i += 1;
        }
        None
    }

    /// Puts a flight with `followers` in the place of the one at `i`, or
    /// only takes that one out.
    fn settle(&mut self, i: usize, followers: Option<usize>)
        requires
            i < old(self).flights@.len(),
        ensures
            forall|key: QuestionKey| #[trigger]
                final(self).waiting(key) == if key == question_key(
                    old(self).flights@[i as int].question@,
                ) {
                    match followers {
                        Some(n) => Some(n as nat),
                        None => None,
                    }
                } else {
                    old(self).waiting(key)
                },
    {
        let mut taken = SingleFlight::new();
        core::mem::swap(self, &mut taken);
        proof {
            use_type_invariant(&taken);
        }
        let SingleFlight { flights } = taken;
        let mut flights = flights;
        let ghost before = flights@;
        let flight = flights.remove(i);
        let ghost left = match followers {
            Some(n) => Some(n as nat),
            None => None,
        };
        match followers {
            Some(n) => {
                let Flight { question, followers: _ } = flight;
                let fresh = Flight { question, followers: n };
                flights.insert(i, fresh);
                assert(flights@ =~= before.update(i as int, fresh));
            },
            None => {},
        }
        proof {
            assert forall|key: QuestionKey|
                flights_distinct(flights@) && flights_lookup(flights@, key) == if key
                    == question_key(before[i as int].question@) {
                    left
                } else {
                    flights_lookup(before, key)
                } by {
                lemma_flight_changed(before, flights@, i as int, left, key);
            }
            lemma_flight_changed(before, flights@, i as int, left, question_key(before[i as int].question@));
        }
        *self = SingleFlight { flights };
    }

    /// A caller begins to resolve the question. The first one leads; who
    /// comes while the leader is at work follows.
    pub fn begin_resolve(&mut self, question: &Question) -> (token: Token)
        ensures
            token == begin_token(old(self).waiting(question_key(question@))),
            final(self).waiting(question_key(question@)) == begun(
                old(self).waiting(question_key(question@)),
            ),
            forall|key: QuestionKey|
                key != question_key(question@) ==> final(self).waiting(key) == old(self).waiting(
                    key,
                ),
    {
        proof {
            use_type_invariant(&*self);
        }
        match SingleFlight::find(&self.flights, question) {
            Some(i) => {
                let n: usize = self.flights[i].followers;
                let more: usize = if n < usize::MAX { n + 1 } else { n };
                proof {
                    lemma_flight_is(self.flights@, question_key(question@), i as int);
                }
                self.settle(i, Some(more));
                Token::Follower
            },
            None => {
                let mut taken = SingleFlight::new();
                core::mem::swap(self, &mut taken);
                let SingleFlight { flights } = taken;
                let mut flights = flights;
                let ghost before = flights@;
                flights.push(Flight { question: question.copy(), followers: 0 });
                proof {
                    assert forall|key: QuestionKey|
                        flights_distinct(flights@) && flights_lookup(flights@, key) == if key
                            == question_key(question@) {
                            Some(0nat)
                        } else {
                            flights_lookup(before, key)
                        } by {
                        lemma_flight_added(before, flights@, key);
                    }
                    lemma_flight_added(before, flights@, question_key(question@));
                }
                *self = SingleFlight { flights };
                Token::Leader
            },
        }
    }

    /// The leader has brought back an answer, or an error: the resolution is
    /// over. Returns how many followers wait for what the leader brought.
    pub fn complete(&mut self, question: &Question) -> (followers: usize)
        ensures
            followers == match old(self).waiting(question_key(question@)) {
                Some(n) => n,
                None => 0,
            },
            final(self).waiting(question_key(question@)) is None,
            forall|key: QuestionKey|
                key != question_key(question@) ==> final(self).waiting(key) == old(self).waiting(
                    key,
                ),
    {
        proof {
            use_type_invariant(&*self);
        }
        match SingleFlight::find(&self.flights, question) {
            Some(i) => {
                let n: usize = self.flights[i].followers;
                proof {
                    lemma_flight_is(self.flights@, question_key(question@), i as int);
                }
                self.settle(i, None);
                n
            },
            None => 0,
        }
    }

    /// The leader gave up before it had an answer. With followers, one of
    /// them leads from now on; without, the resolution is over.
    pub fn cancel(&mut self, question: &Question) -> (r: Handover)
        ensures
            match old(self).waiting(question_key(question@)) {
                Some(n) => if n > 0 {
                    &&& r == Handover::Promoted
                    &&& final(self).waiting(question_key(question@)) == Some((n - 1) as nat)
                } else {
                    &&& r == Handover::Cleared
                    &&& final(self).waiting(question_key(question@)) is None
                },
                None => {
                    &&& r == Handover::NotInFlight
                    &&& final(self).waiting(question_key(question@)) is None
                },
            },
            forall|key: QuestionKey|
                key != question_key(question@) ==> final(self).waiting(key) == old(self).waiting(
                    key,
                ),
    {
        proof {
            use_type_invariant(&*self);
        }
        match SingleFlight::find(&self.flights, question) {
            Some(i) => {
                let n: usize = self.flights[i].followers;
                proof {
                    lemma_flight_is(self.flights@, question_key(question@), i as int);
                }
                if n > 0 {
                    self.settle(i, Some(n - 1));
                    Handover::Promoted
                } else {
                    self.settle(i, None);
                    Handover::Cleared
                }
            },
            None => Handover::NotInFlight,
        }
    }

    /// A follower gave up waiting. The leader works on.
    pub fn leave(&mut self, question: &Question)
        ensures
            final(self).waiting(question_key(question@)) == match old(self).waiting(
                question_key(question@),
            ) {
                Some(n) => if n > 0 {
                    Some((n - 1) as nat)
                } else {
                    Some(n)
                },
                None => None,
            },
            forall|key: QuestionKey|
                key != question_key(question@) ==> final(self).waiting(key) == old(self).waiting(
                    key,
                ),
    {
        proof {
            use_type_invariant(&*self);
        }
        match SingleFlight::find(&self.flights, question) {
            Some(i) => {
                let n: usize = self.flights[i].followers;
                proof {
                    lemma_flight_is(self.flights@, question_key(question@), i as int);
                }
                if n > 0 {
                    self.settle(i, Some(n - 1));
                }
            },
            None => {},
        }
    }
}

} // verus!
