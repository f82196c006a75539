//! What holds of every cache and of every run of callers: time to live only
//! falls, nothing expired is served, and of many callers one leads.

use crate::cache::flight::{begin_token, begun, Token};
use crate::cache::{live, remaining_ttl, served, EntryView};
use vstd::prelude::*;

verus! {

/// The seconds that an entry has left do not grow with time.
pub proof fn lemma_ttl_falls(expires_at: u64, t1: u64, t2: u64)
    requires
        t1 <= t2,
    ensures
        remaining_ttl(expires_at, t2) <= remaining_ttl(expires_at, t1),
{
    if expires_at > t2 {
        let a = expires_at - t1;
        let b = expires_at - t2;
        assert(b / 1000 <= a / 1000) by (nonlinear_arith)
            requires
                0 <= b <= a,
        ;
    }
}

/// Every entry that is served expires later than now, and was among the
/// entries that were kept.
pub proof fn lemma_live_unexpired(es: Seq<EntryView>, now: u64)
    ensures
        live(es, now).len() <= es.len(),
        forall|i: int| 0 <= i < live(es, now).len() ==> (#[trigger] live(es, now)[i]).expires_at > now,
        forall|i: int| 0 <= i < live(es, now).len() ==> es.contains(#[trigger] live(es, now)[i]),
    decreases es.len(),
{
    if es.len() > 0 {
        let init = es.drop_last();
        lemma_live_unexpired(init, now);
        assert forall|i: int| 0 <= i < live(es, now).len() implies es.contains(
            #[trigger] live(es, now)[i],
        ) by {
            if i < live(init, now).len() {
                let e = live(init, now)[i];
                assert(init.contains(e));
                let k = choose|k: int| 0 <= k < init.len() && init[k] == e;
                assert(es[k] == e);
            } else {
                assert(es[es.len() - 1] == es.last());
            }
        }
    }
}

/// What is still served at a later moment of what was served at an earlier
/// one is what is served at the later moment of all: asking in between
/// loses nothing.
pub proof fn lemma_live_twice(es: Seq<EntryView>, t1: u64, t2: u64)
    requires
        t1 <= t2,
    ensures
        live(live(es, t1), t2) == live(es, t2),
    decreases es.len(),
{
    if es.len() > 0 {
        let init = es.drop_last();
        lemma_live_twice(init, t1, t2);
        if es.last().expires_at > t1 {
            let l1 = live(init, t1).push(es.last());
            assert(l1.drop_last() =~= live(init, t1));
            assert(l1.last() == es.last());
        }
    }
}

/// On two hits for the same question, the second no earlier than the first,
/// every record of the second was a record of the first, with no more time
/// to live than it had then.
pub proof fn lemma_second_hit(es: Seq<EntryView>, name: Seq<char>, t1: u64, t2: u64)
    requires
        t1 <= t2,
    ensures
        forall|j: int|
            0 <= j < served(live(live(es, t1), t2), name, t2).len() ==> exists|i: int|
                {
                    &&& 0 <= i < served(live(es, t1), name, t1).len()
                    &&& (#[trigger] served(live(es, t1), name, t1)[i]).data == (#[trigger] served(
                        live(live(es, t1), t2),
                        name,
                        t2,
                    )[j]).data
                    &&& served(live(es, t1), name, t1)[i].class == served(
                        live(live(es, t1), t2),
                        name,
                        t2,
                    )[j].class
                    &&& served(live(es, t1), name, t1)[i].name == served(
                        live(live(es, t1), t2),
                        name,
                        t2,
                    )[j].name
                    &&& served(live(live(es, t1), t2), name, t2)[j].ttl <= served(
                        live(es, t1),
                        name,
                        t1,
                    )[i].ttl
                },
{
    let first = live(es, t1);
    let second = live(first, t2);
    let r1 = served(first, name, t1);
    let r2 = served(second, name, t2);
    lemma_live_unexpired(first, t2);
    assert forall|j: int| 0 <= j < r2.len() implies exists|i: int|
        {
            &&& 0 <= i < r1.len()
            &&& (#[trigger] r1[i]).data == (#[trigger] r2[j]).data
            &&& r1[i].class == r2[j].class
            &&& r1[i].name == r2[j].name
            &&& r2[j].ttl <= r1[i].ttl
        } by {
        let e = second[j];
        assert(first.contains(e));
        let i = choose|i: int| 0 <= i < first.len() && first[i] == e;
        lemma_ttl_falls(e.expires_at, t1, t2);
        assert(r1[i].data == r2[j].data);
    }
}

/// The state of a question after `n` callers in a row have begun to resolve
/// it.
pub open spec fn after_begins(waiting: Option<nat>, n: nat) -> Option<nat>
    decreases n,
{
    if n == 0 {
        waiting
    } else {
        begun(after_begins(waiting, (n - 1) as nat))
    }
}

/// How many of `n` callers in a row were told to lead.
pub open spec fn leaders(waiting: Option<nat>, n: nat) -> nat
    decreases n,
{
    if n == 0 {
        0
    } else {
        leaders(waiting, (n - 1) as nat) + if begin_token(after_begins(waiting, (n - 1) as nat))
            == Token::Leader {
            1nat
        } else {
            0nat
        }
    }
}

/// Of the callers that begin to resolve a question that nobody resolves,
/// one after the other and before the resolution is over, exactly one
/// leads: the first. The others follow, and all of them are counted.
pub proof fn lemma_single_flight(n: nat)
    requires
        1 <= n <= usize::MAX,
    ensures
        leaders(None, n) == 1,
        after_begins(None, n) == Some((n - 1) as nat),
        begin_token(after_begins(None, 0)) == Token::Leader,
        forall|k: nat| 1 <= k < n ==> begin_token(#[trigger] after_begins(None, k)) == Token::Follower,
    decreases n,
{
    if n == 1 {
        assert(after_begins(None, 0) == None::<nat>);
        assert(leaders(None, 0) == 0);
    } else {
        lemma_single_flight((n - 1) as nat);
        assert forall|k: nat| 1 <= k < n implies begin_token(#[trigger] after_begins(None, k))
            == Token::Follower by {
            if k == n - 1 {
            }
        }
    }
}
} // verus!
