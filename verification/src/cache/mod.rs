//! The response cache: what was answered to a question, kept until it
//! expires. Time is a count of milliseconds that only grows, handed in by
//! the caller.

pub mod flight;
pub mod laws;

use crate::dns::question::{question_key, Question};
use crate::dns::packet::record_views;
use crate::dns::record::{Record, RecordData, RecordDataView, RecordView};
use vstd::prelude::*;

verus! {

/// How many milliseconds a second of a record's time to live lasts.
pub const MILLIS: u64 = 1000;

/// One cached record: its class, the moment from which it is no longer
/// served, and its data.
#[derive(Debug)]
pub struct Entry {
    pub class: u16,
    pub expires_at: u64,
    pub data: RecordData,
}

/// A cached record as a mathematical value.
pub struct EntryView {
    pub class: u16,
    pub expires_at: u64,
    pub data: RecordDataView,
}

impl View for Entry {
    type V = EntryView;

    open spec fn view(&self) -> EntryView {
        EntryView { class: self.class, expires_at: self.expires_at, data: self.data@ }
    }
}

/// The entries as mathematical values, in the same order.
pub open spec fn entry_views(es: Seq<Entry>) -> Seq<EntryView> {
    Seq::new(es.len(), |i: int| es[i]@)
}

/// What identifies a question in the cache: its name in lower case, its type
/// and its class.
pub type QuestionKey = (Seq<u8>, u16, u16);

/// The moment at which a record that came at `now` with `ttl` seconds to
/// live expires: `ttl` seconds later, or at the end of time where that is
/// sooner.
pub open spec fn expiry(now: u64, ttl: u32) -> u64 {
    if now + ttl * MILLIS <= u64::MAX {
        (now + ttl * MILLIS) as u64
    } else {
        u64::MAX
    }
}

/// The whole seconds that are left at `now` until `expires_at`: none once
/// that moment has come, and no more than a record can say.
pub open spec fn remaining_ttl(expires_at: u64, now: u64) -> u32 {
    if expires_at <= now {
        0
    } else if (expires_at - now) / (MILLIS as int) > u32::MAX {
        u32::MAX
    } else {
        ((expires_at - now) / (MILLIS as int)) as u32
    }
}

/// The entries that are still to be served at `now`: those that expire
/// later, in their order.
pub open spec fn live(es: Seq<EntryView>, now: u64) -> Seq<EntryView>
    decreases es.len(),
{
    if es.len() == 0 {
        Seq::empty()
    } else if es.last().expires_at > now {
        live(es.drop_last(), now).push(es.last())
    } else {
        live(es.drop_last(), now)
    }
}

/// The entries that records which came at `now` are kept as.
pub open spec fn stored(rs: Seq<RecordView>, now: u64) -> Seq<EntryView> {
    Seq::new(
        rs.len(),
        |i: int| EntryView { class: rs[i].class, expires_at: expiry(now, rs[i].ttl), data: rs[i].data },
    )
}

/// The records that the entries are served as at `now` under the name
/// `name`, each with the seconds that it has left.
pub open spec fn served(es: Seq<EntryView>, name: Seq<char>, now: u64) -> Seq<RecordView> {
    Seq::new(
        es.len(),
        |i: int|
            RecordView {
                name,
                class: es[i].class,
                ttl: remaining_ttl(es[i].expires_at, now),
                data: es[i].data,
            },
    )
}

/// What is kept for one question.
pub struct Slot {
    question: Question,
    entries: Vec<Entry>,
}

/// No two slots are for the same question.
pub closed spec fn slots_distinct(slots: Seq<Slot>) -> bool {
    forall|i: int, j: int|
        0 <= i < slots.len() && 0 <= j < slots.len() && i != j ==> question_key(
            (#[trigger] slots[i]).question@,
        ) != question_key((#[trigger] slots[j]).question@)
}

/// Where among the slots the one for `key` is.
pub closed spec fn slot_index(slots: Seq<Slot>, key: QuestionKey) -> Option<int> {
    if exists|i: int| 0 <= i < slots.len() && question_key((#[trigger] slots[i]).question@) == key {
        Some(
            choose|i: int|
                0 <= i < slots.len() && question_key((#[trigger] slots[i]).question@) == key,
        )
    } else {
        None
    }
}

/// With distinct slots a key is where it is found.
proof fn lemma_slot_found(slots: Seq<Slot>, key: QuestionKey, i: int)
    requires
        slots_distinct(slots),
        0 <= i < slots.len(),
        question_key(slots[i].question@) == key,
    ensures
        slot_index(slots, key) == Some(i),
{
    let j = slot_index(slots, key).unwrap();
    if j != i {
        assert(question_key(slots[j].question@) == key);
    }
}

/// What the slots hold for `key`.
pub closed spec fn slots_lookup(slots: Seq<Slot>, key: QuestionKey) -> Option<Seq<EntryView>> {
    match slot_index(slots, key) {
        Some(i) => Some(entry_views(slots[i].entries@)),
        None => None,
    }
}

/// The seconds that are left at `now` until `expires_at`.
pub fn seconds_left(expires_at: u64, now: u64) -> (r: u32)
    ensures
        r == remaining_ttl(expires_at, now),
{
    if expires_at <= now {
        0
    } else {
        let secs: u64 = (expires_at - now) / MILLIS;
        if secs > u32::MAX as u64 {
            u32::MAX
        } else {
            secs as u32
        }
    }
}

/// The moment at which a record that came at `now` with `ttl` seconds to
/// live expires.
pub fn expires(now: u64, ttl: u32) -> (r: u64)
    ensures
        r == expiry(now, ttl),
{
    let span: u64 = ttl as u64 * MILLIS;
    if now > u64::MAX - span {
        u64::MAX
    } else {
        now + span
    }
}

/// Where the slot for the question is.
fn find_slot(slots: &Vec<Slot>, question: &Question) -> (r: Option<usize>)
    requires
        slots_distinct(slots@),
    ensures
        match r {
            Some(i) => i < slots@.len() && slot_index(slots@, question_key(question@)) == Some(
                i as int,
            ),
            None => slot_index(slots@, question_key(question@)) is None,
        },
{
    let mut i: usize = 0;
    while i < slots.len()
        invariant
            i <= slots@.len(),
            slots_distinct(slots@),
            forall|j: int|
                0 <= j < i ==> question_key((#[trigger] slots@[j]).question@) != question_key(
                    question@,
                ),
        decreases slots@.len() - i,
    {
        if slots[i].question.same_as(question) {
            proof {
                lemma_slot_found(slots@, question_key(question@), i as int);
            }
            return Some(i);
        }
        i += 1;
    }
    None
}

/// The response cache.
pub struct Cache {
    slots: Vec<Slot>,
}

impl Cache {
    #[verifier::type_invariant]
    spec fn distinct(&self) -> bool {
        slots_distinct(self.slots@)
    }

    /// The entries that are kept for the question with this key, if any.
    pub closed spec fn entries(&self, key: QuestionKey) -> Option<Seq<EntryView>> {
        slots_lookup(self.slots@, key)
    }

    /// An empty cache.
    pub fn new() -> (r: Self)
        ensures
            forall|key: QuestionKey| r.entries(key) is None,
    {
        let r = Cache { slots: Vec::new() };
        assert forall|key: QuestionKey| r.entries(key) is None by {
            assert(slot_index(r.slots@, key) is None);
        }
        r
    }

    /// The questions that have entries, by their keys.
    pub open spec fn keys(&self) -> Set<QuestionKey> {
        Set::new(|key: QuestionKey| self.entries(key) is Some)
    }

    /// How many questions have entries.
    pub fn len(&self) -> (n: usize)
        ensures
            self.keys().finite(),
            n == self.keys().len(),
    {
        proof {
            use_type_invariant(self);
            let slots = self.slots@;
            let ks = Seq::new(slots.len(), |i: int| question_key(slots[i].question@));
            assert(ks.no_duplicates()) by {
                assert forall|i: int, j: int|
                    0 <= i < ks.len() && 0 <= j < ks.len() && i != j implies ks[i] != ks[j] by {
                    assert(question_key(slots[i].question@) != question_key(slots[j].question@));
                }
            }
            assert(ks.to_set() =~= self.keys()) by {
                assert forall|key: QuestionKey| ks.to_set().contains(key) == self.keys().contains(
                    key,
                ) by {
                    if ks.contains(key) {
                        let i = choose|i: int| 0 <= i < ks.len() && ks[i] == key;
                        lemma_slot_found(slots, key, i);
                    }
                    if slot_index(slots, key) is Some {
                        let i = slot_index(slots, key).unwrap();
                        lemma_slot_is(slots, key, i);
                        assert(ks[i] == key);
                    }
                }
            }
            ks.unique_seq_to_set();
            vstd::seq_lib::seq_to_set_is_finite(ks);
        }
        self.slots.len()
    }

    /// The records that are kept for the question and have not expired at
    /// `now`, under the question's name and with the seconds that each has
    /// left. Entries that have expired are dropped; where none is left, the
    /// question has no entries any more and the answer is `None`.
    pub fn get(&mut self, question: &Question, now: u64) -> (r: Option<Vec<Record>>)
        ensures
            match old(self).entries(question_key(question@)) {
                Some(es) => if live(es, now).len() == 0 {
                    &&& r is None
                    &&& final(self).entries(question_key(question@)) is None
                } else {
                    &&& r matches Some(records)
                    &&& record_views(records@) == served(live(es, now), question@.name, now)
                    &&& final(self).entries(question_key(question@)) == Some(live(es, now))
                },
                None => {
                    &&& r is None
                    &&& final(self).entries(question_key(question@)) is None
                },
            },
            forall|key: QuestionKey|
                key != question_key(question@) ==> final(self).entries(key) == old(self).entries(
                    key,
                ),
    {
        let mut taken = Cache::new();
        core::mem::swap(self, &mut taken);
        proof {
            use_type_invariant(&taken);
        }
        let Cache { slots } = taken;
        let mut slots = slots;
        let ghost before = slots@;
        let ghost key = question_key(question@);
        let i: usize = match find_slot(&slots, question) {
            Some(i) => i,
            None => {
                *self = Cache { slots };
                return None;
            },
        };
        let slot = slots.remove(i);
        let Slot { question: owner, entries } = slot;
        let ghost es = entry_views(entries@);
        let mut kept: Vec<Entry> = Vec::new();
        let mut out: Vec<Record> = Vec::new();
        let mut j: usize = 0;
        proof {
            assert(es.subrange(0, 0) =~= Seq::<EntryView>::empty());
            assert(entry_views(kept@) =~= Seq::<EntryView>::empty());
            assert(record_views(out@) =~= served(Seq::<EntryView>::empty(), question@.name, now));
        }
        while j < entries.len()
            invariant
                j <= entries@.len(),
                es == entry_views(entries@),
                kept@.len() == out@.len(),
                entry_views(kept@) == live(es.subrange(0, j as int), now),
                record_views(out@) == served(entry_views(kept@), question@.name, now),
            decreases entries@.len() - j,
        {
            proof {
                let next = es.subrange(0, j + 1);
                assert(next.drop_last() =~= es.subrange(0, j as int));
                assert(next.last() == entries@[j as int]@);
            }
            if entries[j].expires_at > now {
                let entry = Entry {
                    class: entries[j].class,
                    expires_at: entries[j].expires_at,
                    data: entries[j].data.copy(),
                };
                let record = Record {
                    cname: question.cname.clone(),
                    class: entries[j].class,
                    ttl: seconds_left(entries[j].expires_at, now),
                    data: entries[j].data.copy(),
                };
                proof {
                    assert(entry_views(kept@.push(entry)) =~= entry_views(kept@).push(entry@));
                    let grown = record_views(out@.push(record));
                    let want = served(entry_views(kept@).push(entry@), question@.name, now);
                    assert(grown.len() == want.len());
                    assert forall|k: int| 0 <= k < grown.len() implies grown[k] == want[k] by {
                        if k < out@.len() {
                            assert(out@.push(record)[k] == out@[k]);
                            assert(record_views(out@)[k] == out@[k]@);
                            assert(served(entry_views(kept@), question@.name, now)[k] == want[k]);
                        } else {
                            assert(out@.push(record)[k] == record);
                        }
                    }
                    assert(grown =~= want);
                }
                kept.push(entry);
                out.push(record);
            }
            j += 1;
        }
        proof {
            assert(es.subrange(0, entries@.len() as int) =~= es);
            lemma_slot_is(before, key, i as int);
        }
        if kept.len() == 0 {
            proof {
                lemma_removed(before, slots@, i as int);
            }
            *self = Cache { slots };
            proof {
                assert forall|k: QuestionKey| k != key implies self.entries(k) == slots_lookup(
                    before,
                    k,
                ) by {
                    lemma_removed_lookup(before, slots@, i as int, k);
                }
                lemma_removed_lookup(before, slots@, i as int, key);
            }
            None
        } else {
            let fresh = Slot { question: owner, entries: kept };
            slots.insert(i, fresh);
            proof {
                assert(slots@ =~= before.update(i as int, fresh));
                lemma_replaced(before, slots@, i as int);
            }
            *self = Cache { slots };
            proof {
                assert forall|k: QuestionKey| k != key implies self.entries(k) == slots_lookup(
                    before,
                    k,
                ) by {
                    lemma_replaced_lookup(before, slots@, i as int, k);
                }
                lemma_replaced_lookup(before, slots@, i as int, key);
            }
            Some(out)
        }
    }

    /// Drops what is kept for the question.
    pub fn evict(&mut self, question: &Question)
        ensures
            final(self).entries(question_key(question@)) is None,
            forall|key: QuestionKey|
                key != question_key(question@) ==> final(self).entries(key) == old(self).entries(
                    key,
                ),
    {
        let none: Vec<Record> = Vec::new();
        self.put(question, &none, 0);
    }

    /// Keeps the records as the answer to the question, each until `now`
    /// plus its time to live. What was kept for the question before is
    /// gone; with no records the question has no entries afterwards.
    pub fn put(&mut self, question: &Question, records: &Vec<Record>, now: u64)
        ensures
            final(self).entries(question_key(question@)) == if records@.len() == 0 {
                None
            } else {
                Some(stored(record_views(records@), now))
            },
            forall|key: QuestionKey|
                key != question_key(question@) ==> final(self).entries(key) == old(self).entries(
                    key,
                ),
    {
        let mut taken = Cache::new();
        core::mem::swap(self, &mut taken);
        proof {
            use_type_invariant(&taken);
        }
        let Cache { slots } = taken;
        let mut slots = slots;
        let ghost first = slots@;
        let ghost key = question_key(question@);
        let found = find_slot(&slots, question);
        match found {
            Some(i) => {
                let gone = slots.remove(i);
                proof {
                    lemma_slot_is(first, key, i as int);
                    lemma_removed(first, slots@, i as int);
                    assert forall|k: QuestionKey| k != key implies slots_lookup(slots@, k)
                        == slots_lookup(first, k) by {
                        lemma_removed_lookup(first, slots@, i as int, k);
                    }
                    lemma_removed_lookup(first, slots@, i as int, key);
                }
            },
            None => {},
        }
        let ghost before = slots@;
        if records.len() == 0 {
            *self = Cache { slots };
            return ;
        }
        let mut entries: Vec<Entry> = Vec::new();
        let mut j: usize = 0;
        let ghost want = stored(record_views(records@), now);
        while j < records.len()
            invariant
                j <= records@.len(),
                want == stored(record_views(records@), now),
                entries@.len() == j,
                entry_views(entries@) == want.subrange(0, j as int),
            decreases records@.len() - j,
        {
            let entry = Entry {
                class: records[j].class,
                expires_at: expires(now, records[j].ttl),
                data: records[j].data.copy(),
            };
            proof {
                assert(record_views(records@)[j as int] == records@[j as int]@);
                assert(entry@ == want[j as int]);
                let grown = entry_views(entries@.push(entry));
                let next = want.subrange(0, j + 1);
                assert forall|k: int| 0 <= k < grown.len() implies grown[k] == next[k] by {
                    if k < j {
                        assert(entries@.push(entry)[k] == entries@[k]);
                        assert(entry_views(entries@)[k] == entries@[k]@);
                        assert(want.subrange(0, j as int)[k] == want[k]);
                    } else {
                        assert(entries@.push(entry)[k] == entry);
                    }
                }
                assert(grown =~= next);
            }
            entries.push(entry);
            j += 1;
        }
        proof {
            assert(want.subrange(0, records@.len() as int) =~= want);
        }
        let fresh = Slot { question: question.copy(), entries };
        slots.push(fresh);
        proof {
            lemma_pushed(before, slots@, key);
        }
        *self = Cache { slots };
        proof {
            assert forall|k: QuestionKey| k != key implies self.entries(k) == slots_lookup(
                before,
                k,
            ) by {
                lemma_pushed_lookup(before, slots@, k);
            }
            lemma_pushed_lookup(before, slots@, key);
        }
    }
}

/// What `slot_index` finds is a slot for the key.
proof fn lemma_slot_is(slots: Seq<Slot>, key: QuestionKey, i: int)
    requires
        slot_index(slots, key) == Some(i),
    ensures
        0 <= i < slots.len(),
        question_key(slots[i].question@) == key,
{
}

/// Slots stay distinct when one is taken out.
proof fn lemma_removed(before: Seq<Slot>, after: Seq<Slot>, i: int)
    requires
        slots_distinct(before),
        0 <= i < before.len(),
        after == before.remove(i),
    ensures
        slots_distinct(after),
{
    assert forall|a: int, b: int|
        0 <= a < after.len() && 0 <= b < after.len() && a != b implies question_key(
        (#[trigger] after[a]).question@,
    ) != question_key((#[trigger] after[b]).question@) by {
        let a0 = if a < i { a } else { a + 1 };
        let b0 = if b < i { b } else { b + 1 };
        assert(after[a] == before[a0]);
        assert(after[b] == before[b0]);
    }
}

/// What is found once a slot has been taken out: nothing for its key, and
/// for every other key what was there.
proof fn lemma_removed_lookup(before: Seq<Slot>, after: Seq<Slot>, i: int, key: QuestionKey)
    requires
        slots_distinct(before),
        0 <= i < before.len(),
        after == before.remove(i),
    ensures
        slots_distinct(after),
        slots_lookup(after, key) == if key == question_key(before[i].question@) {
            None
        } else {
            slots_lookup(before, key)
        },
{
    lemma_removed(before, after, i);
    if key == question_key(before[i].question@) {
        assert forall|a: int| 0 <= a < after.len() implies question_key(
            (#[trigger] after[a]).question@,
        ) != key by {
            let a0 = if a < i { a } else { a + 1 };
            assert(after[a] == before[a0]);
        }
    } else {
        match slot_index(before, key) {
            Some(j) => {
                lemma_slot_is(before, key, j);
                let j1 = if j < i { j } else { j - 1 };
                assert(after[j1] == before[j]);
                lemma_slot_found(after, key, j1);
            },
            None => {
                assert forall|a: int| 0 <= a < after.len() implies question_key(
                    (#[trigger] after[a]).question@,
                ) != key by {
                    let a0 = if a < i { a } else { a + 1 };
                    assert(after[a] == before[a0]);
                    assert(question_key(before[a0].question@) != key);
                }
            },
        }
    }
}

/// Slots stay distinct when one is replaced by a slot for the same question.
proof fn lemma_replaced(before: Seq<Slot>, after: Seq<Slot>, i: int)
    requires
        slots_distinct(before),
        0 <= i < before.len(),
        after.len() == before.len(),
        forall|j: int| 0 <= j < before.len() && j != i ==> #[trigger] after[j] == before[j],
        after[i].question@ == before[i].question@,
    ensures
        slots_distinct(after),
{
    assert forall|a: int, b: int|
        0 <= a < after.len() && 0 <= b < after.len() && a != b implies question_key(
        (#[trigger] after[a]).question@,
    ) != question_key((#[trigger] after[b]).question@) by {
        assert(after[a].question@ == before[a].question@);
        assert(after[b].question@ == before[b].question@);
    }
}

/// What is found once a slot has been replaced: its new entries for its
/// key, and for every other key what was there.
proof fn lemma_replaced_lookup(before: Seq<Slot>, after: Seq<Slot>, i: int, key: QuestionKey)
    requires
        slots_distinct(before),
        slots_distinct(after),
        0 <= i < before.len(),
        after.len() == before.len(),
        forall|j: int| 0 <= j < before.len() && j != i ==> #[trigger] after[j] == before[j],
        after[i].question@ == before[i].question@,
    ensures
        slots_lookup(after, key) == if key == question_key(before[i].question@) {
            Some(entry_views(after[i].entries@))
        } else {
            slots_lookup(before, key)
        },
{
    if key == question_key(before[i].question@) {
        lemma_slot_found(after, key, i);
    } else {
        match slot_index(before, key) {
            Some(j) => {
                lemma_slot_is(before, key, j);
                assert(after[j] == before[j]);
                lemma_slot_found(after, key, j);
            },
            None => {
                assert forall|a: int| 0 <= a < after.len() implies question_key(
                    (#[trigger] after[a]).question@,
                ) != key by {
                    assert(after[a].question@ == before[a].question@);
                    assert(question_key(before[a].question@) != key);
                }
            },
        }
    }
}

/// Slots stay distinct when a slot for a question that had none is added.
proof fn lemma_pushed(before: Seq<Slot>, after: Seq<Slot>, key: QuestionKey)
    requires
        slots_distinct(before),
        slot_index(before, key) is None,
        after.len() == before.len() + 1,
        forall|j: int| 0 <= j < before.len() ==> #[trigger] after[j] == before[j],
        question_key(after.last().question@) == key,
    ensures
        slots_distinct(after),
{
    assert forall|a: int, b: int|
        0 <= a < after.len() && 0 <= b < after.len() && a != b implies question_key(
        (#[trigger] after[a]).question@,
    ) != question_key((#[trigger] after[b]).question@) by {
        if a < before.len() {
            assert(after[a] == before[a]);
            assert(question_key(before[a].question@) != key);
        }
        if b < before.len() {
            assert(after[b] == before[b]);
            assert(question_key(before[b].question@) != key);
        }
    }
}

/// What is found once a slot has been added: its entries for its key, and
/// for every other key what was there.
proof fn lemma_pushed_lookup(before: Seq<Slot>, after: Seq<Slot>, key: QuestionKey)
    requires
        slots_distinct(before),
        slots_distinct(after),
        after.len() == before.len() + 1,
        forall|j: int| 0 <= j < before.len() ==> #[trigger] after[j] == before[j],
    ensures
        slots_lookup(after, key) == if key == question_key(after.last().question@) {
            Some(entry_views(after.last().entries@))
        } else {
            slots_lookup(before, key)
        },
{
    let n = before.len() as int;
    if key == question_key(after.last().question@) {
        lemma_slot_found(after, key, n);
    } else {
        match slot_index(before, key) {
            Some(j) => {
                lemma_slot_is(before, key, j);
                assert(after[j] == before[j]);
                lemma_slot_found(after, key, j);
            },
            None => {
                assert forall|a: int| 0 <= a < after.len() implies question_key(
                    (#[trigger] after[a]).question@,
                ) != key by {
                    if a < n {
                        assert(after[a] == before[a]);
                        assert(question_key(before[a].question@) != key);
                    }
                }
            },
        }
    }
}

} // verus!
