//! Sequences of key-value records and the map that replaying them yields.

use vstd::prelude::*;
use crate::order::{key_lt, lemma_key_lt_asymmetric, lemma_key_lt_transitive};

verus! {

/// A record as the contracts see it: the key's bytes and the value's bytes.
pub type Record = (Seq<u8>, Seq<u8>);

/// The records held by a vector of key-value pairs.
pub open spec fn pairs_view(pairs: Seq<(Vec<u8>, Vec<u8>)>) -> Seq<Record> {
    pairs.map_values(|p: (Vec<u8>, Vec<u8>)| (p.0@, p.1@))
}

/// The map obtained by applying the records in order: a later record for a
/// key replaces an earlier one. Tombstones stay in the map as empty values.
pub open spec fn replay(records: Seq<Record>) -> Map<Seq<u8>, Seq<u8>>
    decreases records.len(),
{
    if records.len() == 0 {
        Map::empty()
    } else {
        replay(records.drop_last()).insert(records.last().0, records.last().1)
    }
}

/// The keys come in strictly increasing order, so no key occurs twice.
pub open spec fn strictly_sorted(records: Seq<Record>) -> bool {
    forall|i: int, j: int| 0 <= i < j < records.len() ==> key_lt(records[i].0, records[j].0)
}

/// The key occurs in some record.
pub open spec fn has_key(records: Seq<Record>, key: Seq<u8>) -> bool {
    exists|i: int| 0 <= i < records.len() && records[i].0 == key
}

/// What a reader sees of a stored value: a tombstone reads as absent.
pub open spec fn visible(value: Seq<u8>) -> Option<Seq<u8>> {
    if value.len() == 0 {
        None
    } else {
        Some(value)
    }
}

/// What a reader sees of a key in a map that may hold tombstones.
pub open spec fn read_map(m: Map<Seq<u8>, Seq<u8>>, key: Seq<u8>) -> Option<Seq<u8>> {
    if m.contains_key(key) {
        visible(m[key])
    } else {
        None
    }
}

/// One more record at the end puts its value in its key's place.
pub proof fn lemma_replay_push(records: Seq<Record>, r: Record)
    ensures
        replay(records.push(r)) == replay(records).insert(r.0, r.1),
{
    assert(records.push(r).drop_last() =~= records);
}

/// The keys of the replayed map are the keys that occur in the records.
pub proof fn lemma_replay_domain(records: Seq<Record>, key: Seq<u8>)
    ensures
        replay(records).contains_key(key) <==> has_key(records, key),
    decreases records.len(),
{
    if records.len() > 0 {
        let front = records.drop_last();
        lemma_replay_domain(front, key);
        if has_key(front, key) {
            let i = choose|i: int| 0 <= i < front.len() && front[i].0 == key;
            assert(records[i].0 == key);
        }
        if records.last().0 == key {
            assert(records[records.len() - 1].0 == key);
        }
        if has_key(records, key) {
            let i = choose|i: int| 0 <= i < records.len() && records[i].0 == key;
            if i < records.len() - 1 {
                assert(front[i].0 == key);
            }
        }
    }
}

/// In a strictly sorted run, replaying gives each key the value stored with it.
pub proof fn lemma_replay_sorted_at(records: Seq<Record>, i: int)
    requires
        strictly_sorted(records),
        0 <= i < records.len(),
    ensures
        replay(records).contains_key(records[i].0),
        replay(records)[records[i].0] == records[i].1,
    decreases records.len(),
{
    let front = records.drop_last();
    if i < records.len() - 1 {
        assert(strictly_sorted(front));
        lemma_replay_sorted_at(front, i);
        lemma_key_lt_asymmetric(records[i].0, records.last().0);
    }
}

/// A key that sorts after every record of a run is not in it.
pub proof fn lemma_absent_when_bracketed(records: Seq<Record>, key: Seq<u8>, p: int)
    requires
        strictly_sorted(records),
        0 <= p <= records.len(),
        forall|i: int| 0 <= i < p ==> key_lt(records[i].0, key),
        p < records.len() ==> key_lt(key, records[p].0),
    ensures
        !has_key(records, key),
        !replay(records).contains_key(key),
{
    assert forall|i: int| 0 <= i < records.len() implies records[i].0 != key by {
        if i < p {
            lemma_key_lt_asymmetric(records[i].0, key);
        } else {
            if i > p {
                lemma_key_lt_transitive(key, records[p].0, records[i].0);
            }
            lemma_key_lt_asymmetric(key, records[i].0);
        }
    }
    lemma_replay_domain(records, key);
}

/// A strictly sorted run makes a map with as many keys as it has records.
pub proof fn lemma_replay_len(records: Seq<Record>)
    requires
        strictly_sorted(records),
    ensures
        replay(records).dom().finite(),
        replay(records).len() == records.len(),
    decreases records.len(),
{
    if records.len() > 0 {
        let front = records.drop_last();
        assert(strictly_sorted(front));
        lemma_replay_len(front);
        lemma_absent_when_bracketed(front, records.last().0, front.len() as int);
    }
}

/// Inserting a record at its sorted place adds it to the replayed map.
pub proof fn lemma_replay_insert_at(records: Seq<Record>, p: int, r: Record)
    requires
        strictly_sorted(records),
        0 <= p <= records.len(),
        forall|i: int| 0 <= i < p ==> key_lt(records[i].0, r.0),
        forall|i: int| p <= i < records.len() ==> key_lt(r.0, records[i].0),
    ensures
        strictly_sorted(records.insert(p, r)),
        replay(records.insert(p, r)) == replay(records).insert(r.0, r.1),
    decreases records.len() - p,
{
    let after = records.insert(p, r);
    assert forall|i: int, j: int| 0 <= i < j < after.len() implies key_lt(
        after[i].0,
        after[j].0,
    ) by {
        if j < p {
        } else if j == p {
        } else if i < p {
            lemma_key_lt_transitive(records[i].0, r.0, records[j - 1].0);
        } else if i == p {
        } else {
        }
    }
    if p == records.len() {
        assert(after =~= records.push(r));
        lemma_replay_push(records, r);
    } else {
        let front = records.drop_last();
        let last = records.last();
        assert(strictly_sorted(front));
        lemma_replay_insert_at(front, p, r);
        assert(after.drop_last() =~= front.insert(p, r));
        assert(after.last() == last);
        lemma_key_lt_asymmetric(r.0, last.0);
        assert(replay(after) =~= replay(records).insert(r.0, r.1));
    }
}

/// Replacing the value of a record of a run replaces it in the replayed map.
pub proof fn lemma_replay_update_at(records: Seq<Record>, p: int, value: Seq<u8>)
    requires
        strictly_sorted(records),
        0 <= p < records.len(),
    ensures
        strictly_sorted(records.update(p, (records[p].0, value))),
        replay(records.update(p, (records[p].0, value))) == replay(records).insert(
            records[p].0,
            value,
        ),
    decreases records.len(),
{
    let r = (records[p].0, value);
    let after = records.update(p, r);
    assert(strictly_sorted(after));
    let front = records.drop_last();
    if p == records.len() - 1 {
        assert(after.drop_last() =~= front);
        assert(replay(after) =~= replay(records).insert(r.0, r.1));
    } else {
        assert(strictly_sorted(front));
        lemma_replay_update_at(front, p, value);
        assert(after.drop_last() =~= front.update(p, r));
        lemma_key_lt_asymmetric(r.0, records.last().0);
        assert(replay(after) =~= replay(records).insert(r.0, r.1));
    }
}

/// Taking a record out of a run takes its key out of the replayed map.
pub proof fn lemma_replay_remove_at(records: Seq<Record>, p: int)
    requires
        strictly_sorted(records),
        0 <= p < records.len(),
    ensures
        strictly_sorted(records.remove(p)),
        replay(records.remove(p)) == replay(records).remove(records[p].0),
    decreases records.len(),
{
    let after = records.remove(p);
    assert(strictly_sorted(after));
    let front = records.drop_last();
    assert(strictly_sorted(front));
    if p == records.len() - 1 {
        assert(after =~= front);
        lemma_absent_when_bracketed(front, records[p].0, front.len() as int);
        assert(replay(after) =~= replay(records).remove(records[p].0));
    } else {
        lemma_replay_remove_at(front, p);
        assert(after.drop_last() =~= front.remove(p));
        assert(after.last() == records.last());
        lemma_key_lt_asymmetric(records[p].0, records.last().0);
        assert(replay(after) =~= replay(records).remove(records[p].0));
    }
}

/// Two strictly sorted runs with the same replayed map are the same run.
pub proof fn lemma_sorted_run_unique(a: Seq<Record>, b: Seq<Record>)
    requires
        strictly_sorted(a),
        strictly_sorted(b),
        replay(a) == replay(b),
    ensures
        a == b,
    decreases a.len(),
{
    if a.len() == 0 {
        if b.len() > 0 {
            lemma_replay_sorted_at(b, 0);
        }
        assert(a =~= b);
    } else if b.len() == 0 {
        lemma_replay_sorted_at(a, 0);
    } else {
        let la = a.last();
        let lb = b.last();
        lemma_replay_sorted_at(a, a.len() - 1);
        lemma_replay_sorted_at(b, b.len() - 1);
        lemma_replay_domain(a, lb.0);
        lemma_replay_domain(b, la.0);
        let i = choose|i: int| 0 <= i < a.len() && a[i].0 == lb.0;
        let j = choose|j: int| 0 <= j < b.len() && b[j].0 == la.0;
        if i < a.len() - 1 {
            if j < b.len() - 1 {
                lemma_key_lt_transitive(a[i].0, la.0, lb.0);
                lemma_key_lt_asymmetric(a[i].0, lb.0);
            }
        }
        assert(la.0 == lb.0);
        lemma_replay_remove_at(a, a.len() - 1);
        lemma_replay_remove_at(b, b.len() - 1);
        assert(a.remove(a.len() - 1) =~= a.drop_last());
        assert(b.remove(b.len() - 1) =~= b.drop_last());
        lemma_sorted_run_unique(a.drop_last(), b.drop_last());
        assert(a =~= a.drop_last().push(la));
        assert(b =~= b.drop_last().push(lb));
    }
}

} // verus!
