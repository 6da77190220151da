//! Records that are found by a key, kept in the order in which they came.

use vstd::prelude::*;
use vstd::string::*;

verus! {

/// A record with a key of text.
pub trait Keyed {
    /// The key, as the sequence of its characters.
    spec fn key_text(&self) -> Seq<char>;

    fn key_ref(&self) -> (k: &String)
        ensures
            k@ == self.key_text(),
    ;
}

/// The position of the first record with the given key.
pub open spec fn find<T: Keyed>(records: Seq<T>, key: Seq<char>) -> Option<int>
    decreases records.len(),
{
    if records.len() == 0 {
        None
    } else {
        match find(records.drop_last(), key) {
            Some(i) => Some(i),
            None => if records.last().key_text() == key {
                Some(records.len() - 1)
            } else {
                None
            },
        }
    }
}

/// Whether some record has the given key.
pub open spec fn contains_key<T: Keyed>(records: Seq<T>, key: Seq<char>) -> bool {
    find(records, key) is Some
}

/// The list after a record was put under its key: in the place of the first
/// record that had the key, or at the end where none had it.
pub open spec fn upserted<T: Keyed>(records: Seq<T>, record: T) -> Seq<T> {
    match find(records, record.key_text()) {
        Some(i) => records.update(i, record),
        None => records.push(record),
    }
}

/// No two records share a key.
pub open spec fn distinct<T: Keyed>(records: Seq<T>) -> bool {
    forall|i: int, j: int|
        0 <= i < j < records.len() ==> records[i].key_text() != records[j].key_text()
}

/// `find` gives the least position that holds the key, and `None` exactly
/// when no position does.
pub proof fn lemma_find<T: Keyed>(records: Seq<T>, key: Seq<char>)
    ensures
        match find(records, key) {
            Some(i) => 0 <= i < records.len() && records[i].key_text() == key
                && forall|j: int| 0 <= j < i ==> records[j].key_text() != key,
            None => forall|j: int| 0 <= j < records.len() ==> records[j].key_text() != key,
        },
    decreases records.len(),
{
    if records.len() > 0 {
        let front = records.drop_last();
        lemma_find(front, key);
        assert(forall|j: int| 0 <= j < front.len() ==> front[j] == records[j]);
        match find(front, key) {
            Some(i) => {
                assert(front[i] == records[i]);
                assert forall|j: int| 0 <= j < i implies records[j].key_text() != key by {
                    assert(front[j] == records[j]);
                }
            },
            None => {
                assert forall|j: int| 0 <= j < front.len() implies records[j].key_text()
                    != key by {
                    assert(front[j] == records[j]);
                }
            },
        }
    }
}

/// A position that holds the key, with none before it that does, is what
/// `find` gives.
pub proof fn lemma_found<T: Keyed>(records: Seq<T>, key: Seq<char>, i: int)
    requires
        0 <= i < records.len(),
        records[i].key_text() == key,
        forall|j: int| 0 <= j < i ==> records[j].key_text() != key,
    ensures
        find(records, key) == Some(i),
{
    lemma_find(records, key);
}

/// Putting a record under its key keeps the keys distinct.
pub proof fn lemma_upserted_distinct<T: Keyed>(records: Seq<T>, record: T)
    requires
        distinct(records),
    ensures
        distinct(upserted(records, record)),
{
    lemma_find(records, record.key_text());
}

/// What `find` gives after a record was put under its key: the record's
/// own place for its key, and the old answer for any other key.
pub proof fn lemma_find_upserted<T: Keyed>(records: Seq<T>, record: T, key: Seq<char>)
    ensures
        find(upserted(records, record), key) == if key == record.key_text() {
            match find(records, key) {
                Some(i) => Some(i),
                None => Some(records.len() as int),
            }
        } else {
            find(records, key)
        },
{
    let after = upserted(records, record);
    lemma_find(records, record.key_text());
    lemma_find(records, key);
    lemma_find(after, key);
    match find(records, record.key_text()) {
        Some(p) => {
            assert(forall|j: int| 0 <= j < records.len() && j != p ==> after[j] == records[j]);
            assert(after[p] == record);
            if key == record.key_text() {
                assert forall|j: int| 0 <= j < p implies after[j].key_text() != key by {
                    assert(after[j] == records[j]);
                }
                lemma_found(after, key, p);
            } else {
                match find(records, key) {
                    Some(i) => {
                        assert(i != p);
                        assert(after[i] == records[i]);
                        assert forall|j: int| 0 <= j < i implies after[j].key_text() != key by {
                            if j != p {
                                assert(after[j] == records[j]);
                            }
                        }
                        lemma_found(after, key, i);
                    },
                    None => {
                        assert forall|j: int| 0 <= j < after.len() implies after[j].key_text()
                            != key by {
                            if j != p {
                                assert(after[j] == records[j]);
                            }
                        }
                    },
                }
            }
        },
        None => {
            let n = records.len() as int;
            assert(forall|j: int| 0 <= j < n ==> after[j] == records[j]);
            assert(after[n] == record);
            if key == record.key_text() {
                assert forall|j: int| 0 <= j < n implies after[j].key_text() != key by {
                    assert(after[j] == records[j]);
                }
                lemma_found(after, key, n);
            } else {
                match find(records, key) {
                    Some(i) => {
                        assert(after[i] == records[i]);
                        assert forall|j: int| 0 <= j < i implies after[j].key_text() != key by {
                            assert(after[j] == records[j]);
                        }
                        lemma_found(after, key, i);
                    },
                    None => {
                        assert forall|j: int| 0 <= j < after.len() implies after[j].key_text()
                            != key by {
                            if j < n {
                                assert(after[j] == records[j]);
                            }
                        }
                    },
                }
            }
        },
    }
}

/// Upsert is idempotent in the key: where the keys are distinct and two
/// records share a key, putting the first and then the second leaves as
/// many records as putting the first alone, and exactly one of them has
/// that key: the second record.
pub proof fn lemma_upserted_twice<T: Keyed>(records: Seq<T>, first: T, second: T)
    requires
        distinct(records),
        first.key_text() == second.key_text(),
    ensures
        ({
            let once = upserted(records, first);
            let twice = upserted(once, second);
            &&& twice.len() == once.len()
            &&& distinct(twice)
            &&& find(twice, second.key_text()) == find(once, first.key_text())
            &&& find(twice, second.key_text()) matches Some(i) && twice[i] == second
            &&& forall|j: int|
                0 <= j < twice.len() && twice[j].key_text() == second.key_text() ==> twice[j]
                    == second
        }),
{
    let once = upserted(records, first);
    let twice = upserted(once, second);
    lemma_upserted_distinct(records, first);
    lemma_upserted_distinct(once, second);
    lemma_find_upserted(records, first, first.key_text());
    lemma_find_upserted(once, second, second.key_text());
    lemma_find(once, second.key_text());
    lemma_find(twice, second.key_text());
    let i = find(once, first.key_text())->0;
    assert(twice[i] == second);
    assert forall|j: int|
        0 <= j < twice.len() && twice[j].key_text() == second.key_text() implies twice[j]
        == second by {
        if j < i {
            assert(twice[j].key_text() != twice[i].key_text());
        } else if i < j {
            assert(twice[i].key_text() != twice[j].key_text());
        }
    }
}

/// A list with one more value holds what it held and that value.
pub proof fn lemma_insert_multiset<T>(list: Seq<T>, at: int, value: T)
    requires
        0 <= at <= list.len(),
    ensures
        list.insert(at, value).to_multiset() == list.to_multiset().insert(value),
{
    let longer = list.insert(at, value);
    assert(longer.remove(at) =~= list);
    assert(longer[at] == value);
    vstd::seq_lib::to_multiset_remove(longer, at);
    longer.to_multiset_ensures();
    assert(longer.contains(value));
    assert(longer.to_multiset().count(value) > 0);
    assert(longer.to_multiset() =~= list.to_multiset().insert(value));
}

/// The first record with the given key.
pub open spec fn record_at<T: Keyed>(records: Seq<T>, key: Seq<char>) -> Option<T> {
    match find(records, key) {
        Some(i) => Some(records[i]),
        None => None,
    }
}

/// The list after each record of another list was put under its key, in
/// that list's order.
pub open spec fn upserted_all<T: Keyed>(records: Seq<T>, list: Seq<T>) -> Seq<T>
    decreases list.len(),
{
    if list.len() == 0 {
        records
    } else {
        upserted(upserted_all(records, list.drop_last()), list.last())
    }
}

/// Whether two lists hold the same records, in whatever order.
pub open spec fn same_records<T>(a: Seq<T>, b: Seq<T>) -> bool {
    &&& forall|i: int| 0 <= i < a.len() ==> b.contains(#[trigger] a[i])
    &&& forall|j: int| 0 <= j < b.len() ==> a.contains(#[trigger] b[j])
}

/// After a record was put under its key, it is the record under that key,
/// and every other key has the record that it had.
pub proof fn lemma_record_upserted<T: Keyed>(records: Seq<T>, record: T, key: Seq<char>)
    ensures
        record_at(upserted(records, record), key) == if key == record.key_text() {
            Some(record)
        } else {
            record_at(records, key)
        },
{
    lemma_find_upserted(records, record, key);
    lemma_find(records, record.key_text());
    lemma_find(records, key);
}

/// After the records of a list with distinct keys were put under their
/// keys, a key that the list has holds the list's record, and every other
/// key has the record that it had.
pub proof fn lemma_record_upserted_all<T: Keyed>(records: Seq<T>, list: Seq<T>, key: Seq<char>)
    requires
        distinct(list),
    ensures
        record_at(upserted_all(records, list), key) == match record_at(list, key) {
            Some(r) => Some(r),
            None => record_at(records, key),
        },
    decreases list.len(),
{
    if list.len() > 0 {
        let front = list.drop_last();
        assert(forall|i: int| 0 <= i < front.len() ==> front[i] == list[i]);
        lemma_record_upserted_all(records, front, key);
        lemma_record_upserted(upserted_all(records, front), list.last(), key);
        lemma_find(front, key);
        lemma_find(list, key);
        if key == list.last().key_text() {
            if let Some(i) = find(front, key) {
                assert(list[i].key_text() == list[list.len() - 1].key_text());
            }
        }
    }
}

/// Two lists with distinct keys that hold the same records have the same
/// record under every key.
pub proof fn lemma_same_records<T: Keyed>(a: Seq<T>, b: Seq<T>, key: Seq<char>)
    requires
        distinct(a),
        distinct(b),
        same_records(a, b),
    ensures
        record_at(a, key) == record_at(b, key),
{
    lemma_find(a, key);
    lemma_find(b, key);
    match find(a, key) {
        Some(i) => {
            assert(b.contains(a[i]));
            let j = choose|j: int| 0 <= j < b.len() && b[j] == a[i];
            match find(b, key) {
                Some(k) => {
                    if k < j {
                        assert(b[k].key_text() != b[j].key_text());
                    } else if j < k {
                        assert(b[j].key_text() != b[k].key_text());
                    }
                },
                None => {
                    assert(b[j].key_text() == key);
                },
            }
        },
        None => {
            if let Some(k) = find(b, key) {
                assert(a.contains(b[k]));
                let i = choose|i: int| 0 <= i < a.len() && a[i] == b[k];
                assert(a[i].key_text() == key);
            }
        },
    }
}

/// The order of a list with distinct keys makes no difference to what is
/// held under each key once its records were put under their keys.
pub proof fn lemma_upserted_all_any_order<T: Keyed>(
    records: Seq<T>,
    a: Seq<T>,
    b: Seq<T>,
    key: Seq<char>,
)
    requires
        distinct(a),
        distinct(b),
        same_records(a, b),
    ensures
        record_at(upserted_all(records, a), key) == record_at(upserted_all(records, b), key),
{
    lemma_record_upserted_all(records, a, key);
    lemma_record_upserted_all(records, b, key);
    lemma_same_records(a, b, key);
}

/// Finds the first record with the given key.
pub fn locate<T: Keyed>(records: &Vec<T>, key: &str) -> (r: Option<usize>)
    ensures
        match r {
            Some(i) => find(records@, key@) == Some(i as int),
            None => find(records@, key@) is None,
        },
{
    let wanted = key.to_owned();
    let mut i: usize = 0;
    while i < records.len()
        invariant
            i <= records.len(),
            wanted@ == key@,
            forall|j: int| 0 <= j < i ==> records@[j].key_text() != key@,
        decreases records.len() - i,
    {
        if *records[i].key_ref() == wanted {
            proof {
                lemma_found(records@, key@, i as int);
            }
            return Some(i);
        }
        i += 1;
    }
    proof {
        lemma_find(records@, key@);
    }
    None
}

/// Puts a record under its key, and says whether the key is new.
pub fn upsert<T: Keyed>(records: &mut Vec<T>, record: T) -> (created: bool)
    ensures
        final(records)@ == upserted(old(records)@, record),
        created == !contains_key(old(records)@, record.key_text()),
{
    match locate(records, record.key_ref().as_str()) {
        Some(i) => {
            proof {
                lemma_find(records@, record.key_text());
            }
            records.set(i, record);
            false
        },
        None => {
            records.push(record);
            true
        },
    }
}

} // verus!
