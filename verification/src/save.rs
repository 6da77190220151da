//! Storing the catalogue in a directory under version control: which
//! files a save writes, what its commit says, and what a load puts back.

use vstd::prelude::*;
use vstd::string::*;
use crate::common::{Blob, Person};
use crate::item::Item;
use crate::keyed::{contains_key, distinct, find, lemma_find, lemma_find_upserted, lemma_found, lemma_insert_multiset, lemma_upserted_all_any_order, locate, record_at, same_records, upserted, upserted_all, Keyed};
use crate::order::{arranged, lemma_slot};
use crate::series::Series;
use crate::shelf::{first_missing, is_blob_key, lemma_first_missing_prefix, Shelf, ShelfError, ShelfView};
use crate::text::{decimal, decimal_string, holds_text, lemma_precedes_total, lemma_precedes_transitive, precedes, starts_with, text_le, text_set};

verus! {

/// Why a save or a load failed.
#[derive(Debug)]
pub enum SaveError {
    /// The directory cannot be used, or a file in it could not be read or
    /// written.
    DirectoryError(String),
    /// The repository refused an operation.
    GitError(String),
    /// A record could not be written out or read back.
    SerializationError(String),
    /// A blob is described in the catalogue and has no payload on disk.
    MissingBlob(String),
    /// The key is not one that a blob may have.
    InvalidKey(String),
}

/// The kinds of record that have a file each.
#[derive(Clone, Copy, Debug, PartialEq, Eq, Structural)]
pub enum RecordKind {
    Person,
    Series,
    Item,
}

/// What the names of a kind's files begin with.
pub open spec fn kind_prefix(kind: RecordKind) -> Seq<char> {
    match kind {
        RecordKind::Person => "person--"@,
        RecordKind::Series => "series--"@,
        RecordKind::Item => "item--"@,
    }
}

/// The name of the file that holds the record of a kind with a key.
pub open spec fn record_path(kind: RecordKind, key: Seq<char>) -> Seq<char> {
    kind_prefix(kind) + key + ".yaml"@
}

/// Where a blob's payload lies, from the directory's root.
pub open spec fn blob_path(key: Seq<char>) -> Seq<char> {
    "blobs/"@ + key
}

/// The kind of record that a file's name announces: people before items,
/// items before series.
pub open spec fn announced(name: Seq<char>) -> Option<RecordKind> {
    if "person--"@.is_prefix_of(name) {
        Some(RecordKind::Person)
    } else if "item--"@.is_prefix_of(name) {
        Some(RecordKind::Item)
    } else if "series--"@.is_prefix_of(name) {
        Some(RecordKind::Series)
    } else {
        None
    }
}

/// One line for each key: a hyphen, a space and the key.
pub open spec fn bullets(keys: Seq<Seq<char>>) -> Seq<char>
    decreases keys.len(),
{
    if keys.len() == 0 {
        Seq::empty()
    } else {
        bullets(keys.drop_last()) + "- "@ + keys.last() + "\n"@
    }
}

/// What the commit that stores the given keys says: nothing where there is
/// no key, for then there is no commit; one line that names the key where
/// there is one; else a line with their number, an empty line, and a line
/// for each key.
pub open spec fn commit_message(keys: Seq<Seq<char>>) -> Option<Seq<char>> {
    if keys.len() == 0 {
        None
    } else if keys.len() == 1 {
        Some("Updated \""@ + keys[0] + "\""@)
    } else {
        Some("Update shelf ("@ + decimal(keys.len()) + " items)\n\n"@ + bullets(keys))
    }
}

/// The texts of a list, each as a sequence of characters.
pub open spec fn texts(list: Seq<String>) -> Seq<Seq<char>> {
    list.map_values(|s: String| s@)
}

/// The file in which the blobs are listed, from the directory's root.
pub fn index_path() -> (r: String)
    ensures
        r@ == "blobs/index.yaml"@,
{
    String::from_str("blobs/index.yaml")
}

/// The name of the file that holds a record.
pub fn record_file(kind: RecordKind, key: &str) -> (r: String)
    ensures
        r@ == record_path(kind, key@),
{
    let mut r = match kind {
        RecordKind::Person => String::from_str("person--"),
        RecordKind::Series => String::from_str("series--"),
        RecordKind::Item => String::from_str("item--"),
    };
    r.append(key);
    r.append(".yaml");
    r
}

/// The kind of record that a file in the directory holds, by its name.
pub fn file_kind(name: &str) -> (r: Option<RecordKind>)
    ensures
        r == announced(name@),
{
    if starts_with(name, "person--") {
        Some(RecordKind::Person)
    } else if starts_with(name, "item--") {
        Some(RecordKind::Item)
    } else if starts_with(name, "series--") {
        Some(RecordKind::Series)
    } else {
        None
    }
}

/// Whether a load gives up on a file of a kind that cannot be read: an
/// item's file ends the load, a person's or a series' is passed over.
pub fn unreadable_ends_load(kind: RecordKind) -> (r: bool)
    ensures
        r == (kind == RecordKind::Item),
{
    match kind {
        RecordKind::Item => true,
        _ => false,
    }
}

/// Writes the message of the commit that stores the given keys.
pub fn compose_message(keys: &Vec<String>) -> (r: Option<String>)
    ensures
        match r {
            Some(m) => commit_message(texts(keys@)) == Some(m@),
            None => commit_message(texts(keys@)) is None,
        },
{
    let n = keys.len();
    if n == 0 {
        return None;
    }
    if n == 1 {
        let mut m = String::from_str("Updated \"");
        m.append(keys[0].as_str());
        m.append("\"");
        return Some(m);
    }
    let mut m = String::from_str("Update shelf (");
    let count = decimal_string(n as u64);
    m.append(count.as_str());
    m.append(" items)\n\n");
    let ghost head = m@;
    let ghost all = texts(keys@);
    let mut i: usize = 0;
    proof {
        assert(all.take(0) =~= Seq::<Seq<char>>::empty());
        assert(head + bullets(all.take(0)) =~= head);
    }
    while i < n
        invariant
            n == keys.len(),
            i <= n,
            all == texts(keys@),
            m@ == head + bullets(all.take(i as int)),
        decreases n - i,
    {
        proof {
            assert(all.take(i + 1).drop_last() =~= all.take(i as int));
            assert(all.take(i + 1).last() == keys@[i as int]@);
        }
        m.append("- ");
        m.append(keys[i].as_str());
        m.append("\n");
        proof {
            assert(m@ =~= head + bullets(all.take(i + 1)));
        }
        i += 1;
    }
    proof {
        assert(all.take(n as int) =~= all);
    }
    Some(m)
}

/// The values behind a list of references.
pub open spec fn values<T>(refs: Seq<&T>) -> Seq<T> {
    refs.map_values(|r: &T| *r)
}

/// Whether the blobs stand in the order of their keys.
pub open spec fn ascending(blobs: Seq<Blob>) -> bool {
    forall|i: int, j: int| 0 <= i < j < blobs.len() ==> precedes(blobs[i].key@, blobs[j].key@)
}

/// The order of blobs by their keys.
pub open spec fn by_key() -> spec_fn(Blob, Blob) -> bool {
    |a: Blob, b: Blob| precedes(a.key@, b.key@)
}

/// Copies the blobs into the order of their keys; blobs with one key stay
/// in the order in which they came.
pub fn sorted_blobs(blobs: &Vec<&Blob>) -> (r: Vec<Blob>)
    ensures
        r@ == arranged(values(blobs@), by_key()),
        ascending(r@),
        r@.to_multiset() == values(blobs@).to_multiset(),
{
    let ghost all = values(blobs@);
    let mut r: Vec<Blob> = Vec::new();
    let mut i: usize = 0;
    proof {
        assert(all.take(0) =~= Seq::<Blob>::empty());
        assert(r@ =~= all.take(0));
    }
    while i < blobs.len()
        invariant
            i <= blobs.len(),
            all == values(blobs@),
            r@ == arranged(all.take(i as int), by_key()),
            ascending(r@),
            r@.to_multiset() == all.take(i as int).to_multiset(),
        decreases blobs.len() - i,
    {
        let blob: &Blob = blobs[i];
        let mut at: usize = 0;
        while at < r.len() && text_le(r[at].key.as_str(), blob.key.as_str())
            invariant
                at <= r.len(),
                forall|k: int| 0 <= k < at ==> precedes(#[trigger] r@[k].key@, blob.key@),
            decreases r.len() - at,
        {
            at += 1;
        }
        let ghost before = r@;
        let copy = blob.clone();
        r.insert(at, copy);
        proof {
            assert forall|k: int| 0 <= k < at implies by_key()(#[trigger] before[k], copy) by {
                assert(precedes(before[k].key@, blob.key@));
            }
            lemma_slot(before, copy, by_key(), at as int);
            assert(all.take(i + 1).drop_last() =~= all.take(i as int));
            assert(all.take(i + 1).last() == copy);
            lemma_insert_multiset(before, at as int, copy);
            assert(all.take(i + 1) =~= all.take(i as int).push(all[i as int]));
            vstd::seq_lib::to_multiset_build(all.take(i as int), all[i as int]);
            assert forall|a: int, b: int| 0 <= a < b < r@.len() implies precedes(
                r@[a].key@,
                r@[b].key@,
            ) by {
                if b == at {
                    assert(r@[a] == before[a]);
                } else if a == at {
                    assert(r@[b] == before[b - 1]);
                    lemma_precedes_total(before[at as int].key@, blob.key@);
                    if b - 1 > at {
                        lemma_precedes_transitive(
                            blob.key@,
                            before[at as int].key@,
                            before[b - 1].key@,
                        );
                    }
                } else {
                    let a0 = if a < at {
                        a
                    } else {
                        a - 1
                    };
                    let b0 = if b < at {
                        b
                    } else {
                        b - 1
                    };
                    assert(r@[a] == before[a0]);
                    assert(r@[b] == before[b0]);
                }
            }
        }
        i += 1;
    }
    proof {
        assert(all.take(blobs.len() as int) =~= all);
    }
    r
}

/// A record's file that a save writes and stages.
pub struct Write {
    pub kind: RecordKind,
    /// Where the record stands among the catalogue's records of its kind.
    pub position: usize,
    pub key: String,
    /// The file's name, from the directory's root.
    pub path: String,
}

/// A `Write` with its texts as sequences of characters.
pub struct WriteView {
    pub kind: RecordKind,
    pub position: int,
    pub key: Seq<char>,
    pub path: Seq<char>,
}

impl View for Write {
    type V = WriteView;

    open spec fn view(&self) -> WriteView {
        WriteView { kind: self.kind, position: self.position as int, key: self.key@, path: self.path@ }
    }
}

/// What a save has to do, in the order in which it is done: write and
/// stage the files of the changed records, stage the payloads of the
/// changed blobs, rewrite and stage the list of blobs, and commit.
pub struct SavePlan {
    /// The files of the changed people, series and items, in that order.
    pub writes: Vec<Write>,
    /// The payloads of the changed blobs, from the directory's root, up to
    /// the first that is missing.
    pub payloads: Vec<String>,
    /// The key of the first changed blob without a payload. Where there is
    /// one the save fails after staging: no list is written and nothing is
    /// committed.
    pub missing: Option<String>,
    /// All blobs in the order of their keys, where a blob changed.
    pub index: Option<Vec<Blob>>,
    /// The commit's message, where anything changed.
    pub message: Option<String>,
    /// The keys that the save stores, in the order in which it meets them.
    pub updated: Vec<String>,
}

/// The writes for the changed records of one kind, in the records' order.
pub open spec fn dirty_writes<T: Keyed>(
    kind: RecordKind,
    records: Seq<T>,
    dirty: Set<Seq<char>>,
) -> Seq<WriteView>
    decreases records.len(),
{
    if records.len() == 0 {
        Seq::empty()
    } else {
        let front = dirty_writes(kind, records.drop_last(), dirty);
        let key = records.last().key_text();
        if dirty.contains(key) {
            front.push(
                WriteView { kind, position: records.len() - 1, key, path: record_path(kind, key) },
            )
        } else {
            front
        }
    }
}

/// The keys among the blobs' that changed, in the blobs' order.
pub open spec fn changed_keys(blobs: Seq<Blob>, dirty: Set<Seq<char>>) -> Seq<Seq<char>>
    decreases blobs.len(),
{
    if blobs.len() == 0 {
        Seq::empty()
    } else {
        let front = changed_keys(blobs.drop_last(), dirty);
        if dirty.contains(blobs.last().key@) {
            front.push(blobs.last().key@)
        } else {
            front
        }
    }
}

/// The place of the first changed blob whose payload is not at hand.
pub open spec fn first_absent(
    blobs: Seq<Blob>,
    dirty: Set<Seq<char>>,
    present: Set<Seq<char>>,
) -> Option<int>
    decreases blobs.len(),
{
    if blobs.len() == 0 {
        None
    } else {
        match first_absent(blobs.drop_last(), dirty, present) {
            Some(i) => Some(i),
            None => if dirty.contains(blobs.last().key@) && !present.contains(blobs.last().key@) {
                Some(blobs.len() - 1)
            } else {
                None
            },
        }
    }
}

/// The keys of a list of writes.
pub open spec fn write_keys(writes: Seq<WriteView>) -> Seq<Seq<char>> {
    writes.map_values(|w: WriteView| w.key)
}

/// The writes of a list, each with its texts as sequences of characters.
pub open spec fn write_views(writes: Seq<Write>) -> Seq<WriteView> {
    writes.map_values(|w: Write| w@)
}

/// The writes of a save: the changed people, then the changed series,
/// then the changed items.
pub open spec fn planned_writes(s: ShelfView) -> Seq<WriteView> {
    dirty_writes(RecordKind::Person, s.people, s.dirty) + dirty_writes(
        RecordKind::Series,
        s.series,
        s.dirty,
    ) + dirty_writes(RecordKind::Item, s.items, s.dirty)
}

/// The blobs that a save looks at: all of them, or those before the first
/// changed blob whose payload is not at hand.
pub open spec fn staged_blobs(s: ShelfView, present: Set<Seq<char>>) -> Seq<Blob> {
    match first_absent(s.blobs, s.dirty, present) {
        Some(i) => s.blobs.take(i),
        None => s.blobs,
    }
}

/// Whether a plan is the one for saving a catalogue, given the keys of the
/// blobs whose payloads are at hand.
pub open spec fn plan_for(plan: SavePlan, s: ShelfView, present: Set<Seq<char>>) -> bool {
    let changed = changed_keys(staged_blobs(s, present), s.dirty);
    &&& write_views(plan.writes@) == planned_writes(s)
    &&& texts(plan.payloads@) == changed.map_values(|k: Seq<char>| blob_path(k))
    &&& texts(plan.updated@) == write_keys(planned_writes(s)) + changed
    &&& match first_absent(s.blobs, s.dirty, present) {
        Some(i) => {
            &&& plan.missing matches Some(k) && k@ == s.blobs[i].key@
            &&& plan.index is None
            &&& plan.message is None
        },
        None => {
            &&& plan.missing is None
            &&& match plan.index {
                Some(list) => changed.len() > 0 && list@ == arranged(s.blobs, by_key())
                    && ascending(list@) && list@.to_multiset() == s.blobs.to_multiset(),
                None => changed.len() == 0,
            }
            &&& match plan.message {
                Some(m) => commit_message(texts(plan.updated@)) == Some(m@),
                None => commit_message(texts(plan.updated@)) is None,
            }
        },
    }
}

/// Adds the writes for the changed records of one kind to a plan.
fn plan_writes<T: Keyed>(
    kind: RecordKind,
    records: &Vec<&T>,
    shelf: &Shelf,
    writes: &mut Vec<Write>,
    updated: &mut Vec<String>,
)
    ensures
        write_views(final(writes)@) == write_views(old(writes)@) + dirty_writes(
            kind,
            values(records@),
            shelf@.dirty,
        ),
        texts(final(updated)@) == texts(old(updated)@) + write_keys(
            dirty_writes(kind, values(records@), shelf@.dirty),
        ),
{
    let ghost all = values(records@);
    let ghost dirty = shelf@.dirty;
    let ghost writes0 = write_views(writes@);
    let ghost updated0 = texts(updated@);
    let mut i: usize = 0;
    proof {
        assert(all.take(0) =~= Seq::<T>::empty());
        assert(writes0 + dirty_writes(kind, all.take(0), dirty) =~= writes0);
        assert(updated0 + write_keys(dirty_writes(kind, all.take(0), dirty)) =~= updated0);
    }
    while i < records.len()
        invariant
            i <= records.len(),
            all == values(records@),
            dirty == shelf@.dirty,
            write_views(writes@) == writes0 + dirty_writes(kind, all.take(i as int), dirty),
            texts(updated@) == updated0 + write_keys(dirty_writes(kind, all.take(i as int), dirty)),
        decreases records.len() - i,
    {
        let record: &T = records[i];
        let key = record.key_ref();
        proof {
            assert(all.take(i + 1).drop_last() =~= all.take(i as int));
            assert(all.take(i + 1).last() == *record);
        }
        if shelf.is_dirty(key.as_str()) {
            let ghost front = dirty_writes(kind, all.take(i as int), dirty);
            let w = Write {
                kind,
                position: i,
                key: key.clone(),
                path: record_file(kind, key.as_str()),
            };
            let ghost wv = w@;
            writes.push(w);
            updated.push(key.clone());
            proof {
                assert(write_views(writes@) =~= (writes0 + front).push(wv));
                assert((writes0 + front).push(wv) =~= writes0 + front.push(wv));
                assert(texts(updated@) =~= (updated0 + write_keys(front)).push(key@));
                assert(write_keys(front.push(wv)) =~= write_keys(front).push(key@));
                assert((updated0 + write_keys(front)).push(key@) =~= updated0 + write_keys(
                    front.push(wv),
                ));
            }
        }
        i += 1;
    }
    proof {
        assert(all.take(records.len() as int) =~= all);
    }
}

/// What `first_absent` finds in a beginning of the blobs, it finds in all
/// of them.
proof fn lemma_first_absent_prefix(
    blobs: Seq<Blob>,
    dirty: Set<Seq<char>>,
    present: Set<Seq<char>>,
    n: int,
)
    requires
        0 <= n <= blobs.len(),
        first_absent(blobs.take(n), dirty, present) is Some,
    ensures
        first_absent(blobs, dirty, present) == first_absent(blobs.take(n), dirty, present),
    decreases blobs.len(),
{
    if n == blobs.len() {
        assert(blobs.take(n) =~= blobs);
    } else {
        assert(blobs.drop_last().take(n) =~= blobs.take(n));
        lemma_first_absent_prefix(blobs.drop_last(), dirty, present, n);
    }
}

/// References to the items of a list, in its order.
fn item_refs(items: &[Item]) -> (r: Vec<&Item>)
    ensures
        values(r@) == items@,
{
    let mut r: Vec<&Item> = Vec::new();
    let mut i: usize = 0;
    while i < items.len()
        invariant
            i <= items.len(),
            r@.len() == i,
            forall|j: int| 0 <= j < i ==> *(#[trigger] r@[j]) == items@[j],
        decreases items.len() - i,
    {
        r.push(&items[i]);
        i += 1;
    }
    proof {
        assert(values(r@) =~= items@);
    }
    r
}

/// Where a blob's payload lies, from the directory's root.
pub fn blob_file(key: &str) -> (r: String)
    ensures
        r@ == blob_path(key@),
{
    let mut r = String::from_str("blobs/");
    r.append(key);
    r
}

/// The complaint about a path that is no directory.
pub open spec fn not_a_directory(path: Seq<char>) -> Seq<char> {
    "Path "@ + path + " is not a directory."@
}

/// The complaint about a path that does not start at the root.
pub open spec fn not_absolute(path: Seq<char>) -> Seq<char> {
    "Path "@ + path + " should be an absolute path."@
}

/// The catalogue after each of the people was put under their key, in the
/// list's order.
pub open spec fn with_people(s: ShelfView, people: Seq<Person>) -> ShelfView
    decreases people.len(),
{
    if people.len() == 0 {
        s
    } else {
        with_people(s, people.drop_last()).with_person(people.last())
    }
}

/// The catalogue after each of the series was put under its key, in the
/// list's order.
pub open spec fn with_all_series(s: ShelfView, series: Seq<Series>) -> ShelfView
    decreases series.len(),
{
    if series.len() == 0 {
        s
    } else {
        with_all_series(s, series.drop_last()).with_series(series.last())
    }
}

/// The catalogue after each of the items was put under its key, in the
/// list's order.
pub open spec fn with_items(s: ShelfView, items: Seq<Item>) -> ShelfView
    decreases items.len(),
{
    if items.len() == 0 {
        s
    } else {
        with_items(s, items.drop_last()).with_item(items.last())
    }
}

/// The catalogue after each of the blobs was put under its key, in the
/// list's order.
pub open spec fn with_blobs(s: ShelfView, blobs: Seq<Blob>) -> ShelfView
    decreases blobs.len(),
{
    if blobs.len() == 0 {
        s
    } else {
        with_blobs(s, blobs.drop_last()).with_blob(blobs.last())
    }
}

/// The place of the first blob whose key is not one that a blob may have.
pub open spec fn first_bad_key(blobs: Seq<Blob>) -> Option<int>
    decreases blobs.len(),
{
    if blobs.len() == 0 {
        None
    } else {
        match first_bad_key(blobs.drop_last()) {
            Some(i) => Some(i),
            None => if is_blob_key(blobs.last().key@) {
                None
            } else {
                Some(blobs.len() - 1)
            },
        }
    }
}

/// The blobs that a load registers: those of the list, up to the first
/// whose key is not one that a blob may have.
pub open spec fn accepted_blobs(blobs: Option<Seq<Blob>>) -> Seq<Blob> {
    match blobs {
        Some(list) => match first_bad_key(list) {
            Some(i) => list.take(i),
            None => list,
        },
        None => Seq::empty(),
    }
}

/// The key on which a load fails: the first in the list of blobs that is
/// not one that a blob may have.
pub open spec fn rejected_key(blobs: Option<Seq<Blob>>) -> Option<Seq<char>> {
    match blobs {
        Some(list) => match first_bad_key(list) {
            Some(i) => Some(list[i].key@),
            None => None,
        },
        None => None,
    }
}

/// The catalogue after the given people and series were put into it.
pub open spec fn populated(s: ShelfView, people: Seq<Person>, series: Seq<Series>) -> ShelfView {
    with_all_series(with_people(s, people), series)
}

/// Whether every item names only people and a series that the catalogue
/// holds once the given people and series were put into it.
pub open spec fn all_resolve(
    s: ShelfView,
    people: Seq<Person>,
    series: Seq<Series>,
    items: Seq<Item>,
) -> bool {
    forall|i: int|
        0 <= i < items.len() ==> populated(s, people, series).unresolved(#[trigger] items[i])
            is None
}

/// The catalogue after a load of the given records. The blobs go first: a
/// key among them that no blob may have ends the load, with the blobs
/// before it registered and nothing else done. Then come the people, the
/// series and the items, and in the end nothing counts as changed.
pub open spec fn loaded(
    s: ShelfView,
    people: Seq<Person>,
    series: Seq<Series>,
    items: Seq<Item>,
    blobs: Option<Seq<Blob>>,
) -> ShelfView {
    let registered = with_blobs(s, accepted_blobs(blobs));
    if rejected_key(blobs) is Some {
        registered
    } else {
        ShelfView {
            dirty: Set::empty(),
            ..with_items(populated(registered, people, series), items)
        }
    }
}

/// The blobs of a list that may be absent.
pub open spec fn blob_list(blobs: Option<Vec<Blob>>) -> Option<Seq<Blob>> {
    match blobs {
        Some(list) => Some(list@),
        None => None,
    }
}

/// Putting people into a catalogue touches nothing but the people and the
/// changed keys, and the catalogue then holds a person under a key exactly
/// when it held one before or the list has one.
pub proof fn lemma_with_people(s: ShelfView, people: Seq<Person>, key: Seq<char>)
    ensures
        with_people(s, people).series == s.series,
        with_people(s, people).items == s.items,
        with_people(s, people).blobs == s.blobs,
        contains_key(with_people(s, people).people, key) <==> contains_key(s.people, key)
            || contains_key(people, key),
    decreases people.len(),
{
    if people.len() > 0 {
        lemma_with_people(s, people.drop_last(), key);
        lemma_find_upserted(with_people(s, people.drop_last()).people, people.last(), key);
    }
}

/// Putting series into a catalogue touches nothing but the series and the
/// changed keys, and the catalogue then holds a series under a key exactly
/// when it held one before or the list has one.
pub proof fn lemma_with_all_series(s: ShelfView, series: Seq<Series>, key: Seq<char>)
    ensures
        with_all_series(s, series).people == s.people,
        with_all_series(s, series).items == s.items,
        with_all_series(s, series).blobs == s.blobs,
        contains_key(with_all_series(s, series).series, key) <==> contains_key(s.series, key)
            || contains_key(series, key),
    decreases series.len(),
{
    if series.len() > 0 {
        lemma_with_all_series(s, series.drop_last(), key);
        lemma_find_upserted(with_all_series(s, series.drop_last()).series, series.last(), key);
    }
}

/// Putting items into a catalogue touches nothing but the items and the
/// changed keys.
pub proof fn lemma_with_items(s: ShelfView, items: Seq<Item>)
    ensures
        with_items(s, items).people == s.people,
        with_items(s, items).series == s.series,
        with_items(s, items).blobs == s.blobs,
    decreases items.len(),
{
    if items.len() > 0 {
        lemma_with_items(s, items.drop_last());
    }
}

/// Putting blobs into a catalogue touches nothing but the blobs and the
/// changed keys.
pub proof fn lemma_with_blobs(s: ShelfView, blobs: Seq<Blob>)
    ensures
        with_blobs(s, blobs).people == s.people,
        with_blobs(s, blobs).series == s.series,
        with_blobs(s, blobs).items == s.items,
    decreases blobs.len(),
{
    if blobs.len() > 0 {
        lemma_with_blobs(s, blobs.drop_last());
    }
}

/// Two lists of people with the same keys miss the same key first.
pub proof fn lemma_first_missing_same(refs: Seq<Seq<char>>, a: Seq<Person>, b: Seq<Person>)
    requires
        forall|k: Seq<char>| contains_key(a, k) <==> contains_key(b, k),
    ensures
        first_missing(refs, a) == first_missing(refs, b),
    decreases refs.len(),
{
    if refs.len() > 0 {
        lemma_first_missing_same(refs.drop_last(), a, b);
    }
}

/// Two catalogues with the same keys of people and of series resolve the
/// same items.
pub proof fn lemma_unresolved_same(a: ShelfView, b: ShelfView, item: Item)
    requires
        forall|k: Seq<char>| contains_key(a.people, k) <==> contains_key(b.people, k),
        forall|k: Seq<char>| contains_key(a.series, k) <==> contains_key(b.series, k),
    ensures
        a.unresolved(item) == b.unresolved(item),
{
    lemma_first_missing_same(item.people_keys(), a.people, b.people);
}

/// What `first_bad_key` finds in a beginning of the blobs, it finds in all
/// of them.
proof fn lemma_first_bad_key_prefix(blobs: Seq<Blob>, n: int)
    requires
        0 <= n <= blobs.len(),
        first_bad_key(blobs.take(n)) is Some,
    ensures
        first_bad_key(blobs) == first_bad_key(blobs.take(n)),
    decreases blobs.len(),
{
    if n == blobs.len() {
        assert(blobs.take(n) =~= blobs);
    } else {
        assert(blobs.drop_last().take(n) =~= blobs.take(n));
        lemma_first_bad_key_prefix(blobs.drop_last(), n);
    }
}

/// The directory in which a catalogue is stored.
pub struct DirectoryShelf {
    directory: String,
}

impl DirectoryShelf {
    /// The directory's path.
    pub closed spec fn path(&self) -> Seq<char> {
        self.directory@
    }

    /// The directory's path.
    pub fn directory(&self) -> (r: &String)
        ensures
            r@ == self.path(),
    {
        &self.directory
    }

    /// Where the payload of the blob with the given key is to be written,
    /// from the directory's root. The key must begin with `blob-`.
    pub fn insert_blob(&self, key: &str) -> (r: Result<String, SaveError>)
        ensures
            match r {
                Ok(path) => is_blob_key(key@) && path@ == blob_path(key@),
                Err(SaveError::InvalidKey(k)) => !is_blob_key(key@) && k@ == key@,
                Err(_) => false,
            },
    {
        if !starts_with(key, "blob-") {
            return Err(SaveError::InvalidKey(key.to_owned()));
        }
        Ok(blob_file(key))
    }

    /// Where the payload of the blob with the given key lies, from the
    /// directory's root.
    pub fn get_blob(&self, key: &str) -> (r: String)
        ensures
            r@ == blob_path(key@),
    {
        blob_file(key)
    }

    /// Plans the save of a catalogue. `present` holds the keys of the
    /// blobs whose payloads are on disk.
    pub fn save(&self, shelf: &Shelf, present: &Vec<String>) -> (plan: SavePlan)
        ensures
            plan_for(plan, shelf@, text_set(present@)),
    {
        let ghost s = shelf@;
        let ghost at_hand = text_set(present@);
        let mut writes: Vec<Write> = Vec::new();
        let mut updated: Vec<String> = Vec::new();
        proof {
            assert(write_views(writes@) =~= Seq::<WriteView>::empty());
            assert(texts(updated@) =~= Seq::<Seq<char>>::empty());
        }
        let people = shelf.query_people();
        proof {
            assert(values(people@) =~= s.people);
        }
        plan_writes(RecordKind::Person, &people, shelf, &mut writes, &mut updated);
        let series = shelf.query_series();
        proof {
            assert(values(series@) =~= s.series);
        }
        plan_writes(RecordKind::Series, &series, shelf, &mut writes, &mut updated);
        let items = item_refs(shelf.all_items());
        plan_writes(RecordKind::Item, &items, shelf, &mut writes, &mut updated);
        let ghost stored = write_keys(planned_writes(s));
        proof {
            let a = dirty_writes(RecordKind::Person, s.people, s.dirty);
            let b = dirty_writes(RecordKind::Series, s.series, s.dirty);
            let c = dirty_writes(RecordKind::Item, s.items, s.dirty);
            assert(write_views(writes@) =~= planned_writes(s));
            assert(write_keys(a + b + c) =~= write_keys(a) + write_keys(b) + write_keys(c));
            assert(texts(updated@) =~= stored);
        }
        let blobs = shelf.query_blobs();
        let ghost all = values(blobs@);
        proof {
            assert(all =~= s.blobs);
        }
        let mut payloads: Vec<String> = Vec::new();
        let mut i: usize = 0;
        proof {
            assert(all.take(0) =~= Seq::<Blob>::empty());
            assert(texts(payloads@) =~= changed_keys(all.take(0), s.dirty).map_values(
                |k: Seq<char>| blob_path(k),
            ));
            assert(texts(updated@) =~= stored + changed_keys(all.take(0), s.dirty));
        }
        while i < blobs.len()
            invariant
                i <= blobs.len(),
                s == shelf@,
                at_hand == text_set(present@),
                all == values(blobs@),
                all == s.blobs,
                write_views(writes@) == planned_writes(s),
                stored == write_keys(planned_writes(s)),
                first_absent(all.take(i as int), s.dirty, at_hand) is None,
                texts(payloads@) == changed_keys(all.take(i as int), s.dirty).map_values(
                    |k: Seq<char>| blob_path(k),
                ),
                texts(updated@) == stored + changed_keys(all.take(i as int), s.dirty),
            decreases blobs.len() - i,
        {
            let blob: &Blob = blobs[i];
            proof {
                assert(all.take(i + 1).drop_last() =~= all.take(i as int));
                assert(all.take(i + 1).last() == *blob);
            }
            if shelf.is_dirty(blob.key.as_str()) {
                if !holds_text(present, blob.key.as_str()) {
                    proof {
                        lemma_first_absent_prefix(all, s.dirty, at_hand, i + 1);
                    }
                    return SavePlan {
                        writes,
                        payloads,
                        missing: Some(blob.key.clone()),
                        index: None,
                        message: None,
                        updated,
                    };
                }
                let ghost front = changed_keys(all.take(i as int), s.dirty);
                let ghost paths = texts(payloads@);
                let ghost known = texts(updated@);
                payloads.push(blob_file(blob.key.as_str()));
                updated.push(blob.key.clone());
                proof {
                    assert(texts(payloads@) =~= paths.push(blob_path(blob.key@)));
                    assert(paths.push(blob_path(blob.key@)) =~= front.push(blob.key@).map_values(
                        |k: Seq<char>| blob_path(k),
                    ));
                    assert(texts(updated@) =~= known.push(blob.key@));
                    assert(known.push(blob.key@) =~= stored + front.push(blob.key@));
                }
            }
            i += 1;
        }
        proof {
            assert(all.take(blobs.len() as int) =~= all);
        }
        let index = if payloads.len() > 0 {
            Some(sorted_blobs(&blobs))
        } else {
            None
        };
        let message = compose_message(&updated);
        SavePlan { writes, payloads, missing: None, index, message, updated }
    }

    /// Takes note that a plan was carried out. Where the plan found every
    /// payload, nothing in the catalogue counts as changed any more, and
    /// the result is the number of records stored. Where it missed one,
    /// the save has failed and the catalogue stays as it was.
    pub fn saved(&self, shelf: &mut Shelf, plan: &SavePlan) -> (r: Result<usize, SaveError>)
        ensures
            match r {
                Ok(n) => plan.missing is None && n == plan.updated@.len() && final(shelf)@ == (
                ShelfView { dirty: Set::empty(), ..old(shelf)@ }),
                Err(SaveError::MissingBlob(k)) => (plan.missing matches Some(m) && m@ == k@)
                    && final(shelf)@ == old(shelf)@,
                Err(_) => false,
            },
            old(shelf)@.wf() ==> final(shelf)@.wf(),
    {
        match &plan.missing {
            Some(key) => Err(SaveError::MissingBlob(key.clone())),
            None => {
                shelf.clear_all_dirty();
                Ok(plan.updated.len())
            },
        }
    }
}

impl DirectoryShelf {
    /// Takes a directory for a catalogue. The caller says whether the path
    /// is a directory and whether it starts at the root, and hands in the
    /// path in its canonical form, or why it has none. A path that is no
    /// directory is refused first, then one that does not start at the
    /// root, then one without a canonical form.
    pub fn new(path: &str, is_dir: bool, is_absolute: bool, canonical: Result<String, String>) -> (r:
        Result<DirectoryShelf, SaveError>)
        ensures
            match r {
                Ok(d) => is_dir && is_absolute && (canonical matches Ok(c) && d.path() == c@),
                Err(SaveError::DirectoryError(m)) => if !is_dir {
                    m@ == not_a_directory(path@)
                } else if !is_absolute {
                    m@ == not_absolute(path@)
                } else {
                    canonical matches Err(e) && m@ == e@
                },
                Err(_) => false,
            },
    {
        if !is_dir {
            let mut m = String::from_str("Path ");
            m.append(path);
            m.append(" is not a directory.");
            return Err(SaveError::DirectoryError(m));
        }
        if !is_absolute {
            let mut m = String::from_str("Path ");
            m.append(path);
            m.append(" should be an absolute path.");
            return Err(SaveError::DirectoryError(m));
        }
        match canonical {
            Ok(directory) => Ok(DirectoryShelf { directory }),
            Err(e) => Err(SaveError::DirectoryError(e)),
        }
    }

    /// What would stop a load of the items: the first person or series that
    /// an item names and that neither the catalogue nor the given lists
    /// hold. The items are tried in their order. `None` also where the
    /// load ends before the items, on a blob's key that no blob may have.
    pub fn unresolved(
        &self,
        shelf: &Shelf,
        people: &Vec<Person>,
        series: &Vec<Series>,
        items: &Vec<Item>,
        blobs: &Option<Vec<Blob>>,
    ) -> (r: Option<String>)
        ensures
            match r {
                Some(k) => rejected_key(blob_list(*blobs)) is None && exists|i: int|
                    0 <= i < items@.len() && populated(shelf@, people@, series@).unresolved(
                        #[trigger] items@[i],
                    ) == Some(k@) && all_resolve(shelf@, people@, series@, items@.take(i)),
                None => rejected_key(blob_list(*blobs)) is Some || all_resolve(
                    shelf@,
                    people@,
                    series@,
                    items@,
                ),
            },
    {
        match blobs {
            Some(list) => {
                if has_bad_key(list) {
                    return None;
                }
            },
            None => {},
        }
        let ghost full = populated(shelf@, people@, series@);
        let mut i: usize = 0;
        while i < items.len()
            invariant
                i <= items.len(),
                rejected_key(blob_list(*blobs)) is None,
                full == populated(shelf@, people@, series@),
                all_resolve(shelf@, people@, series@, items@.take(i as int)),
            decreases items.len() - i,
        {
            match first_unknown(shelf, people, series, &items[i]) {
                Some(k) => {
                    return Some(k);
                },
                None => {},
            }
            proof {
                assert forall|j: int| 0 <= j < i + 1 implies full.unresolved(
                    #[trigger] items@.take(i + 1)[j],
                ) is None by {
                    if j < i {
                        assert(items@.take(i as int)[j] == items@.take(i + 1)[j]);
                    }
                }
            }
            i += 1;
        }
        proof {
            assert(items@.take(i as int) =~= items@);
        }
        None
    }

    /// Puts the records that were read from the directory into a
    /// catalogue: the blobs of the list, where there is one, then the
    /// people, the series and the items; in the end nothing counts as
    /// changed. A blob's key that no blob may have ends the load with an
    /// error.
    ///
    /// Unless a blob's key ends the load, the items must name only people
    /// and series that the catalogue then holds; `unresolved` tells whether
    /// the load can be made.
    pub fn load(
        &self,
        shelf: &mut Shelf,
        people: Vec<Person>,
        series: Vec<Series>,
        items: Vec<Item>,
        blobs: Option<Vec<Blob>>,
    ) -> (r: Result<(), SaveError>)
        requires
            rejected_key(blob_list(blobs)) is None ==> all_resolve(
                old(shelf)@,
                people@,
                series@,
                items@,
            ),
        ensures
            final(shelf)@ == loaded(old(shelf)@, people@, series@, items@, blob_list(blobs)),
            match r {
                Ok(()) => rejected_key(blob_list(blobs)) is None,
                Err(SaveError::InvalidKey(k)) => rejected_key(blob_list(blobs)) == Some(k@),
                Err(_) => false,
            },
            old(shelf)@.wf() ==> final(shelf)@.wf(),
    {
        let ghost s0 = shelf@;
        let ghost listed = blob_list(blobs);
        match blobs {
            Some(list) => {
                let ghost all = list@;
                let total = list.len();
                let mut rest = list;
                let mut done: usize = 0;
                proof {
                    assert(all.take(0) =~= Seq::<Blob>::empty());
                    assert(all.skip(0) =~= all);
                }
                while rest.len() > 0
                    invariant
                        listed == Some(all),
                        listed == blob_list(blobs),
                        s0 == old(shelf)@,
                        total == all.len(),
                        done + rest@.len() == total,
                        rest@ == all.skip(done as int),
                        first_bad_key(all.take(done as int)) is None,
                        shelf@ == with_blobs(s0, all.take(done as int)),
                        s0.wf() ==> shelf@.wf(),
                    decreases rest@.len(),
                {
                    let blob = rest.remove(0);
                    proof {
                        assert(blob == all[done as int]);
                        assert(rest@ =~= all.skip(done + 1));
                        assert(all.take(done + 1).drop_last() =~= all.take(done as int));
                        assert(all.take(done + 1).last() == blob);
                    }
                    match shelf.insert_blob(blob) {
                        Ok(()) => {},
                        Err(ShelfError::InvalidKey(k)) => {
                            proof {
                                assert(first_bad_key(all.take(done + 1)) == Some(done as int));
                                lemma_first_bad_key_prefix(all, done + 1);
                                assert(accepted_blobs(listed) == all.take(done as int));
                            }
                            return Err(SaveError::InvalidKey(k));
                        },
                        Err(ShelfError::InvalidReference(k)) => {
                            return Err(SaveError::InvalidKey(k));
                        },
                    }
                    done += 1;
                }
                proof {
                    assert(all.take(done as int) =~= all);
                }
            },
            None => {},
        }
        let ghost registered = shelf@;
        proof {
            assert(registered == with_blobs(s0, accepted_blobs(listed)));
            lemma_with_blobs(s0, accepted_blobs(listed));
        }
        let ghost all_people = people@;
        let total = people.len();
        let mut rest = people;
        let mut done: usize = 0;
        proof {
            assert(all_people.take(0) =~= Seq::<Person>::empty());
            assert(all_people.skip(0) =~= all_people);
        }
        while rest.len() > 0
            invariant
                total == all_people.len(),
                done + rest@.len() == total,
                rest@ == all_people.skip(done as int),
                shelf@ == with_people(registered, all_people.take(done as int)),
                s0.wf() ==> shelf@.wf(),
            decreases rest@.len(),
        {
            let person = rest.remove(0);
            proof {
                assert(rest@ =~= all_people.skip(done + 1));
                assert(all_people.take(done + 1).drop_last() =~= all_people.take(done as int));
                assert(all_people.take(done + 1).last() == person);
            }
            let _ = shelf.insert_person(person);
            done += 1;
        }
        proof {
            assert(all_people.take(done as int) =~= all_people);
        }
        let ghost all_series = series@;
        let ghost peopled = shelf@;
        let total = series.len();
        let mut rest = series;
        let mut done: usize = 0;
        proof {
            assert(all_series.take(0) =~= Seq::<Series>::empty());
            assert(all_series.skip(0) =~= all_series);
        }
        while rest.len() > 0
            invariant
                total == all_series.len(),
                done + rest@.len() == total,
                rest@ == all_series.skip(done as int),
                shelf@ == with_all_series(peopled, all_series.take(done as int)),
                s0.wf() ==> shelf@.wf(),
            decreases rest@.len(),
        {
            let one = rest.remove(0);
            proof {
                assert(rest@ =~= all_series.skip(done + 1));
                assert(all_series.take(done + 1).drop_last() =~= all_series.take(done as int));
                assert(all_series.take(done + 1).last() == one);
            }
            let _ = shelf.insert_series(one);
            done += 1;
        }
        proof {
            assert(all_series.take(done as int) =~= all_series);
        }
        let ghost full = shelf@;
        let ghost all_items = items@;
        proof {
            assert(full == populated(registered, all_people, all_series));
            assert forall|i: int| 0 <= i < all_items.len() implies full.unresolved(
                #[trigger] all_items[i],
            ) is None by {
                let bare = populated(s0, all_people, all_series);
                assert forall|k: Seq<char>|
                    contains_key(full.people, k) <==> contains_key(bare.people, k) by {
                    lemma_with_people(registered, all_people, k);
                    lemma_with_people(s0, all_people, k);
                    lemma_with_all_series(with_people(registered, all_people), all_series, k);
                    lemma_with_all_series(with_people(s0, all_people), all_series, k);
                }
                assert forall|k: Seq<char>|
                    contains_key(full.series, k) <==> contains_key(bare.series, k) by {
                    lemma_with_people(registered, all_people, k);
                    lemma_with_people(s0, all_people, k);
                    lemma_with_all_series(with_people(registered, all_people), all_series, k);
                    lemma_with_all_series(with_people(s0, all_people), all_series, k);
                }
                lemma_unresolved_same(full, bare, all_items[i]);
            }
        }
        let total = items.len();
        let mut rest = items;
        let mut done: usize = 0;
        proof {
            assert(all_items.take(0) =~= Seq::<Item>::empty());
            assert(all_items.skip(0) =~= all_items);
        }
        while rest.len() > 0
            invariant
                total == all_items.len(),
                done + rest@.len() == total,
                rest@ == all_items.skip(done as int),
                shelf@ == with_items(full, all_items.take(done as int)),
                forall|i: int|
                    0 <= i < all_items.len() ==> full.unresolved(#[trigger] all_items[i]) is None,
                s0.wf() ==> shelf@.wf(),
            decreases rest@.len(),
        {
            let item = rest.remove(0);
            proof {
                assert(item == all_items[done as int]);
                assert(rest@ =~= all_items.skip(done + 1));
                assert(all_items.take(done + 1).drop_last() =~= all_items.take(done as int));
                assert(all_items.take(done + 1).last() == item);
                lemma_with_items(full, all_items.take(done as int));
                lemma_unresolved_same(shelf@, full, item);
            }
            match shelf.insert_item(item) {
                Ok(()) => {},
                Err(_) => {
                    // The item resolves, so it is not refused.
                    proof {
                        assert(false);
                    }
                    return Ok(());
                },
            }
            done += 1;
        }
        proof {
            assert(all_items.take(done as int) =~= all_items);
        }
        shelf.clear_all_dirty();
        Ok(())
    }
}

/// Whether a blob of the list has a key that no blob may have.
fn has_bad_key(blobs: &Vec<Blob>) -> (r: bool)
    ensures
        r == first_bad_key(blobs@) is Some,
{
    let mut i: usize = 0;
    while i < blobs.len()
        invariant
            i <= blobs.len(),
            first_bad_key(blobs@.take(i as int)) is None,
        decreases blobs.len() - i,
    {
        proof {
            assert(blobs@.take(i + 1).drop_last() =~= blobs@.take(i as int));
            assert(blobs@.take(i + 1).last() == blobs@[i as int]);
        }
        if !starts_with(blobs[i].key.as_str(), "blob-") {
            proof {
                lemma_first_bad_key_prefix(blobs@, i + 1);
            }
            return true;
        }
        i += 1;
    }
    proof {
        assert(blobs@.take(i as int) =~= blobs@);
    }
    false
}

/// The first person that an item names and that neither the catalogue nor
/// the list of people holds; where all are held, the item's series if
/// neither the catalogue nor the list of series holds that.
fn first_unknown(shelf: &Shelf, people: &Vec<Person>, series: &Vec<Series>, item: &Item) -> (r:
    Option<String>)
    ensures
        match r {
            Some(k) => populated(shelf@, people@, series@).unresolved(*item) == Some(k@),
            None => populated(shelf@, people@, series@).unresolved(*item) is None,
        },
{
    let ghost full = populated(shelf@, people@, series@);
    let ghost refs = item.people_keys();
    let mut i: usize = 0;
    while i < item.people.len()
        invariant
            i <= item.people.len(),
            refs == item.people_keys(),
            full == populated(shelf@, people@, series@),
            first_missing(refs.take(i as int), full.people) is None,
        decreases item.people.len() - i,
    {
        let key = &item.people[i].1;
        proof {
            assert(refs.take(i + 1).drop_last() =~= refs.take(i as int));
            assert(refs.take(i + 1).last() == key@);
            lemma_with_people(shelf@, people@, key@);
            lemma_with_all_series(with_people(shelf@, people@), series@, key@);
        }
        if !shelf.has_person(key.as_str()) && locate(people, key.as_str()).is_none() {
            proof {
                lemma_first_missing_prefix(refs, full.people, i + 1);
            }
            return Some(key.clone());
        }
        i += 1;
    }
    proof {
        assert(refs.take(i as int) =~= refs);
    }
    match &item.series {
        Some((key, _)) => {
            proof {
                lemma_with_people(shelf@, people@, key@);
                lemma_with_all_series(with_people(shelf@, people@), series@, key@);
            }
            if !shelf.has_series(key.as_str()) && locate(series, key.as_str()).is_none() {
                return Some(key.clone());
            }
        },
        None => {},
    }
    None
}

/// Where no record's key changed, a save writes no record.
pub proof fn lemma_no_dirty_writes<T: Keyed>(
    kind: RecordKind,
    records: Seq<T>,
    dirty: Set<Seq<char>>,
)
    requires
        forall|i: int| 0 <= i < records.len() ==> !dirty.contains(#[trigger] records[i].key_text()),
    ensures
        dirty_writes(kind, records, dirty) == Seq::<WriteView>::empty(),
    decreases records.len(),
{
    if records.len() > 0 {
        let front = records.drop_last();
        assert forall|i: int| 0 <= i < front.len() implies !dirty.contains(
            #[trigger] front[i].key_text(),
        ) by {
            assert(front[i] == records[i]);
        }
        lemma_no_dirty_writes(kind, front, dirty);
        assert(records[records.len() - 1] == records.last());
    }
}

/// Where one record's key changed and no other's, a save writes that
/// record's file and no other of its kind.
pub proof fn lemma_one_dirty_write<T: Keyed>(
    kind: RecordKind,
    records: Seq<T>,
    dirty: Set<Seq<char>>,
    at: int,
)
    requires
        0 <= at < records.len(),
        dirty.contains(records[at].key_text()),
        forall|i: int|
            0 <= i < records.len() && i != at ==> !dirty.contains(#[trigger] records[i].key_text()),
    ensures
        dirty_writes(kind, records, dirty) == seq![
            WriteView {
                kind,
                position: at,
                key: records[at].key_text(),
                path: record_path(kind, records[at].key_text()),
            },
        ],
    decreases records.len(),
{
    let front = records.drop_last();
    if at == records.len() - 1 {
        assert forall|i: int| 0 <= i < front.len() implies !dirty.contains(
            #[trigger] front[i].key_text(),
        ) by {
            assert(front[i] == records[i]);
        }
        lemma_no_dirty_writes(kind, front, dirty);
        assert(dirty_writes(kind, records, dirty) =~= seq![
            WriteView {
                kind,
                position: at,
                key: records[at].key_text(),
                path: record_path(kind, records[at].key_text()),
            },
        ]);
    } else {
        assert(front[at] == records[at]);
        assert forall|i: int| 0 <= i < front.len() && i != at implies !dirty.contains(
            #[trigger] front[i].key_text(),
        ) by {
            assert(front[i] == records[i]);
        }
        lemma_one_dirty_write(kind, front, dirty, at);
        assert(records[records.len() - 1] == records.last());
    }
}

/// The changed keys among the blobs are those of the blobs whose key
/// changed: none where no blob's key changed, and some where one did.
pub proof fn lemma_changed_keys(blobs: Seq<Blob>, dirty: Set<Seq<char>>)
    ensures
        changed_keys(blobs, dirty).len() == 0 <==> forall|i: int|
            0 <= i < blobs.len() ==> !dirty.contains(#[trigger] blobs[i].key@),
    decreases blobs.len(),
{
    if blobs.len() > 0 {
        let front = blobs.drop_last();
        lemma_changed_keys(front, dirty);
        assert(forall|i: int| 0 <= i < front.len() ==> front[i] == blobs[i]);
        assert(blobs[blobs.len() - 1] == blobs.last());
        if changed_keys(blobs, dirty).len() == 0 {
            assert forall|i: int| 0 <= i < blobs.len() implies !dirty.contains(
                #[trigger] blobs[i].key@,
            ) by {
                if i < front.len() {
                    assert(front[i] == blobs[i]);
                }
            }
        }
        if forall|i: int| 0 <= i < blobs.len() ==> !dirty.contains(#[trigger] blobs[i].key@) {
            assert forall|i: int| 0 <= i < front.len() implies !dirty.contains(
                #[trigger] front[i].key@,
            ) by {
                assert(front[i] == blobs[i]);
            }
        }
    }
}

/// `first_absent` gives the least place of a changed blob without a
/// payload, and `None` exactly when every changed blob has its payload.
pub proof fn lemma_first_absent(blobs: Seq<Blob>, dirty: Set<Seq<char>>, present: Set<Seq<char>>)
    ensures
        match first_absent(blobs, dirty, present) {
            Some(i) => 0 <= i < blobs.len() && dirty.contains(blobs[i].key@) && !present.contains(
                blobs[i].key@,
            ) && forall|j: int|
                0 <= j < i ==> !dirty.contains(#[trigger] blobs[j].key@) || present.contains(
                    blobs[j].key@,
                ),
            None => forall|j: int|
                0 <= j < blobs.len() ==> !dirty.contains(#[trigger] blobs[j].key@)
                    || present.contains(blobs[j].key@),
        },
    decreases blobs.len(),
{
    if blobs.len() > 0 {
        let front = blobs.drop_last();
        lemma_first_absent(front, dirty, present);
        assert(forall|j: int| 0 <= j < front.len() ==> front[j] == blobs[j]);
        match first_absent(front, dirty, present) {
            Some(i) => {
                assert(front[i] == blobs[i]);
                assert forall|j: int| 0 <= j < i implies !dirty.contains(
                    #[trigger] blobs[j].key@,
                ) || present.contains(blobs[j].key@) by {
                    assert(front[j] == blobs[j]);
                }
            },
            None => {
                assert forall|j: int| 0 <= j < front.len() implies !dirty.contains(
                    #[trigger] blobs[j].key@,
                ) || present.contains(blobs[j].key@) by {
                    assert(front[j] == blobs[j]);
                }
                assert(blobs[blobs.len() - 1] == blobs.last());
            },
        }
    }
}

/// A save of a catalogue in which nothing changed does nothing: it writes
/// and stages no file, and it makes no commit.
pub proof fn lemma_nothing_to_save(plan: SavePlan, s: ShelfView, present: Set<Seq<char>>)
    requires
        plan_for(plan, s, present),
        s.dirty == Set::<Seq<char>>::empty(),
    ensures
        plan.writes@.len() == 0,
        plan.payloads@.len() == 0,
        plan.updated@.len() == 0,
        plan.missing is None,
        plan.index is None,
        plan.message is None,
{
    lemma_no_dirty_writes(RecordKind::Person, s.people, s.dirty);
    lemma_no_dirty_writes(RecordKind::Series, s.series, s.dirty);
    lemma_no_dirty_writes(RecordKind::Item, s.items, s.dirty);
    lemma_first_absent(s.blobs, s.dirty, present);
    lemma_changed_keys(s.blobs, s.dirty);
    assert(write_views(plan.writes@).len() == 0);
    assert(texts(plan.payloads@).len() == 0);
    assert(texts(plan.updated@).len() == 0);
}

/// After a save, a change to one item alone makes the next save write
/// that item's file and nothing else, and its commit names that item's
/// key and no other. The item replaces the one at `at`, and no person,
/// series or blob has its key.
pub proof fn lemma_one_item_changed(
    plan: SavePlan,
    s: ShelfView,
    item: Item,
    at: int,
    present: Set<Seq<char>>,
)
    requires
        s.wf(),
        0 <= at < s.items.len(),
        s.items[at].key@ == item.key@,
        !contains_key(s.people, item.key@),
        !contains_key(s.series, item.key@),
        !contains_key(s.blobs, item.key@),
        plan_for(
            plan,
            (ShelfView { dirty: Set::empty(), ..s }).with_item(item),
            present,
        ),
    ensures
        write_views(plan.writes@) == seq![
            WriteView {
                kind: RecordKind::Item,
                position: at,
                key: item.key@,
                path: record_path(RecordKind::Item, item.key@),
            },
        ],
        plan.payloads@.len() == 0,
        plan.missing is None,
        plan.index is None,
        texts(plan.updated@) == seq![item.key@],
        plan.message matches Some(m) && m@ == "Updated \""@ + item.key@ + "\""@,
{
    let clean = ShelfView { dirty: Set::empty(), ..s };
    let t = clean.with_item(item);
    lemma_find(s.items, item.key@);
    lemma_find(s.people, item.key@);
    lemma_find(s.series, item.key@);
    lemma_find(s.blobs, item.key@);
    assert forall|j: int| 0 <= j < s.items.len() && j != at implies s.items[j].key_text()
        != item.key@ by {
        if j < at {
            assert(s.items[j].key_text() != s.items[at].key_text());
        } else {
            assert(s.items[at].key_text() != s.items[j].key_text());
        }
    }
    lemma_found(s.items, item.key@, at);
    assert(t.items == s.items.update(at, item));
    assert forall|i: int| 0 <= i < t.items.len() && i != at implies !t.dirty.contains(
        #[trigger] t.items[i].key_text(),
    ) by {
        assert(s.items[i].key_text() != item.key@);
    }
    assert forall|i: int| 0 <= i < t.people.len() implies !t.dirty.contains(
        #[trigger] t.people[i].key_text(),
    ) by {}
    assert forall|i: int| 0 <= i < t.series.len() implies !t.dirty.contains(
        #[trigger] t.series[i].key_text(),
    ) by {}
    assert forall|i: int| 0 <= i < t.blobs.len() implies !t.dirty.contains(
        #[trigger] t.blobs[i].key@,
    ) by {
        assert(t.blobs[i].key_text() != item.key@);
    }
    lemma_no_dirty_writes(RecordKind::Person, t.people, t.dirty);
    lemma_no_dirty_writes(RecordKind::Series, t.series, t.dirty);
    lemma_one_dirty_write(RecordKind::Item, t.items, t.dirty, at);
    lemma_first_absent(t.blobs, t.dirty, present);
    lemma_changed_keys(t.blobs, t.dirty);
    let w = WriteView {
        kind: RecordKind::Item,
        position: at,
        key: item.key@,
        path: record_path(RecordKind::Item, item.key@),
    };
    assert(planned_writes(t) =~= seq![w]);
    assert(write_keys(seq![w]) =~= seq![item.key@]);
    assert(texts(plan.payloads@).len() == 0);
    assert(texts(plan.updated@) =~= seq![item.key@]);
}

/// A blob that was registered and has no payload fails the save: the plan
/// names a missing payload, writes no list of blobs and makes no commit.
/// Where nothing else had changed, the missing payload is that blob's.
pub proof fn lemma_payload_missing(
    plan: SavePlan,
    s: ShelfView,
    blob: Blob,
    present: Set<Seq<char>>,
)
    requires
        plan_for(plan, s.with_blob(blob), present),
        !present.contains(blob.key@),
    ensures
        plan.missing is Some,
        plan.index is None,
        plan.message is None,
        s.dirty == Set::<Seq<char>>::empty() ==> plan.missing->0@ == blob.key@,
{
    let t = s.with_blob(blob);
    lemma_find(s.blobs, blob.key@);
    lemma_first_absent(t.blobs, t.dirty, present);
    let at = match find(s.blobs, blob.key@) {
        Some(i) => i,
        None => s.blobs.len() as int,
    };
    assert(t.blobs[at] == blob);
    assert(t.dirty.contains(t.blobs[at].key@));
}

/// A blob that was registered and has its payload is saved, provided that
/// every other changed blob has its payload too: the list of blobs is
/// rewritten, holds the blob among all the blobs of the catalogue, and
/// stands in the order of the keys.
pub proof fn lemma_payload_present(
    plan: SavePlan,
    s: ShelfView,
    blob: Blob,
    present: Set<Seq<char>>,
)
    requires
        plan_for(plan, s.with_blob(blob), present),
        present.contains(blob.key@),
        forall|i: int|
            0 <= i < s.blobs.len() && s.dirty.contains(#[trigger] s.blobs[i].key@)
                ==> present.contains(s.blobs[i].key@),
    ensures
        plan.missing is None,
        plan.index matches Some(list) && list@.contains(blob) && ascending(list@)
            && list@.to_multiset() == s.with_blob(blob).blobs.to_multiset(),
        plan.message is Some,
{
    let t = s.with_blob(blob);
    lemma_find(s.blobs, blob.key@);
    lemma_first_absent(t.blobs, t.dirty, present);
    lemma_changed_keys(t.blobs, t.dirty);
    let at = match find(s.blobs, blob.key@) {
        Some(i) => i,
        None => s.blobs.len() as int,
    };
    assert(t.blobs[at] == blob);
    assert(t.dirty.contains(t.blobs[at].key@));
    assert forall|j: int| 0 <= j < t.blobs.len() implies !t.dirty.contains(
        #[trigger] t.blobs[j].key@,
    ) || present.contains(t.blobs[j].key@) by {
        if j != at {
            assert(t.blobs[j] == s.blobs[j]);
        }
    }
    assert(first_absent(t.blobs, t.dirty, present) is None);
    assert(staged_blobs(t, present) == t.blobs);
    assert(changed_keys(t.blobs, t.dirty).len() > 0);
    assert(plan.index is Some);
    let list = plan.index->0;
    list@.to_multiset_ensures();
    t.blobs.to_multiset_ensures();
    assert(t.blobs.contains(blob));
    assert(t.blobs.to_multiset().count(blob) > 0);
    assert(list@.to_multiset().count(blob) > 0);
    assert(list@.contains(blob));
    assert(texts(plan.updated@).len() > 0);
}

/// People with distinct keys, put into a catalogue without people, are
/// held as the list has them.
proof fn lemma_people_restored(s: ShelfView, people: Seq<Person>)
    requires
        s.people.len() == 0,
        distinct(people),
    ensures
        with_people(s, people).people == people,
    decreases people.len(),
{
    if people.len() > 0 {
        let front = people.drop_last();
        assert(forall|i: int| 0 <= i < front.len() ==> front[i] == people[i]);
        lemma_people_restored(s, front);
        lemma_find(front, people.last().key_text());
        assert(find(front, people.last().key_text()) is None) by {
            if let Some(i) = find(front, people.last().key_text()) {
                assert(people[i].key_text() == people[people.len() - 1].key_text());
            }
        }
        assert(with_people(s, people).people =~= people);
    } else {
        assert(with_people(s, people).people =~= people);
    }
}

/// Series with distinct keys, put into a catalogue without series, are
/// held as the list has them.
proof fn lemma_series_restored(s: ShelfView, series: Seq<Series>)
    requires
        s.series.len() == 0,
        distinct(series),
    ensures
        with_all_series(s, series).series == series,
    decreases series.len(),
{
    if series.len() > 0 {
        let front = series.drop_last();
        assert(forall|i: int| 0 <= i < front.len() ==> front[i] == series[i]);
        lemma_series_restored(s, front);
        lemma_find(front, series.last().key_text());
        assert(find(front, series.last().key_text()) is None) by {
            if let Some(i) = find(front, series.last().key_text()) {
                assert(series[i].key_text() == series[series.len() - 1].key_text());
            }
        }
        assert(with_all_series(s, series).series =~= series);
    } else {
        assert(with_all_series(s, series).series =~= series);
    }
}

/// Items with distinct keys, put into a catalogue without items, are held
/// as the list has them.
proof fn lemma_items_restored(s: ShelfView, items: Seq<Item>)
    requires
        s.items.len() == 0,
        distinct(items),
    ensures
        with_items(s, items).items == items,
    decreases items.len(),
{
    if items.len() > 0 {
        let front = items.drop_last();
        assert(forall|i: int| 0 <= i < front.len() ==> front[i] == items[i]);
        lemma_items_restored(s, front);
        lemma_find(front, items.last().key_text());
        assert(find(front, items.last().key_text()) is None) by {
            if let Some(i) = find(front, items.last().key_text()) {
                assert(items[i].key_text() == items[items.len() - 1].key_text());
            }
        }
        assert(with_items(s, items).items =~= items);
    } else {
        assert(with_items(s, items).items =~= items);
    }
}

/// Blobs with distinct keys, put into a catalogue without blobs, are held
/// as the list has them.
proof fn lemma_blobs_restored(s: ShelfView, blobs: Seq<Blob>)
    requires
        s.blobs.len() == 0,
        distinct(blobs),
    ensures
        with_blobs(s, blobs).blobs == blobs,
    decreases blobs.len(),
{
    if blobs.len() > 0 {
        let front = blobs.drop_last();
        assert(forall|i: int| 0 <= i < front.len() ==> front[i] == blobs[i]);
        lemma_blobs_restored(s, front);
        lemma_find(front, blobs.last().key_text());
        assert(find(front, blobs.last().key_text()) is None) by {
            if let Some(i) = find(front, blobs.last().key_text()) {
                assert(blobs[i].key_text() == blobs[blobs.len() - 1].key_text());
            }
        }
        assert(with_blobs(s, blobs).blobs =~= blobs);
    } else {
        assert(with_blobs(s, blobs).blobs =~= blobs);
    }
}

/// Blobs whose keys are all keys that a blob may have hold no bad key.
proof fn lemma_no_bad_key(blobs: Seq<Blob>)
    requires
        forall|i: int| 0 <= i < blobs.len() ==> is_blob_key(#[trigger] blobs[i].key@),
    ensures
        first_bad_key(blobs) is None,
    decreases blobs.len(),
{
    if blobs.len() > 0 {
        let front = blobs.drop_last();
        assert forall|i: int| 0 <= i < front.len() implies is_blob_key(
            #[trigger] front[i].key@,
        ) by {
            assert(front[i] == blobs[i]);
        }
        lemma_no_bad_key(front);
        assert(blobs[blobs.len() - 1] == blobs.last());
    }
}

/// A catalogue comes back from its own records: a load into an empty
/// catalogue of the people, series, items and blobs that a catalogue
/// holds succeeds and gives a catalogue with the same records, in which
/// nothing counts as changed.
pub proof fn lemma_round_trip(s: ShelfView)
    requires
        s.wf(),
    ensures
        rejected_key(Some(s.blobs)) is None,
        all_resolve(ShelfView::empty(), s.people, s.series, s.items),
        loaded(ShelfView::empty(), s.people, s.series, s.items, Some(s.blobs)) == (ShelfView {
            dirty: Set::empty(),
            ..s
        }),
{
    let fresh = ShelfView::empty();
    lemma_no_bad_key(s.blobs);
    let registered = with_blobs(fresh, s.blobs);
    lemma_with_blobs(fresh, s.blobs);
    lemma_blobs_restored(fresh, s.blobs);
    let peopled = with_people(registered, s.people);
    lemma_with_people(registered, s.people, Seq::empty());
    lemma_people_restored(registered, s.people);
    let full = populated(registered, s.people, s.series);
    lemma_with_all_series(peopled, s.series, Seq::empty());
    lemma_series_restored(peopled, s.series);
    lemma_with_items(full, s.items);
    lemma_items_restored(full, s.items);
    let bare = populated(fresh, s.people, s.series);
    lemma_with_people(fresh, s.people, Seq::empty());
    lemma_people_restored(fresh, s.people);
    lemma_with_all_series(with_people(fresh, s.people), s.series, Seq::empty());
    lemma_series_restored(with_people(fresh, s.people), s.series);
    assert forall|i: int| 0 <= i < s.items.len() implies bare.unresolved(
        #[trigger] s.items[i],
    ) is None by {
        assert(s.unresolved(s.items[i]) is None);
    }
}

/// The people after a list of people was put into a catalogue.
proof fn lemma_people_upserted(s: ShelfView, people: Seq<Person>)
    ensures
        with_people(s, people).people == upserted_all(s.people, people),
    decreases people.len(),
{
    if people.len() > 0 {
        lemma_people_upserted(s, people.drop_last());
    }
}

/// The series after a list of series was put into a catalogue.
proof fn lemma_series_upserted(s: ShelfView, series: Seq<Series>)
    ensures
        with_all_series(s, series).series == upserted_all(s.series, series),
    decreases series.len(),
{
    if series.len() > 0 {
        lemma_series_upserted(s, series.drop_last());
    }
}

/// The items after a list of items was put into a catalogue.
proof fn lemma_items_upserted(s: ShelfView, items: Seq<Item>)
    ensures
        with_items(s, items).items == upserted_all(s.items, items),
    decreases items.len(),
{
    if items.len() > 0 {
        lemma_items_upserted(s, items.drop_last());
    }
}

/// The blobs after a list of blobs was put into a catalogue.
proof fn lemma_blobs_upserted(s: ShelfView, blobs: Seq<Blob>)
    ensures
        with_blobs(s, blobs).blobs == upserted_all(s.blobs, blobs),
    decreases blobs.len(),
{
    if blobs.len() > 0 {
        lemma_blobs_upserted(s, blobs.drop_last());
    }
}

/// The records of a load of lists with distinct keys, whose blobs all have
/// keys that a blob may have.
proof fn lemma_loaded_records(
    s: ShelfView,
    people: Seq<Person>,
    series: Seq<Series>,
    items: Seq<Item>,
    blobs: Seq<Blob>,
)
    requires
        forall|i: int| 0 <= i < blobs.len() ==> is_blob_key(#[trigger] blobs[i].key@),
    ensures
        ({
            let after = loaded(s, people, series, items, Some(blobs));
            &&& after.people == upserted_all(s.people, people)
            &&& after.series == upserted_all(s.series, series)
            &&& after.items == upserted_all(s.items, items)
            &&& after.blobs == upserted_all(s.blobs, blobs)
            &&& after.dirty == Set::<Seq<char>>::empty()
        }),
{
    lemma_no_bad_key(blobs);
    let registered = with_blobs(s, blobs);
    lemma_with_blobs(s, blobs);
    lemma_blobs_upserted(s, blobs);
    let peopled = with_people(registered, people);
    lemma_with_people(registered, people, Seq::empty());
    lemma_people_upserted(registered, people);
    let full = with_all_series(peopled, series);
    lemma_with_all_series(peopled, series, Seq::empty());
    lemma_series_upserted(peopled, series);
    lemma_with_items(full, items);
    lemma_items_upserted(full, items);
}

/// The order in which the records of a directory are read makes no
/// difference to a load: two loads of the same people, series, items and
/// blobs, each list with distinct keys and in whatever order, leave the
/// same record under every key, and nothing that counts as changed.
pub proof fn lemma_load_any_order(
    s: ShelfView,
    people: (Seq<Person>, Seq<Person>),
    series: (Seq<Series>, Seq<Series>),
    items: (Seq<Item>, Seq<Item>),
    blobs: (Seq<Blob>, Seq<Blob>),
    key: Seq<char>,
)
    requires
        distinct(people.0) && distinct(people.1) && same_records(people.0, people.1),
        distinct(series.0) && distinct(series.1) && same_records(series.0, series.1),
        distinct(items.0) && distinct(items.1) && same_records(items.0, items.1),
        distinct(blobs.0) && distinct(blobs.1) && same_records(blobs.0, blobs.1),
        forall|i: int| 0 <= i < blobs.0.len() ==> is_blob_key(#[trigger] blobs.0[i].key@),
    ensures
        ({
            let a = loaded(s, people.0, series.0, items.0, Some(blobs.0));
            let b = loaded(s, people.1, series.1, items.1, Some(blobs.1));
            &&& record_at(a.people, key) == record_at(b.people, key)
            &&& record_at(a.series, key) == record_at(b.series, key)
            &&& record_at(a.items, key) == record_at(b.items, key)
            &&& record_at(a.blobs, key) == record_at(b.blobs, key)
            &&& a.dirty == b.dirty
        }),
{
    assert forall|j: int| 0 <= j < blobs.1.len() implies is_blob_key(
        #[trigger] blobs.1[j].key@,
    ) by {
        assert(blobs.0.contains(blobs.1[j]));
        let i = choose|i: int| 0 <= i < blobs.0.len() && blobs.0[i] == blobs.1[j];
        assert(is_blob_key(blobs.0[i].key@));
    }
    lemma_loaded_records(s, people.0, series.0, items.0, blobs.0);
    lemma_loaded_records(s, people.1, series.1, items.1, blobs.1);
    lemma_upserted_all_any_order(s.people, people.0, people.1, key);
    lemma_upserted_all_any_order(s.series, series.0, series.1, key);
    lemma_upserted_all_any_order(s.items, items.0, items.1, key);
    lemma_upserted_all_any_order(s.blobs, blobs.0, blobs.1, key);
}

} // verus!
