//! The catalogue in memory: people, series, items and blobs, with the set
//! of keys that changed since the catalogue was last stored.

use vstd::prelude::*;
use vstd::string::*;
use crate::common::{Blob, Person};
use crate::item::Item;
use crate::keyed::{contains_key, distinct, find, lemma_find, lemma_find_upserted, lemma_upserted_distinct, lemma_upserted_twice, locate, upsert, upserted, Keyed};
use crate::series::Series;
use crate::text::{add_text, distinct_texts, holds_text, lemma_text_set_push, remove_text, starts_with, text_set};

verus! {

/// Why the catalogue refused a record.
#[derive(Debug)]
pub enum ShelfError {
    /// The record names a person or a series that the catalogue lacks.
    InvalidReference(String),
    /// The key is not one that a blob may have.
    InvalidKey(String),
}

/// Whether a key is one that a blob may have.
pub open spec fn is_blob_key(key: Seq<char>) -> bool {
    "blob-"@.is_prefix_of(key)
}

/// The first of the given keys that no person has.
pub open spec fn first_missing(refs: Seq<Seq<char>>, people: Seq<Person>) -> Option<Seq<char>>
    decreases refs.len(),
{
    if refs.len() == 0 {
        None
    } else {
        match first_missing(refs.drop_last(), people) {
            Some(k) => Some(k),
            None => if contains_key(people, refs.last()) {
                None
            } else {
                Some(refs.last())
            },
        }
    }
}

/// The tags that the items have.
pub open spec fn tag_set(items: Seq<Item>) -> Set<Seq<char>>
    decreases items.len(),
{
    if items.len() == 0 {
        Set::empty()
    } else {
        tag_set(items.drop_last()).union(text_set(items.last().tags@))
    }
}

/// The catalogue as lists of records, each list in the order in which its
/// keys first came, and the set of changed keys.
pub struct ShelfView {
    pub people: Seq<Person>,
    pub series: Seq<Series>,
    pub items: Seq<Item>,
    pub blobs: Seq<Blob>,
    pub dirty: Set<Seq<char>>,
}

impl ShelfView {
    /// The catalogue that holds nothing.
    pub open spec fn empty() -> ShelfView {
        ShelfView {
            people: Seq::empty(),
            series: Seq::empty(),
            items: Seq::empty(),
            blobs: Seq::empty(),
            dirty: Set::empty(),
        }
    }

    /// The first person that an item names and the catalogue lacks; where
    /// it has them all, the item's series if the catalogue lacks that.
    pub open spec fn unresolved(self, item: Item) -> Option<Seq<char>> {
        match first_missing(item.people_keys(), self.people) {
            Some(k) => Some(k),
            None => match item.series_key() {
                Some(k) => if contains_key(self.series, k) {
                    None
                } else {
                    Some(k)
                },
                None => None,
            },
        }
    }

    /// What always holds of a catalogue: no two people, series, items or
    /// blobs share a key, every blob's key is one that a blob may have, and
    /// every item names only people and a series that the catalogue holds.
    pub open spec fn wf(self) -> bool {
        &&& distinct(self.people)
        &&& distinct(self.series)
        &&& distinct(self.items)
        &&& distinct(self.blobs)
        &&& forall|i: int| 0 <= i < self.blobs.len() ==> is_blob_key(#[trigger] self.blobs[i].key@)
        &&& forall|i: int|
            0 <= i < self.items.len() ==> self.unresolved(#[trigger] self.items[i]) is None
    }

    /// The catalogue after a person was put under their key.
    pub open spec fn with_person(self, person: Person) -> ShelfView {
        ShelfView {
            people: upserted(self.people, person),
            dirty: self.dirty.insert(person.key@),
            ..self
        }
    }

    /// The catalogue after a series was put under its key.
    pub open spec fn with_series(self, series: Series) -> ShelfView {
        ShelfView {
            series: upserted(self.series, series),
            dirty: self.dirty.insert(series.key@),
            ..self
        }
    }

    /// The catalogue after an item was put under its key: in the place of
    /// the item that had the key, or at the end where none had it.
    pub open spec fn with_item(self, item: Item) -> ShelfView {
        ShelfView {
            items: upserted(self.items, item),
            dirty: self.dirty.insert(item.key@),
            ..self
        }
    }

    /// The catalogue after a blob was put under its key.
    pub open spec fn with_blob(self, blob: Blob) -> ShelfView {
        ShelfView {
            blobs: upserted(self.blobs, blob),
            dirty: self.dirty.insert(blob.key@),
            ..self
        }
    }
}

/// `first_missing` finds nothing exactly when every key has its person.
pub proof fn lemma_first_missing_none(refs: Seq<Seq<char>>, people: Seq<Person>)
    ensures
        first_missing(refs, people) is None <==> forall|i: int|
            0 <= i < refs.len() ==> contains_key(people, #[trigger] refs[i]),
    decreases refs.len(),
{
    if refs.len() > 0 {
        let front = refs.drop_last();
        lemma_first_missing_none(front, people);
        assert(forall|i: int| 0 <= i < front.len() ==> front[i] == refs[i]);
        if first_missing(refs, people) is None {
            assert forall|i: int| 0 <= i < refs.len() implies contains_key(
                people,
                #[trigger] refs[i],
            ) by {
                if i < front.len() {
                    assert(front[i] == refs[i]);
                }
            }
        }
        if forall|i: int| 0 <= i < refs.len() ==> contains_key(people, #[trigger] refs[i]) {
            assert forall|i: int| 0 <= i < front.len() implies contains_key(
                people,
                #[trigger] front[i],
            ) by {
                assert(front[i] == refs[i]);
            }
            assert(contains_key(people, refs[refs.len() - 1]));
        }
    }
}

/// What `first_missing` finds in a beginning of the keys, it finds in all
/// of them.
pub proof fn lemma_first_missing_prefix(refs: Seq<Seq<char>>, people: Seq<Person>, n: int)
    requires
        0 <= n <= refs.len(),
        first_missing(refs.take(n), people) is Some,
    ensures
        first_missing(refs, people) == first_missing(refs.take(n), people),
    decreases refs.len(),
{
    if n == refs.len() {
        assert(refs.take(n) =~= refs);
    } else {
        assert(refs.drop_last().take(n) =~= refs.take(n));
        lemma_first_missing_prefix(refs.drop_last(), people, n);
    }
}

/// A catalogue that gains people and series, and loses none, still
/// resolves what it resolved.
pub proof fn lemma_unresolved_grows(before: ShelfView, after: ShelfView, item: Item)
    requires
        before.unresolved(item) is None,
        forall|k: Seq<char>| contains_key(before.people, k) ==> contains_key(after.people, k),
        forall|k: Seq<char>| contains_key(before.series, k) ==> contains_key(after.series, k),
    ensures
        after.unresolved(item) is None,
{
    lemma_first_missing_none(item.people_keys(), before.people);
    lemma_first_missing_none(item.people_keys(), after.people);
}

/// The catalogue.
pub struct Shelf {
    people: Vec<Person>,
    items: Vec<Item>,
    series: Vec<Series>,
    blobs: Vec<Blob>,
    dirty: Vec<String>,
}

/// An item together with the catalogue that holds it.
pub struct ItemRef<'a>(pub &'a Shelf, pub &'a Item);

impl View for Shelf {
    type V = ShelfView;

    closed spec fn view(&self) -> ShelfView {
        ShelfView {
            people: self.people@,
            series: self.series@,
            items: self.items@,
            blobs: self.blobs@,
            dirty: text_set(self.dirty@),
        }
    }
}

impl Default for Shelf {
    /// An empty catalogue.
    fn default() -> (r: Shelf)
        ensures
            r@ == ShelfView::empty(),
    {
        Shelf::new()
    }
}

impl Shelf {
    /// An empty catalogue.
    pub fn new() -> (r: Shelf)
        ensures
            r@ == ShelfView::empty(),
            r@.wf(),
    {
        let r = Shelf {
            people: Vec::new(),
            items: Vec::new(),
            series: Vec::new(),
            blobs: Vec::new(),
            dirty: Vec::new(),
        };
        proof {
            assert(text_set(r.dirty@) =~= Set::<Seq<char>>::empty());
        }
        r
    }

    /// The items, in the order in which their keys first came.
    pub fn all_items(&self) -> (r: &[Item])
        ensures
            r@ == self@.items,
    {
        self.items.as_slice()
    }

    /// Every item once, in the order in which their keys first came, each
    /// with the catalogue itself.
    pub fn query_items(&self) -> (r: Vec<ItemRef<'_>>)
        ensures
            r@.len() == self@.items.len(),
            forall|i: int| 0 <= i < r@.len() ==> *(#[trigger] r@[i]).0 == *self && *r@[i].1 == self@.items[i],
    {
        let mut r: Vec<ItemRef<'_>> = Vec::new();
        let mut i: usize = 0;
        while i < self.items.len()
            invariant
                i <= self.items.len(),
                r@.len() == i,
                forall|j: int| 0 <= j < i ==> *(#[trigger] r@[j]).0 == *self && *r@[j].1 == self.items@[j],
            decreases self.items.len() - i,
        {
            r.push(ItemRef(self, &self.items[i]));
            i += 1;
        }
        r
    }

    /// Every person once, in the order in which their keys first came.
    pub fn query_people(&self) -> (r: Vec<&Person>)
        ensures
            r@.len() == self@.people.len(),
            forall|i: int| 0 <= i < r@.len() ==> *(#[trigger] r@[i]) == self@.people[i],
    {
        let mut r: Vec<&Person> = Vec::new();
        let mut i: usize = 0;
        while i < self.people.len()
            invariant
                i <= self.people.len(),
                r@.len() == i,
                forall|j: int| 0 <= j < i ==> *(#[trigger] r@[j]) == self.people@[j],
            decreases self.people.len() - i,
        {
            r.push(&self.people[i]);
            i += 1;
        }
        r
    }

    /// Every series once, in the order in which their keys first came.
    pub fn query_series(&self) -> (r: Vec<&Series>)
        ensures
            r@.len() == self@.series.len(),
            forall|i: int| 0 <= i < r@.len() ==> *(#[trigger] r@[i]) == self@.series[i],
    {
        let mut r: Vec<&Series> = Vec::new();
        let mut i: usize = 0;
        while i < self.series.len()
            invariant
                i <= self.series.len(),
                r@.len() == i,
                forall|j: int| 0 <= j < i ==> *(#[trigger] r@[j]) == self.series@[j],
            decreases self.series.len() - i,
        {
            r.push(&self.series[i]);
            i += 1;
        }
        r
    }

    /// Every blob once, in the order in which their keys first came.
    pub fn query_blobs(&self) -> (r: Vec<&Blob>)
        ensures
            r@.len() == self@.blobs.len(),
            forall|i: int| 0 <= i < r@.len() ==> *(#[trigger] r@[i]) == self@.blobs[i],
    {
        let mut r: Vec<&Blob> = Vec::new();
        let mut i: usize = 0;
        while i < self.blobs.len()
            invariant
                i <= self.blobs.len(),
                r@.len() == i,
                forall|j: int| 0 <= j < i ==> *(#[trigger] r@[j]) == self.blobs@[j],
            decreases self.blobs.len() - i,
        {
            r.push(&self.blobs[i]);
            i += 1;
        }
        r
    }

    /// Whether the catalogue holds a person with the given key.
    pub fn has_person(&self, key: &str) -> (r: bool)
        ensures
            r == contains_key(self@.people, key@),
    {
        locate(&self.people, key).is_some()
    }

    /// Whether the catalogue holds a series with the given key.
    pub fn has_series(&self, key: &str) -> (r: bool)
        ensures
            r == contains_key(self@.series, key@),
    {
        locate(&self.series, key).is_some()
    }

    /// The first item with the given key.
    pub fn get_item(&self, key: &str) -> (r: Option<&Item>)
        ensures
            match r {
                Some(item) => find(self@.items, key@) matches Some(i) && *item == self@.items[i],
                None => !contains_key(self@.items, key@),
            },
    {
        match locate(&self.items, key) {
            Some(i) => {
                proof {
                    lemma_find(self.items@, key@);
                }
                Some(&self.items[i])
            },
            None => None,
        }
    }

    /// The tags of all items, each once.
    pub fn tags(&self) -> (r: Vec<String>)
        ensures
            distinct_texts(r@),
            text_set(r@) == tag_set(self@.items),
    {
        let mut r: Vec<String> = Vec::new();
        let mut i: usize = 0;
        proof {
            assert(self.items@.take(0) =~= Seq::<Item>::empty());
            assert(text_set(r@) =~= Set::<Seq<char>>::empty());
        }
        while i < self.items.len()
            invariant
                i <= self.items.len(),
                distinct_texts(r@),
                text_set(r@) == tag_set(self.items@.take(i as int)),
            decreases self.items.len() - i,
        {
            let tags = &self.items[i].tags;
            let ghost base = text_set(r@);
            let mut j: usize = 0;
            proof {
                assert(text_set(tags@.take(0)) =~= Set::<Seq<char>>::empty());
                assert(base.union(Set::<Seq<char>>::empty()) =~= base);
            }
            while j < tags.len()
                invariant
                    j <= tags.len(),
                    distinct_texts(r@),
                    text_set(r@) == base.union(text_set(tags@.take(j as int))),
                decreases tags.len() - j,
            {
                proof {
                    assert(tags@.take(j + 1) =~= tags@.take(j as int).push(tags@[j as int]));
                    lemma_text_set_push(tags@.take(j as int), tags@[j as int]);
                    assert(base.union(text_set(tags@.take(j as int))).insert(tags@[j as int]@)
                        =~= base.union(text_set(tags@.take(j as int)).insert(tags@[j as int]@)));
                }
                add_text(&mut r, tags[j].clone());
                j += 1;
            }
            proof {
                assert(tags@.take(j as int) =~= tags@);
                assert(self.items@.take(i + 1).drop_last() =~= self.items@.take(i as int));
                assert(self.items@.take(i + 1).last() == self.items@[i as int]);
            }
            i += 1;
        }
        proof {
            assert(self.items@.take(i as int) =~= self.items@);
        }
        r
    }

    /// The blob with the given key.
    pub fn get_blob(&self, key: &str) -> (r: Option<&Blob>)
        ensures
            match r {
                Some(b) => find(self@.blobs, key@) matches Some(i) && *b == self@.blobs[i],
                None => !contains_key(self@.blobs, key@),
            },
    {
        match locate(&self.blobs, key) {
            Some(i) => {
                proof {
                    lemma_find(self.blobs@, key@);
                }
                Some(&self.blobs[i])
            },
            None => None,
        }
    }

    /// Whether the key changed since the catalogue was last stored.
    pub fn is_dirty(&self, key: &str) -> (r: bool)
        ensures
            r == self@.dirty.contains(key@),
    {
        holds_text(&self.dirty, key)
    }

    /// Forgets that the key changed.
    pub fn clear_dirty(&mut self, key: &str)
        ensures
            final(self)@ == (ShelfView { dirty: old(self)@.dirty.remove(key@), ..old(self)@ }),
            old(self)@.wf() ==> final(self)@.wf(),
    {
        remove_text(&mut self.dirty, key);
    }

    /// Forgets every change.
    pub fn clear_all_dirty(&mut self)
        ensures
            final(self)@ == (ShelfView { dirty: Set::empty(), ..old(self)@ }),
            old(self)@.wf() ==> final(self)@.wf(),
    {
        self.dirty.clear();
        proof {
            assert(text_set(self.dirty@) =~= Set::<Seq<char>>::empty());
        }
    }
}

impl Shelf {
    /// Inserts or updates a person, and marks their key as changed.
    ///
    /// Returns true if the person did not previously exist.
    pub fn insert_person(&mut self, person: Person) -> (created: bool)
        ensures
            final(self)@ == old(self)@.with_person(person),
            created == !contains_key(old(self)@.people, person.key@),
            old(self)@.wf() ==> final(self)@.wf(),
    {
        proof {
            if self@.wf() {
                lemma_with_person_wf(self@, person);
            }
        }
        add_text(&mut self.dirty, person.key.clone());
        upsert(&mut self.people, person)
    }

    /// Inserts or updates a series, and marks its key as changed.
    ///
    /// Returns true if the series did not previously exist.
    pub fn insert_series(&mut self, series: Series) -> (created: bool)
        ensures
            final(self)@ == old(self)@.with_series(series),
            created == !contains_key(old(self)@.series, series.key@),
            old(self)@.wf() ==> final(self)@.wf(),
    {
        proof {
            if self@.wf() {
                lemma_with_series_wf(self@, series);
            }
        }
        add_text(&mut self.dirty, series.key.clone());
        upsert(&mut self.series, series)
    }

    /// Checks that the catalogue holds every person that the item names,
    /// and its series. The error names the first that it lacks: people
    /// first, in the item's order, then the series.
    pub fn validate_item(&self, item: &Item) -> (r: Result<(), ShelfError>)
        ensures
            match r {
                Ok(()) => self@.unresolved(*item) is None,
                Err(ShelfError::InvalidReference(k)) => self@.unresolved(*item) == Some(k@),
                Err(ShelfError::InvalidKey(_)) => false,
            },
    {
        let ghost refs = item.people_keys();
        let mut i: usize = 0;
        while i < item.people.len()
            invariant
                i <= item.people.len(),
                refs == item.people_keys(),
                first_missing(refs.take(i as int), self.people@) is None,
            decreases item.people.len() - i,
        {
            let key = &item.people[i].1;
            proof {
                assert(refs.take(i + 1).drop_last() =~= refs.take(i as int));
                assert(refs.take(i + 1).last() == key@);
            }
            if locate(&self.people, key.as_str()).is_none() {
                proof {
                    lemma_first_missing_prefix(refs, self.people@, i + 1);
                }
                return Err(ShelfError::InvalidReference(key.clone()));
            }
            i += 1;
        }
        proof {
            assert(refs.take(i as int) =~= refs);
        }
        match &item.series {
            Some((key, _)) => {
                if locate(&self.series, key.as_str()).is_none() {
                    return Err(ShelfError::InvalidReference(key.clone()));
                }
            },
            None => {},
        }
        Ok(())
    }

    /// Inserts or updates an item and marks its key as changed, provided
    /// that `validate_item` accepts it; else the catalogue stays as it was.
    /// An item with a new key goes to the end; one with the key of an item
    /// that is there takes that item's place.
    pub fn insert_item(&mut self, item: Item) -> (r: Result<(), ShelfError>)
        ensures
            match r {
                Ok(()) => old(self)@.unresolved(item) is None && final(self)@
                    == old(self)@.with_item(item),
                Err(ShelfError::InvalidReference(k)) => old(self)@.unresolved(item) == Some(k@)
                    && final(self)@ == old(self)@,
                Err(ShelfError::InvalidKey(_)) => false,
            },
            old(self)@.wf() ==> final(self)@.wf(),
    {
        match self.validate_item(&item) {
            Ok(()) => {},
            Err(e) => {
                return Err(e);
            },
        }
        proof {
            if self@.wf() {
                lemma_with_item_wf(self@, item);
            }
        }
        add_text(&mut self.dirty, item.key.clone());
        upsert(&mut self.items, item);
        Ok(())
    }

    /// Puts an item in the place of the item with its key, or at the end
    /// where no item has it, and marks its key as changed, provided that
    /// `validate_item` accepts it; else the catalogue stays as it was.
    pub fn replace_item(&mut self, item: Item) -> (r: Result<(), ShelfError>)
        ensures
            match r {
                Ok(()) => old(self)@.unresolved(item) is None && final(self)@
                    == old(self)@.with_item(item),
                Err(ShelfError::InvalidReference(k)) => old(self)@.unresolved(item) == Some(k@)
                    && final(self)@ == old(self)@,
                Err(ShelfError::InvalidKey(_)) => false,
            },
            old(self)@.wf() ==> final(self)@.wf(),
    {
        self.insert_item(item)
    }

    /// Inserts or updates the description of a blob and marks its key as
    /// changed, provided that the key begins with `blob-`; else the
    /// catalogue stays as it was.
    pub fn insert_blob(&mut self, blob: Blob) -> (r: Result<(), ShelfError>)
        ensures
            match r {
                Ok(()) => is_blob_key(blob.key@) && final(self)@ == old(self)@.with_blob(blob),
                Err(ShelfError::InvalidKey(k)) => !is_blob_key(blob.key@) && k@ == blob.key@
                    && final(self)@ == old(self)@,
                Err(ShelfError::InvalidReference(_)) => false,
            },
            old(self)@.wf() ==> final(self)@.wf(),
    {
        if !starts_with(blob.key.as_str(), "blob-") {
            return Err(ShelfError::InvalidKey(blob.key));
        }
        proof {
            if self@.wf() {
                lemma_with_blob_wf(self@, blob);
            }
        }
        add_text(&mut self.dirty, blob.key.clone());
        upsert(&mut self.blobs, blob);
        Ok(())
    }
}

/// A person put under their key leaves the catalogue well formed.
pub proof fn lemma_with_person_wf(s: ShelfView, person: Person)
    requires
        s.wf(),
    ensures
        s.with_person(person).wf(),
{
    let after = s.with_person(person);
    lemma_upserted_distinct(s.people, person);
    assert forall|k: Seq<char>| contains_key(s.people, k) implies contains_key(
        after.people,
        k,
    ) by {
        lemma_find_upserted(s.people, person, k);
    }
    assert forall|i: int| 0 <= i < after.items.len() implies after.unresolved(
        #[trigger] after.items[i],
    ) is None by {
        lemma_unresolved_grows(s, after, s.items[i]);
    }
}

/// A series put under its key leaves the catalogue well formed.
pub proof fn lemma_with_series_wf(s: ShelfView, series: Series)
    requires
        s.wf(),
    ensures
        s.with_series(series).wf(),
{
    let after = s.with_series(series);
    lemma_upserted_distinct(s.series, series);
    assert forall|k: Seq<char>| contains_key(s.series, k) implies contains_key(
        after.series,
        k,
    ) by {
        lemma_find_upserted(s.series, series, k);
    }
    assert forall|i: int| 0 <= i < after.items.len() implies after.unresolved(
        #[trigger] after.items[i],
    ) is None by {
        lemma_unresolved_grows(s, after, s.items[i]);
    }
}

/// An item that resolves, put under its key, leaves the catalogue well
/// formed.
pub proof fn lemma_with_item_wf(s: ShelfView, item: Item)
    requires
        s.wf(),
        s.unresolved(item) is None,
    ensures
        s.with_item(item).wf(),
{
    let after = s.with_item(item);
    lemma_upserted_distinct(s.items, item);
    lemma_find(s.items, item.key@);
    assert forall|i: int| 0 <= i < after.items.len() implies after.unresolved(
        #[trigger] after.items[i],
    ) is None by {
        if after.items[i] != item {
            assert(after.items[i] == s.items[i]);
            assert(s.unresolved(s.items[i]) is None);
        }
    }
}

/// An item inserted under the key of an item that is there takes its
/// place: the number of items stays, and the one item with that key is
/// the one inserted.
pub proof fn lemma_item_replaced(s: ShelfView, item: Item)
    requires
        s.wf(),
        contains_key(s.items, item.key@),
    ensures
        ({
            let after = s.with_item(item);
            &&& after.items.len() == s.items.len()
            &&& find(after.items, item.key@) == find(s.items, item.key@)
            &&& find(after.items, item.key@) matches Some(i) && after.items[i] == item
            &&& forall|j: int|
                0 <= j < after.items.len() && after.items[j].key@ == item.key@ ==> after.items[j]
                    == item
        }),
{
    let after = s.with_item(item);
    lemma_upserted_distinct(s.items, item);
    lemma_find(s.items, item.key@);
    lemma_find_upserted(s.items, item, item.key@);
    let i = find(s.items, item.key@)->0;
    assert(after.items[i] == item);
    assert forall|j: int|
        0 <= j < after.items.len() && after.items[j].key@ == item.key@ implies after.items[j]
        == item by {
        if j < i {
            assert(after.items[j].key_text() != after.items[i].key_text());
        } else if i < j {
            assert(after.items[i].key_text() != after.items[j].key_text());
        }
    }
}

/// An item inserted twice under one key is held once: the second insert
/// leaves the number of items as the first left it, and the one item with
/// that key is the one inserted last.
pub proof fn lemma_insert_item_twice(s: ShelfView, first: Item, second: Item)
    requires
        s.wf(),
        first.key@ == second.key@,
    ensures
        ({
            let once = s.with_item(first);
            let twice = once.with_item(second);
            &&& twice.items.len() == once.items.len()
            &&& find(twice.items, second.key@) matches Some(i) && twice.items[i] == second
            &&& forall|j: int|
                0 <= j < twice.items.len() && twice.items[j].key@ == second.key@
                    ==> twice.items[j] == second
        }),
{
    lemma_upserted_twice(s.items, first, second);
}

/// A blob put under a key that a blob may have leaves the catalogue well
/// formed.
pub proof fn lemma_with_blob_wf(s: ShelfView, blob: Blob)
    requires
        s.wf(),
        is_blob_key(blob.key@),
    ensures
        s.with_blob(blob).wf(),
{
    let after = s.with_blob(blob);
    lemma_upserted_distinct(s.blobs, blob);
    lemma_find(s.blobs, blob.key@);
    assert forall|i: int| 0 <= i < after.blobs.len() implies is_blob_key(
        #[trigger] after.blobs[i].key@,
    ) by {
        if after.blobs[i] != blob {
            assert(after.blobs[i] == s.blobs[i]);
        }
    }
    assert forall|i: int| 0 <= i < after.items.len() implies after.unresolved(
        #[trigger] after.items[i],
    ) is None by {
        lemma_unresolved_grows(s, after, s.items[i]);
    }
}

/// A person inserted twice under one key is held once: the second insert
/// leaves the number of people as the first left it, and the one person
/// with that key is the one inserted last.
pub proof fn lemma_insert_person_twice(s: ShelfView, first: Person, second: Person)
    requires
        s.wf(),
        first.key@ == second.key@,
    ensures
        ({
            let once = s.with_person(first);
            let twice = once.with_person(second);
            &&& twice.wf()
            &&& twice.people.len() == once.people.len()
            &&& find(twice.people, second.key@) matches Some(i) && twice.people[i] == second
            &&& forall|j: int|
                0 <= j < twice.people.len() && twice.people[j].key@ == second.key@
                    ==> twice.people[j] == second
        }),
{
    lemma_upserted_twice(s.people, first, second);
    lemma_with_person_wf(s, first);
    lemma_with_person_wf(s.with_person(first), second);
}

/// A series inserted twice under one key is held once: the second insert
/// leaves the number of series as the first left it, and the one series
/// with that key is the one inserted last.
pub proof fn lemma_insert_series_twice(s: ShelfView, first: Series, second: Series)
    requires
        s.wf(),
        first.key@ == second.key@,
    ensures
        ({
            let once = s.with_series(first);
            let twice = once.with_series(second);
            &&& twice.wf()
            &&& twice.series.len() == once.series.len()
            &&& find(twice.series, second.key@) matches Some(i) && twice.series[i] == second
            &&& forall|j: int|
                0 <= j < twice.series.len() && twice.series[j].key@ == second.key@
                    ==> twice.series[j] == second
        }),
{
    lemma_upserted_twice(s.series, first, second);
    lemma_with_series_wf(s, first);
    lemma_with_series_wf(s.with_series(first), second);
}

/// An item that names a person whom the catalogue lacks does not resolve,
/// so neither `insert_item` nor `replace_item` takes it, and the catalogue
/// stays as it was.
pub proof fn lemma_dangling_person(s: ShelfView, item: Item, i: int)
    requires
        0 <= i < item.people@.len(),
        !contains_key(s.people, item.people@[i].1@),
    ensures
        s.unresolved(item) is Some,
        !contains_key(s.people, s.unresolved(item)->0),
{
    lemma_first_missing_none(item.people_keys(), s.people);
    assert(item.people_keys()[i] == item.people@[i].1@);
    lemma_first_missing_absent(item.people_keys(), s.people);
}

/// The key that `first_missing` finds is one of the given keys, and no
/// person has it.
pub proof fn lemma_first_missing_absent(refs: Seq<Seq<char>>, people: Seq<Person>)
    ensures
        first_missing(refs, people) matches Some(k) ==> refs.contains(k) && !contains_key(
            people,
            k,
        ),
    decreases refs.len(),
{
    if refs.len() > 0 {
        lemma_first_missing_absent(refs.drop_last(), people);
        match first_missing(refs.drop_last(), people) {
            Some(k) => {
                let j = choose|j: int| 0 <= j < refs.drop_last().len() && refs.drop_last()[j] == k;
                assert(refs[j] == k);
            },
            None => {
                if !contains_key(people, refs.last()) {
                    assert(refs[refs.len() - 1] == refs.last());
                }
            },
        }
    }
}

/// An item that names a series which the catalogue lacks does not
/// resolve.
pub proof fn lemma_dangling_series(s: ShelfView, item: Item)
    requires
        item.series_key() matches Some(k) && !contains_key(s.series, k),
    ensures
        s.unresolved(item) is Some,
{
}

} // verus!
