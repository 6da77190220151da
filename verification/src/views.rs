//! What the pages of the catalogue show.

use vstd::prelude::*;
use vstd::string::*;
use crate::common::{DateBool, Kind, Status};
use crate::item::{Entry, Item};
use crate::keyed::lemma_insert_multiset;
use crate::order::{arranged, lemma_slot};
use crate::shelf::Shelf;
use crate::text::{lemma_precedes_antisymmetric, lemma_precedes_total, lemma_precedes_transitive, precedes, same_text, text_le};

verus! {

/// How many of the entries are completed: those whose marker is anything
/// but `False`.
pub open spec fn completed_count(entries: Seq<Entry>) -> nat
    decreases entries.len(),
{
    if entries.len() == 0 {
        0
    } else {
        completed_count(entries.drop_last()) + if entries.last().completed == DateBool::False {
            0nat
        } else {
            1nat
        }
    }
}

/// The name of a kind of work as a page shows it.
pub open spec fn shown_kind(kind: Seq<char>) -> Seq<char> {
    if kind == "ShortStory"@ {
        "Short Story"@
    } else if kind == "VisualNovel"@ {
        "Visual Novel"@
    } else {
        kind
    }
}

/// No more entries are completed than there are.
proof fn lemma_completed_count_bound(entries: Seq<Entry>)
    ensures
        completed_count(entries) <= entries.len(),
    decreases entries.len(),
{
    if entries.len() > 0 {
        lemma_completed_count_bound(entries.drop_last());
    }
}

/// Counts the entries that are completed.
pub fn count_completed(entries: &Vec<Entry>) -> (r: usize)
    ensures
        r == completed_count(entries@),
{
    let mut count: usize = 0;
    let mut i: usize = 0;
    proof {
        assert(entries@.take(0) =~= Seq::<Entry>::empty());
    }
    while i < entries.len()
        invariant
            i <= entries.len(),
            count == completed_count(entries@.take(i as int)),
        decreases entries.len() - i,
    {
        proof {
            assert(entries@.take(i + 1).drop_last() =~= entries@.take(i as int));
            assert(entries@.take(i + 1).last() == entries@[i as int]);
            lemma_completed_count_bound(entries@.take(i as int));
        }
        match entries[i].completed {
            DateBool::False => {},
            _ => {
                count += 1;
            },
        }
        i += 1;
    }
    proof {
        assert(entries@.take(i as int) =~= entries@);
    }
    count
}

/// Writes the name of a kind of work as a page shows it: the two kinds
/// whose names are two words get their space.
pub fn format_kind(kind: &str) -> (r: String)
    ensures
        r@ == shown_kind(kind@),
{
    if same_text(kind, "ShortStory") {
        String::from_str("Short Story")
    } else if same_text(kind, "VisualNovel") {
        String::from_str("Visual Novel")
    } else {
        kind.to_owned()
    }
}

/// The name of a kind of work, as it is written in code.
pub open spec fn kind_text(kind: Kind) -> Seq<char> {
    match kind {
        Kind::Unknown => "Unknown"@,
        Kind::Manga => "Manga"@,
        Kind::TV => "TV"@,
        Kind::Film => "Film"@,
        Kind::Novel => "Novel"@,
        Kind::OVA => "OVA"@,
        Kind::ONA => "ONA"@,
        Kind::Music => "Music"@,
        Kind::Play => "Play"@,
        Kind::Collection => "Collection"@,
        Kind::ShortStory => "ShortStory"@,
        Kind::Musical => "Musical"@,
        Kind::VisualNovel => "VisualNovel"@,
        Kind::NonFiction => "NonFiction"@,
    }
}

/// The name of an item under its default label; empty where it has none.
pub open spec fn default_name(item: Item) -> Seq<char> {
    match item.name.position(item.name.default@) {
        Some(i) => item.name.alternatives@[i].1@,
        None => Seq::empty(),
    }
}

/// The order in which pages list items: by the name of the kind, and
/// within a kind by the default name.
pub open spec fn listed_before(a: Item, b: Item) -> bool {
    if kind_text(a.kind) != kind_text(b.kind) {
        precedes(kind_text(a.kind), kind_text(b.kind))
    } else {
        precedes(default_name(a), default_name(b))
    }
}

/// The order in which pages list items, as a relation.
pub open spec fn by_listing() -> spec_fn(Item, Item) -> bool {
    |a: Item, b: Item| listed_before(a, b)
}

/// Whether the items stand in the order in which pages list them.
pub open spec fn in_listed_order(items: Seq<Item>) -> bool {
    forall|i: int, j: int| 0 <= i < j < items.len() ==> listed_before(items[i], items[j])
}

/// The items that are wanted, in the order in which they stand.
pub open spec fn chosen(items: Seq<Item>, wanted: spec_fn(Item) -> bool) -> Seq<Item>
    decreases items.len(),
{
    if items.len() == 0 {
        Seq::empty()
    } else if wanted(items.last()) {
        chosen(items.drop_last(), wanted).push(items.last())
    } else {
        chosen(items.drop_last(), wanted)
    }
}

/// Whether an item is being read or watched.
pub open spec fn is_in_progress(item: Item) -> bool {
    item.status == Status::InProgress
}

/// Whether an item is a book that was read to the end: a novel, a play, a
/// collection or a short story with the status `Completed`.
pub open spec fn is_finished_book(item: Item) -> bool {
    item.status == Status::Completed && (item.kind == Kind::Novel || item.kind == Kind::Play
        || item.kind == Kind::Collection || item.kind == Kind::ShortStory)
}

/// The items behind a list of references.
pub open spec fn shown(refs: Seq<&Item>) -> Seq<Item> {
    refs.map_values(|r: &Item| *r)
}

/// Of two items, one is listed before the other.
pub proof fn lemma_listed_total(a: Item, b: Item)
    ensures
        listed_before(a, b) || listed_before(b, a),
{
    lemma_precedes_total(kind_text(a.kind), kind_text(b.kind));
    lemma_precedes_total(default_name(a), default_name(b));
}

/// What is listed before an item is listed before all that the item is
/// listed before.
pub proof fn lemma_listed_transitive(a: Item, b: Item, c: Item)
    requires
        listed_before(a, b),
        listed_before(b, c),
    ensures
        listed_before(a, c),
{
    let (ka, kb, kc) = (kind_text(a.kind), kind_text(b.kind), kind_text(c.kind));
    if ka == kb && kb == kc {
        lemma_precedes_transitive(default_name(a), default_name(b), default_name(c));
    } else if ka == kb || kb == kc {
    } else {
        lemma_precedes_transitive(ka, kb, kc);
        if ka == kc {
            lemma_precedes_antisymmetric(ka, kb);
        }
    }
}

/// The name of a kind of work, as it is written in code.
pub fn kind_name(kind: Kind) -> (r: &'static str)
    ensures
        r@ == kind_text(kind),
{
    match kind {
        Kind::Unknown => "Unknown",
        Kind::Manga => "Manga",
        Kind::TV => "TV",
        Kind::Film => "Film",
        Kind::Novel => "Novel",
        Kind::OVA => "OVA",
        Kind::ONA => "ONA",
        Kind::Music => "Music",
        Kind::Play => "Play",
        Kind::Collection => "Collection",
        Kind::ShortStory => "ShortStory",
        Kind::Musical => "Musical",
        Kind::VisualNovel => "VisualNovel",
        Kind::NonFiction => "NonFiction",
    }
}

/// Whether pages list the first item before the second, or may list them
/// either way.
fn lists_before(a: &Item, b: &Item) -> (r: bool)
    ensures
        r == listed_before(*a, *b),
{
    let ka = kind_name(a.kind);
    let kb = kind_name(b.kind);
    if !same_text(ka, kb) {
        return text_le(ka, kb);
    }
    let na = match a.name.get(a.name.default.as_str()) {
        Some(s) => s.as_str(),
        None => "",
    };
    let nb = match b.name.get(b.name.default.as_str()) {
        Some(s) => s.as_str(),
        None => "",
    };
    proof {
        reveal_strlit("");
        assert(""@ =~= Seq::<char>::empty());
    }
    text_le(na, nb)
}

/// Puts items into the order in which pages list them; items that may be
/// listed either way stay in the order in which they came.
pub fn in_order<'a>(items: &Vec<&'a Item>) -> (r: Vec<&'a Item>)
    ensures
        shown(r@) == arranged(shown(items@), by_listing()),
        in_listed_order(shown(r@)),
        shown(r@).to_multiset() == shown(items@).to_multiset(),
{
    let ghost all = shown(items@);
    let mut r: Vec<&'a Item> = Vec::new();
    let mut i: usize = 0;
    proof {
        assert(all.take(0) =~= Seq::<Item>::empty());
        assert(shown(r@) =~= all.take(0));
    }
    while i < items.len()
        invariant
            i <= items.len(),
            all == shown(items@),
            shown(r@) == arranged(all.take(i as int), by_listing()),
            in_listed_order(shown(r@)),
            shown(r@).to_multiset() == all.take(i as int).to_multiset(),
        decreases items.len() - i,
    {
        let item: &'a Item = items[i];
        let mut at: usize = 0;
        while at < r.len() && lists_before(r[at], item)
            invariant
                at <= r.len(),
                forall|k: int| 0 <= k < at ==> listed_before(#[trigger] shown(r@)[k], *item),
            decreases r.len() - at,
        {
            at += 1;
        }
        let ghost before = shown(r@);
        r.insert(at, item);
        proof {
            assert(shown(r@) =~= before.insert(at as int, *item));
            assert forall|k: int| 0 <= k < at implies by_listing()(#[trigger] before[k], *item) by {
                assert(listed_before(before[k], *item));
            }
            lemma_slot(before, *item, by_listing(), at as int);
            assert(all.take(i + 1).drop_last() =~= all.take(i as int));
            assert(all.take(i + 1).last() == *item);
            lemma_insert_multiset(before, at as int, *item);
            assert(all.take(i + 1) =~= all.take(i as int).push(all[i as int]));
            vstd::seq_lib::to_multiset_build(all.take(i as int), all[i as int]);
            let after = shown(r@);
            assert forall|a: int, b: int| 0 <= a < b < after.len() implies listed_before(
                after[a],
                after[b],
            ) by {
                if b == at {
                    assert(after[a] == before[a]);
                } else if a == at {
                    assert(after[b] == before[b - 1]);
                    lemma_listed_total(before[at as int], *item);
                    if b - 1 > at {
                        lemma_listed_transitive(*item, before[at as int], before[b - 1]);
                    }
                } else {
                    let a0 = if a < at {
                        a
                    } else {
                        a - 1
                    };
                    let b0 = if b < at {
                        b
                    } else {
                        b - 1
                    };
                    assert(after[a] == before[a0]);
                    assert(after[b] == before[b0]);
                }
            }
        }
        i += 1;
    }
    proof {
        assert(all.take(items.len() as int) =~= all);
    }
    r
}

/// The items that are being read or watched, in the order in which pages
/// list them.
pub fn in_progress(shelf: &Shelf) -> (r: Vec<&Item>)
    ensures
        shown(r@) == arranged(chosen(shelf@.items, |i: Item| is_in_progress(i)), by_listing()),
        in_listed_order(shown(r@)),
        shown(r@).to_multiset() == chosen(shelf@.items, |i: Item| is_in_progress(i)).to_multiset(),
{
    let items = shelf.all_items();
    let ghost wanted = |i: Item| is_in_progress(i);
    let mut picked: Vec<&Item> = Vec::new();
    let mut i: usize = 0;
    proof {
        assert(items@.take(0) =~= Seq::<Item>::empty());
        assert(shown(picked@) =~= chosen(items@.take(0), wanted));
    }
    while i < items.len()
        invariant
            i <= items.len(),
            wanted == |i: Item| is_in_progress(i),
            shown(picked@) == chosen(items@.take(i as int), wanted),
        decreases items.len() - i,
    {
        proof {
            assert(items@.take(i + 1).drop_last() =~= items@.take(i as int));
            assert(items@.take(i + 1).last() == items@[i as int]);
        }
        if items[i].status == Status::InProgress {
            let ghost before = shown(picked@);
            picked.push(&items[i]);
            proof {
                assert(shown(picked@) =~= before.push(items@[i as int]));
            }
        }
        i += 1;
    }
    proof {
        assert(items@.take(i as int) =~= items@);
    }
    in_order(&picked)
}

/// The books that were read to the end, in the order in which pages list
/// them.
pub fn finished_books(shelf: &Shelf) -> (r: Vec<&Item>)
    ensures
        shown(r@) == arranged(chosen(shelf@.items, |i: Item| is_finished_book(i)), by_listing()),
        in_listed_order(shown(r@)),
        shown(r@).to_multiset() == chosen(
            shelf@.items,
            |i: Item| is_finished_book(i),
        ).to_multiset(),
{
    let items = shelf.all_items();
    let ghost wanted = |i: Item| is_finished_book(i);
    let mut picked: Vec<&Item> = Vec::new();
    let mut i: usize = 0;
    proof {
        assert(items@.take(0) =~= Seq::<Item>::empty());
        assert(shown(picked@) =~= chosen(items@.take(0), wanted));
    }
    while i < items.len()
        invariant
            i <= items.len(),
            wanted == |i: Item| is_finished_book(i),
            shown(picked@) == chosen(items@.take(i as int), wanted),
        decreases items.len() - i,
    {
        proof {
            assert(items@.take(i + 1).drop_last() =~= items@.take(i as int));
            assert(items@.take(i + 1).last() == items@[i as int]);
        }
        let item = &items[i];
        if item.status == Status::Completed && (item.kind == Kind::Novel || item.kind == Kind::Play
            || item.kind == Kind::Collection || item.kind == Kind::ShortStory) {
            let ghost before = shown(picked@);
            picked.push(item);
            proof {
                assert(shown(picked@) =~= before.push(items@[i as int]));
            }
        }
        i += 1;
    }
    proof {
        assert(items@.take(i as int) =~= items@);
    }
    in_order(&picked)
}

} // verus!
