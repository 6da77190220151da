//! The catalogued works.

use vstd::prelude::*;
use vstd::string::*;
use crate::calendar::now;
use crate::common::{Alternatives, DateBool, Instant, Kind, Role, Status};
use crate::keyed::Keyed;

verus! {

/// An open-ended value of structured data, as `serde_yaml` holds it. The
/// library carries such values and never looks into them.
#[verifier::external_type_specification]
#[verifier::external_body]
pub struct ExValue(serde_yaml::Value);

/// `serde_yaml::Value`'s own `clone`, of which nothing is claimed.
pub assume_specification[ <serde_yaml::Value as Clone>::clone ](v: &serde_yaml::Value) -> (r:
    serde_yaml::Value);

/// Makes `serde_yaml::Value::Null`, the value that stands for no data.
#[verifier::external_body]
pub(crate) fn default_extras() -> (r: serde_yaml::Value) {
    serde_yaml::Value::Null
}

/// Whether a work is still coming out.
#[derive(Clone, Copy, Debug, PartialEq, Eq, Structural)]
pub enum PublicationStatus {
    Publishing,
    Complete,
}

/// A catalogued work.
#[derive(Clone, Debug)]
pub struct Item {
    pub key: String,
    pub kind: Kind,
    pub name: Alternatives<String>,
    pub people: Vec<(Role, String)>,
    pub season: Option<String>,
    pub entries: Vec<Entry>,
    pub status: Status,
    pub rating: Option<u32>,
    pub tags: Vec<String>,
    pub added: Instant,
    pub started: DateBool,
    pub completed: DateBool,
    pub extra: serde_yaml::Value,
    pub publication_status: PublicationStatus,
    /// The key of the series, and the name or number of this work in it.
    pub series: Option<(String, Option<String>)>,
}

/// A part of a work: a chapter, an episode, a volume.
#[derive(Clone, Debug)]
pub struct Entry {
    pub name: Option<Alternatives<String>>,
    pub number: Option<u32>,
    pub volume: Option<u32>,
    pub completed: DateBool,
    pub extra: serde_yaml::Value,
}

impl Item {
    /// The keys of the people that the item names, in the item's order.
    pub open spec fn people_keys(&self) -> Seq<Seq<char>> {
        self.people@.map_values(|p: (Role, String)| p.1@)
    }

    /// The key of the series that the item names.
    pub open spec fn series_key(&self) -> Option<Seq<char>> {
        match self.series {
            Some((key, _)) => Some(key@),
            None => None,
        }
    }
}

impl Keyed for Item {
    open spec fn key_text(&self) -> Seq<char> {
        self.key@
    }

    fn key_ref(&self) -> (k: &String) {
        &self.key
    }
}

impl Default for Item {
    /// A blank item, added now: a planned manga that is still being
    /// published, with an empty English name and no data beyond that.
    fn default() -> (r: Item)
        ensures
            r.key@ == Seq::<char>::empty(),
            r.kind == Kind::Manga,
            r.name.default@ == "English"@,
            r.name.alternatives@.len() == 1,
            r.name.alternatives@[0].0@ == "English"@,
            r.name.alternatives@[0].1@ == ""@,
            r.people@.len() == 0,
            r.season is None,
            r.entries@.len() == 0,
            r.status == Status::Planned,
            r.rating is None,
            r.tags@.len() == 0,
            r.started == DateBool::False,
            r.completed == DateBool::False,
            r.publication_status == PublicationStatus::Publishing,
            r.series is None,
    {
        Item {
            key: String::new(),
            kind: Kind::Manga,
            name: Alternatives::new("English", ""),
            people: Vec::new(),
            season: None,
            entries: Vec::new(),
            status: Status::Planned,
            rating: None,
            tags: Vec::new(),
            added: now(),
            started: DateBool::False,
            completed: DateBool::False,
            extra: default_extras(),
            publication_status: PublicationStatus::Publishing,
            series: None,
        }
    }
}

} // verus!
