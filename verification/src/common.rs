//! The records that every part of the catalogue shares.

use vstd::prelude::*;
use vstd::string::*;
use crate::keyed::{distinct, find, lemma_find, locate, Keyed};

verus! {

/// Several named values for one thing, one of them the default: the
/// translations of a title, for instance.
///
/// `alternatives` pairs each name with its value, and no name stands
/// twice (`wf`); `default` is the name to prefer.
#[derive(Clone, Debug, PartialEq)]
pub struct Alternatives<T> {
    pub default: String,
    pub alternatives: Vec<(String, T)>,
}

impl<T> Alternatives<T> {
    /// What holds of a bundle: no name stands twice.
    pub open spec fn wf(&self) -> bool {
        distinct(self.alternatives@)
    }

    /// The position of the first value held under `name`.
    pub open spec fn position(&self, name: Seq<char>) -> Option<int> {
        find(self.alternatives@, name)
    }

    /// The first value held under `name`.
    pub fn get(&self, name: &str) -> (r: Option<&T>)
        ensures
            match r {
                Some(v) => self.position(name@) matches Some(i) && *v == self.alternatives@[i].1,
                None => self.position(name@) is None,
            },
    {
        match locate(&self.alternatives, name) {
            Some(i) => {
                proof {
                    lemma_find(self.alternatives@, name@);
                }
                Some(&self.alternatives[i].1)
            },
            None => None,
        }
    }
}

impl<T> Keyed for (String, T) {
    open spec fn key_text(&self) -> Seq<char> {
        self.0@
    }

    fn key_ref(&self) -> (k: &String) {
        &self.0
    }
}

impl Alternatives<String> {
    /// A bundle that holds one value, under the name that is also its
    /// default.
    pub fn new(default: &str, value: &str) -> (r: Alternatives<String>)
        ensures
            r.default@ == default@,
            r.alternatives@.len() == 1,
            r.alternatives@[0].0@ == default@,
            r.alternatives@[0].1@ == value@,
            r.wf(),
    {
        let mut alternatives: Vec<(String, String)> = Vec::new();
        alternatives.push((default.to_owned(), value.to_owned()));
        Alternatives { default: default.to_owned(), alternatives }
    }
}

/// The role for a person associated with a work.
#[derive(Clone, Copy, Debug, PartialEq, Eq, Structural)]
pub enum Role {
    Artist,
    Author,
    Director,
    Translator,
}

/// A person associated with potentially many works.
#[derive(Clone, Debug, PartialEq)]
pub struct Person {
    pub key: String,
    pub name: Alternatives<String>,
}

impl Keyed for Person {
    open spec fn key_text(&self) -> Seq<char> {
        self.key@
    }

    fn key_ref(&self) -> (k: &String) {
        &self.key
    }
}

/// The read/watch status of an item.
#[derive(Clone, Copy, Debug, PartialEq, Eq, Structural)]
pub enum Status {
    Completed,
    InProgress,
    Planned,
    OnHold,
    Dropped,
}

/// The type of a work.
#[derive(Clone, Copy, Debug, PartialEq, Eq, Structural)]
pub enum Kind {
    Unknown,
    Manga,
    TV,
    Film,
    Novel,
    /// Original Video Animation
    OVA,
    /// Original Net Animation
    ONA,
    /// Music Video
    Music,
    /// Stage Play
    Play,
    /// A collection of works.
    Collection,
    /// A short story, published standalone.
    ShortStory,
    Musical,
    VisualNovel,
    NonFiction,
}

/// A binary blob stored in a shelf (for things like cover images).
///
/// Only the description is held here; the payload is a file of its own.
#[derive(Debug, PartialEq, Eq)]
pub struct Blob {
    pub key: String,
    pub mime_type: String,
}

impl Blob {
    /// The description of a blob with the given key and MIME type.
    pub fn new_with_mime(key: String, mime_type: String) -> (r: Blob)
        ensures
            r.key == key,
            r.mime_type == mime_type,
    {
        Blob { key, mime_type }
    }
}

impl Keyed for Blob {
    open spec fn key_text(&self) -> Seq<char> {
        self.key@
    }

    fn key_ref(&self) -> (k: &String) {
        &self.key
    }
}

impl Clone for Blob {
    fn clone(&self) -> (r: Blob)
        ensures
            r == *self,
    {
        Blob { key: self.key.clone(), mime_type: self.mime_type.clone() }
    }
}

/// A moment in time with the offset of the clock that read it: seconds and
/// nanoseconds since the start of 1970 in UTC, and the clock's offset east
/// of UTC in seconds. In the last second of a minute `nanos` may pass a
/// full second, which marks a leap second.
///
/// Two values are equal under `==` when they are one moment, whatever
/// their offsets.
#[derive(Clone, Copy, Debug, Eq)]
pub struct Instant {
    pub seconds: i64,
    pub nanos: u32,
    pub offset: i32,
}

impl PartialEq for Instant {
    fn eq(&self, other: &Instant) -> (r: bool) {
        self.seconds == other.seconds && self.nanos == other.nanos
    }
}

impl vstd::std_specs::cmp::PartialEqSpecImpl for Instant {
    open spec fn obeys_eq_spec() -> bool {
        true
    }

    open spec fn eq_spec(&self, other: &Instant) -> bool {
        self.seconds == other.seconds && self.nanos == other.nanos
    }
}

/// A day of the calendar.
#[derive(Clone, Copy, Debug, PartialEq, Eq, Structural)]
pub struct Day {
    pub year: i32,
    pub month: u32,
    pub day: u32,
}

/// A hybrid date or Boolean, used to import data from sites that
/// offer only a Boolean completed flag instead of a completion date,
/// or a less granular completion date.
#[derive(Clone, Copy, Debug, PartialEq, Eq)]
pub enum DateBool {
    False,
    True,
    Timestamp(Instant),
    Date(Day),
    YearMonth(u32, u32),
}

impl Default for DateBool {
    fn default() -> (r: DateBool)
        ensures
            r == DateBool::False,
    {
        DateBool::False
    }
}

/// What a `DateBool` is stored as: nothing, a Boolean or a text.
#[derive(Clone, Debug, PartialEq, Eq)]
pub enum Scalar {
    Null,
    Flag(bool),
    Text(String),
}

/// A `Scalar` with its text as a sequence of characters.
pub enum ScalarView {
    Null,
    Flag(bool),
    Text(Seq<char>),
}

impl View for Scalar {
    type V = ScalarView;

    open spec fn view(&self) -> ScalarView {
        match self {
            Scalar::Null => ScalarView::Null,
            Scalar::Flag(b) => ScalarView::Flag(*b),
            Scalar::Text(s) => ScalarView::Text(s@),
        }
    }
}

} // verus!
