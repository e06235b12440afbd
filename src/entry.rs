use vstd::prelude::*;

use crate::scope::{find_field, first_with_key};

verus! {

/// Severity of a span or event, from least to most severe.
#[derive(Clone, Copy, Debug, PartialEq, Eq, Structural, PartialOrd, Ord, Hash)]
pub enum Level {
    Trace,
    Debug,
    Info,
    Warn,
    Error,
}

/// The upper-case name under which a level is published.
pub open spec fn level_name(l: Level) -> Seq<char> {
    match l {
        Level::Trace => "TRACE"@,
        Level::Debug => "DEBUG"@,
        Level::Info => "INFO"@,
        Level::Warn => "WARN"@,
        Level::Error => "ERROR"@,
    }
}

impl Level {
    pub fn as_str(&self) -> (r: &'static str)
        ensures
            r@ == level_name(*self),
    {
        match self {
            Level::Trace => "TRACE",
            Level::Debug => "DEBUG",
            Level::Info => "INFO",
            Level::Warn => "WARN",
            Level::Error => "ERROR",
        }
    }
}

/// Mathematical value of an [`Entry`]: strings as character sequences and
/// children as a sequence of values.
pub struct EntryView {
    pub stamp: u64,
    pub level: Seq<char>,
    pub name: Seq<char>,
    pub file: Option<Seq<char>>,
    pub line: Option<u32>,
    pub took: u128,
    pub fields: Seq<(Seq<char>, Seq<char>)>,
    pub children: Seq<EntryView>,
}

/// An immutable, fully resolved node of a published trace tree.
#[derive(Debug)]
pub struct Entry {
    /// Creation time, in microseconds since the Unix epoch.
    pub stamp: u64,
    pub level: String,
    pub name: String,
    pub file: Option<String>,
    pub line: Option<u32>,
    /// Accumulated active time, in microseconds.
    pub took: u128,
    /// Attributes in order of first recording.
    pub fields: Vec<(String, String)>,
    pub children: Vec<Entry>,
}

pub open spec fn opt_str_view(o: Option<String>) -> Option<Seq<char>> {
    match o {
        Some(s) => Some(s@),
        None => None,
    }
}

pub open spec fn fields_view(f: Seq<(String, String)>) -> Seq<(Seq<char>, Seq<char>)> {
    f.map_values(|p: (String, String)| (p.0@, p.1@))
}

/// Whether an accumulated time is zero, in which case it is left out when
/// an entry is serialized.
pub fn is_zero(num: &u128) -> (r: bool)
    ensures
        r == (*num == 0),
{
    *num == 0
}

/// The views of the first `n` children of `e`.
pub open spec fn children_views(e: Entry, n: nat) -> Seq<EntryView>
    decreases e, n,
{
    if n == 0 || n > e.children@.len() {
        Seq::empty()
    } else {
        children_views(e, (n - 1) as nat).push(entry_view(e.children@[n - 1]))
    }
}

pub open spec fn entry_view(e: Entry) -> EntryView
    decreases e, e.children@.len() + 1,
{
    EntryView {
        stamp: e.stamp,
        level: e.level@,
        name: e.name@,
        file: opt_str_view(e.file),
        line: e.line,
        took: e.took,
        fields: fields_view(e.fields@),
        children: children_views(e, e.children@.len()),
    }
}

impl View for Entry {
    type V = EntryView;

    open spec fn view(&self) -> EntryView {
        entry_view(*self)
    }
}

impl Entry {
    /// The value recorded under `key`.
    pub fn field(&self, key: &str) -> (r: Option<&String>)
        ensures
            match r {
                Some(v) => exists|i: int|
                    first_with_key(fields_view(self.fields@), key@, i) && self.fields@[i].1 == *v,
                None => forall|i: int|
                    0 <= i < self.fields@.len() ==> #[trigger] self.fields@[i].0@ != key@,
            },
    {
        find_field(&self.fields, key)
    }

    /// The view of an entry's children is the sequence of their views.
    pub proof fn lemma_children_view(&self)
        ensures
            self@.children.len() == self.children@.len(),
            forall|j: int|
                0 <= j < self.children@.len() ==> #[trigger] self@.children[j]
                    == self.children@[j]@,
    {
        lemma_children_views(*self, self.children@.len());
    }
}

proof fn lemma_children_views(e: Entry, n: nat)
    requires
        n <= e.children@.len(),
    ensures
        children_views(e, n).len() == n,
        forall|j: int| 0 <= j < n ==> #[trigger] children_views(e, n)[j] == entry_view(e.children@[j]),
    decreases n,
{
    if n > 0 {
        lemma_children_views(e, (n - 1) as nat);
    }
}

} // verus!
